//! What holds of the text of every form.

use crate::extractor::form_extract::{inherited_from, FormSource, FormState, ShownParts};
use crate::extractor::form_fonts::{
    elements_as, metrics_as, parts_of, parts_placed, settles, shows, shows_array, shows_parts, FormFonts,
};
use crate::extractor::form_run::{
    ends, extracts_form, form_bytes, invoked, operations_within, outcome, stepped, traces, FormLimits,
};
use crate::extractor::form_text::{
    element_views, law_hidden_arrays_only_move, with_parts, ArrayElement, ArrayParts, ArraySetting, ExtractedView,
    FontFace, PlacedRun, ShowSetting, SpaceMetrics,
};
use crate::extractor::form_walk::{
    law_suppressed_text_is_told, law_walk_keeps_its_frame, suppresses, ActionView, Inherited, WalkView,
};
use crate::extractor::text_paint::Matrix;
use crate::extractor::xobjects::{FormWalkBudget, MAX_FORM_XOBJECT_DEPTH};
use crate::hybrid_markdown::error::PdfFailure;
use crate::pdf::{document_objects, looked_up, Node};
use vstd::prelude::*;

verus! {

/// What every operator keeps of a state, the evidence of suppressed text aside.
pub open spec fn same_frame(before: FormState, after: FormState) -> bool {
    &&& after.page == before.page
    &&& after.walk.depth == before.walk.depth
    &&& after.walk.include_invisible == before.walk.include_invisible
}

/// Neither the walk nor the extraction has another word on suppressed text.
pub open spec fn same_evidence(before: FormState, after: FormState) -> bool {
    &&& after.walk.skipped_invisible == before.walk.skipped_invisible
    &&& after.extracted.skipped_invisible == before.extracted.skipped_invisible
}

proof fn lemma_parts_keep_evidence(
    before: ExtractedView,
    runs: Seq<PlacedRun>,
    face: FontFace,
    walk: WalkView,
    setting: ShowSetting,
    backward_jump: bool,
    n: nat,
)
    ensures
        with_parts(before, runs, face, walk, setting, backward_jump, n).extracted.skipped_invisible
            == before.skipped_invisible,
    decreases n,
{
    if n > 0 {
        lemma_parts_keep_evidence(before, runs, face, walk, setting, backward_jump, (n - 1) as nat);
    }
}

proof fn lemma_shown_text_keeps_frame<F: FormFonts>(
    fonts: &F,
    doc: &lopdf::Document,
    stream: (u32, u16),
    before: FormState,
    operand: Node,
    hidden: bool,
    after: FormState,
)
    requires
        shows(fonts, doc, stream, before, operand, hidden, after),
    ensures
        same_frame(before, after),
        same_evidence(before, after),
        hidden ==> after.extracted == before.extracted,
{
}

proof fn lemma_shown_array_keeps_frame<F: FormFonts>(
    fonts: &F,
    doc: &lopdf::Document,
    stream: (u32, u16),
    before: FormState,
    items: Seq<Node>,
    hidden: bool,
    after: FormState,
)
    requires
        shows_array(fonts, doc, stream, before, items, hidden, after),
    ensures
        same_frame(before, after),
        same_evidence(before, after),
        hidden ==> after.extracted == before.extracted,
{
    let (metrics, elements, parts) = choose|
        metrics: Option<SpaceMetrics>,
        elements: Seq<ArrayElement>,
        parts: ArrayParts,
    |
        {
            &&& metrics_as(fonts, doc, stream, before.walk.graphics.font, metrics)
            &&& elements_as(fonts, doc, stream, before.walk, items, elements)
            &&& #[trigger] parts_of(
                elements,
                (ArraySetting { font_size: before.walk.graphics.font_size, metrics, hidden }),
                parts,
            )
            &&& #[trigger] shows_parts(fonts, doc, stream, before, metrics is Some, parts, after)
        };
    let setting = ArraySetting { font_size: before.walk.graphics.font_size, metrics, hidden };
    if hidden {
        law_hidden_arrays_only_move(element_views(elements), setting, elements.len());
        assert(parts.runs@.len() == 0) by {
            assert(crate::extractor::form_text::sub_run_views(parts.runs@).len() == parts.runs@.len());
        }
    }
    if parts.runs@.len() > 0 {
        let (shown, spaced) = choose|shown: ShownParts, spaced: FormState|
            {
                &&& #[trigger] parts_placed(fonts, doc, stream, before.walk, metrics is Some, parts.runs@, shown)
                &&& #[trigger] settles(fonts, before, shown.runs@[0], shown.rendered_size, spaced)
                &&& after == spaced.with_array(parts.backward_jump, shown).moved(Some(parts.total))
            };
        lemma_parts_keep_evidence(
            ExtractedView {
                run_rotations: spaced.extracted.run_rotations.push(shown.angle),
                ..spaced.extracted
            },
            shown.runs@,
            shown.face,
            before.walk,
            (ShowSetting { rendered_size: shown.rendered_size, page: before.page, scale: shown.scale }),
            parts.backward_jump,
            shown.runs@.len(),
        );
    }
}

/// The operator invokes a form.
pub open spec fn invokes(
    source: FormSource,
    operation: (Seq<char>, Seq<Node>),
    before: (FormState, FormWalkBudget),
) -> bool {
    before.0.walk.observed(operation.0, operation.1, source.forms.map(), source.resources@, before.1).1 is Invoke
}

/// The operator is paid and shows suppressed text.
pub open spec fn skips(operation: (Seq<char>, Seq<Node>), before: (FormState, FormWalkBudget)) -> bool {
    before.1.operations < before.1.max_operations && suppresses(before.0.walk, operation.0, operation.1)
}

/// Every operator keeps the page, the depth and whether invisible text is
/// asked for. It is told to have suppressed text exactly where it has, and
/// what nested forms suppressed changes by invoking one only.
pub proof fn law_operators_keep_the_frame<F: FormFonts>(
    fonts: &F,
    doc: &lopdf::Document,
    stream: (u32, u16),
    source: FormSource,
    limits: FormLimits,
    depth: u8,
    operation: (Seq<char>, Seq<Node>),
    before: (FormState, FormWalkBudget),
    after: (FormState, FormWalkBudget),
)
    requires
        stepped(fonts, doc, stream, source, limits, depth, operation, before, after),
    ensures
        same_frame(before.0, after.0),
        after.0.walk.skipped_invisible == (before.0.walk.skipped_invisible || skips(operation, before)),
        before.0.extracted.skipped_invisible ==> after.0.extracted.skipped_invisible,
        !invokes(source, operation, before) ==> after.0.extracted.skipped_invisible
            == before.0.extracted.skipped_invisible,
{
    law_walk_keeps_its_frame(before.0.walk, operation.0, operation.1, source.resources@);
    law_suppressed_text_is_told(before.0.walk, operation.0, operation.1, source.resources@);
    let (walk, action, charged) = before.0.walk.observed(
        operation.0,
        operation.1,
        source.forms.map(),
        source.resources@,
        before.1,
    );
    let seen = before.0.walked(walk);
    match action {
        ActionView::Show { hidden } => {
            lemma_shown_text_keeps_frame(fonts, doc, stream, seen, operation.1.last(), hidden, after.0);
        },
        ActionView::ShowArray { hidden } => {
            if let Node::Array(items) = operation.1[0] {
                lemma_shown_array_keeps_frame(fonts, doc, stream, seen, items, hidden, after.0);
            }
        },
        _ => {},
    }
}

/// Hidden text gives no item, no baseline angle and no other evidence.
pub proof fn law_hidden_text_gives_nothing<F: FormFonts>(
    fonts: &F,
    doc: &lopdf::Document,
    stream: (u32, u16),
    source: FormSource,
    limits: FormLimits,
    depth: u8,
    operation: (Seq<char>, Seq<Node>),
    before: (FormState, FormWalkBudget),
    after: (FormState, FormWalkBudget),
)
    requires
        stepped(fonts, doc, stream, source, limits, depth, operation, before, after),
        ({
            let action = before.0.walk.observed(
                operation.0,
                operation.1,
                source.forms.map(),
                source.resources@,
                before.1,
            ).1;
            action == (ActionView::Show { hidden: true }) || action == (ActionView::ShowArray { hidden: true })
        }),
    ensures
        after.0.extracted == before.0.extracted,
{
    let (walk, action, charged) = before.0.walk.observed(
        operation.0,
        operation.1,
        source.forms.map(),
        source.resources@,
        before.1,
    );
    let seen = before.0.walked(walk);
    if action is Show {
        lemma_shown_text_keeps_frame(fonts, doc, stream, seen, operation.1.last(), true, after.0);
    } else if let Node::Array(items) = operation.1[0] {
        lemma_shown_array_keeps_frame(fonts, doc, stream, seen, items, true, after.0);
    }
}

/// A nested form that suppressed text is the first to have done so.
pub open spec fn nested_skips(before: (FormState, FormWalkBudget), after: (FormState, FormWalkBudget)) -> bool {
    !before.0.extracted.skipped_invisible && after.0.extracted.skipped_invisible
}

/// Up to a state, suppressed text was told exactly where some operator showed
/// it or some nested form had it.
pub open spec fn tells(
    operations: Seq<(Seq<char>, Seq<Node>)>,
    trace: Seq<(FormState, FormWalkBudget)>,
    n: int,
) -> bool {
    trace[n].0.result().skipped_invisible <==> exists|k: int|
        0 <= k < n && (skips(#[trigger] operations[k], trace[k]) || nested_skips(trace[k], trace[k + 1]))
}

/// An operator adds to the evidence of suppressed text just what it, or a form
/// that it invokes, suppressed.
spec fn adds_evidence(
    operation: (Seq<char>, Seq<Node>),
    before: (FormState, FormWalkBudget),
    after: (FormState, FormWalkBudget),
) -> bool {
    &&& after.0.walk.skipped_invisible == (before.0.walk.skipped_invisible || skips(operation, before))
    &&& before.0.extracted.skipped_invisible ==> after.0.extracted.skipped_invisible
}

proof fn lemma_tells(
    operations: Seq<(Seq<char>, Seq<Node>)>,
    trace: Seq<(FormState, FormWalkBudget)>,
    n: nat,
)
    requires
        !trace[0].0.result().skipped_invisible,
        n <= operations.len(),
        forall|k: int| 0 <= k < n ==> adds_evidence(#[trigger] operations[k], trace[k], trace[k + 1]),
    ensures
        tells(operations, trace, n as int),
    decreases n,
{
    if n > 0 {
        let last = n - 1;
        lemma_tells(operations, trace, last as nat);
        assert(adds_evidence(operations[last], trace[last], trace[last + 1]));
        if trace[last].0.result().skipped_invisible {
            let k = choose|k: int|
                0 <= k < last && (skips(#[trigger] operations[k], trace[k]) || nested_skips(trace[k], trace[k + 1]));
            assert(skips(operations[k], trace[k]) || nested_skips(trace[k], trace[k + 1]));
        } else if trace[n as int].0.result().skipped_invisible {
            assert(skips(operations[last], trace[last]) || nested_skips(trace[last], trace[last + 1]));
        } else {
            assert forall|k: int| 0 <= k < n implies !(skips(#[trigger] operations[k], trace[k]) || nested_skips(
                trace[k],
                trace[k + 1],
            )) by {
                if k == last {
                }
            }
        }
    }
}

/// A form is told to have suppressed invisible text exactly where one of its
/// operators that are paid shows a text that is not empty, in a text object
/// and in the invisible mode, or a nested form has done so.
pub proof fn law_skipped_text_is_told<F: FormFonts>(
    fonts: &F,
    doc: &lopdf::Document,
    stream: (u32, u16),
    source: FormSource,
    limits: FormLimits,
    depth: u8,
    operations: Seq<(Seq<char>, Seq<Node>)>,
    trace: Seq<(FormState, FormWalkBudget)>,
)
    requires
        traces(fonts, doc, stream, source, limits, depth, operations, trace),
        !trace[0].0.result().skipped_invisible,
    ensures
        trace.last().0.result().skipped_invisible <==> exists|k: int|
            0 <= k < operations.len() && (skips(#[trigger] operations[k], trace[k]) || nested_skips(
                trace[k],
                trace[k + 1],
            )),
{
    assert forall|k: int| 0 <= k < operations.len() implies adds_evidence(
        #[trigger] operations[k],
        trace[k],
        trace[k + 1],
    ) by {
        assert(stepped(fonts, doc, stream, source, limits, depth, operations[k], trace[k], trace[k + 1]));
        law_operators_keep_the_frame(fonts, doc, stream, source, limits, depth, operations[k], trace[k], trace[k + 1]);
    }
    lemma_tells(operations, trace, operations.len());
    assert(trace.last() == trace[operations.len() as int]);
}

proof fn lemma_nothing_skipped<F: FormFonts>(
    fonts: &F,
    doc: &lopdf::Document,
    stream: (u32, u16),
    source: FormSource,
    limits: FormLimits,
    depth: u8,
    operations: Seq<(Seq<char>, Seq<Node>)>,
    trace: Seq<(FormState, FormWalkBudget)>,
    n: nat,
)
    requires
        traces(fonts, doc, stream, source, limits, depth, operations, trace),
        trace[0].0.walk.include_invisible,
        !trace[0].0.result().skipped_invisible,
        n <= operations.len(),
    ensures
        trace[n as int].0.walk.include_invisible,
        !trace[n as int].0.result().skipped_invisible,
    decreases MAX_FORM_XOBJECT_DEPTH - depth, 1int, n,
{
    if n > 0 {
        let last = n - 1;
        lemma_nothing_skipped(fonts, doc, stream, source, limits, depth, operations, trace, last as nat);
        let before = trace[last];
        let after = trace[last + 1];
        let operation = operations[last];
        assert(stepped(fonts, doc, stream, source, limits, depth, operation, before, after));
        law_operators_keep_the_frame(fonts, doc, stream, source, limits, depth, operation, before, after);
        let (walk, action, charged) = before.0.walk.observed(
            operation.0,
            operation.1,
            source.forms.map(),
            source.resources@,
            before.1,
        );
        if let ActionView::Invoke(number, generation) = action {
            let seen = before.0.walked(walk);
            let inner = choose|inner: ExtractedView|
                {
                    &&& extracts_form(
                        fonts,
                        doc,
                        (number, generation),
                        walk.graphics.ctm,
                        inherited_from(walk),
                        walk.include_invisible,
                        (depth + 1) as u8,
                        before.0.page,
                        limits,
                        charged,
                        Ok(inner),
                        after.1,
                    )
                    &&& after.0 == #[trigger] seen.with_nested(inner)
                };
            law_walk_keeps_its_frame(before.0.walk, operation.0, operation.1, source.resources@);
            law_asking_for_invisible_text_skips_none(
                fonts,
                doc,
                (number, generation),
                walk.graphics.ctm,
                inherited_from(walk),
                (depth + 1) as u8,
                before.0.page,
                limits,
                charged,
                inner,
                after.1,
            );
        }
    }
}

/// Where invisible text is asked for, no form skips any, and none of the forms
/// nested in it.
pub proof fn law_asking_for_invisible_text_skips_none<F: FormFonts>(
    fonts: &F,
    doc: &lopdf::Document,
    form_id: (u32, u16),
    parent_ctm: Matrix,
    inherited: Inherited,
    depth: u8,
    page: u32,
    limits: FormLimits,
    budget: FormWalkBudget,
    r: ExtractedView,
    left: FormWalkBudget,
)
    requires
        extracts_form(fonts, doc, form_id, parent_ctm, inherited, true, depth, page, limits, budget, Ok(r), left),
    ensures
        !r.skipped_invisible,
    decreases MAX_FORM_XOBJECT_DEPTH - depth, 2int, 0nat,
{
    if let Some((source, operations, trace, end)) = lemma_walked(
        fonts,
        doc,
        form_id,
        parent_ctm,
        inherited,
        true,
        depth,
        page,
        limits,
        budget,
        Ok(r),
        left,
    ) {
        lemma_nothing_skipped(
            fonts,
            doc,
            form_id,
            source,
            limits,
            depth,
            operations,
            trace,
            operations.len(),
        );
        assert(trace.last() == trace[operations.len() as int]);
    }
}

/// The walk behind an extraction, if there was one.
proof fn lemma_walked<F: FormFonts>(
    fonts: &F,
    doc: &lopdf::Document,
    form_id: (u32, u16),
    parent_ctm: Matrix,
    inherited: Inherited,
    include_invisible: bool,
    depth: u8,
    page: u32,
    limits: FormLimits,
    budget: FormWalkBudget,
    r: Result<ExtractedView, PdfFailure>,
    left: FormWalkBudget,
) -> (walk: Option<
    (
        FormSource,
        Seq<(Seq<char>, Seq<Node>)>,
        Seq<(FormState, FormWalkBudget)>,
        Result<FormState, PdfFailure>,
    ),
>)
    requires
        extracts_form(
            fonts,
            doc,
            form_id,
            parent_ctm,
            inherited,
            include_invisible,
            depth,
            page,
            limits,
            budget,
            r,
            left,
        ),
    ensures
        match walk {
            Some((source, operations, trace, end)) => {
                &&& trace[0].0 == FormState::start(
                    source.matrix.spec_times(parent_ctm),
                    inherited,
                    include_invisible,
                    depth,
                    page,
                )
                &&& ends(fonts, doc, form_id, source, limits, depth, operations, trace, end, left)
                &&& r == outcome(end)
            },
            None => match r {
                Ok(extracted) => extracted == ExtractedView::nothing(),
                Err(_) => limits.max_decompressed_size is Some,
            },
        },
{
    let bytes = form_bytes(*doc, form_id, limits.max_decompressed_size);
    match looked_up(document_objects(*doc), form_id) {
        Some(Node::Stream(form)) => {
            let operations = operations_within(bytes, limits.max_operations)->0;
            if budget.spent() || bytes is None || operations_within(bytes, limits.max_operations) is None || (r is Err
                && limits.max_decompressed_size is Some) {
                None
            } else {
            let (source, trace, end) = choose|
                source: FormSource,
                trace: Seq<(FormState, FormWalkBudget)>,
                end: Result<FormState, PdfFailure>,
            |
                {
                    &&& #[trigger] source.describes(document_objects(*doc), form)
                    &&& (#[trigger] trace[0]) == (
                        FormState::start(
                            source.matrix.spec_times(parent_ctm),
                            inherited,
                            include_invisible,
                            depth,
                            page,
                        ),
                        invoked(budget),
                    )
                    &&& ends(fonts, doc, form_id, source, limits, depth, operations, trace, end, left)
                    &&& r == #[trigger] outcome(end)
                };
            Some((source, operations, trace, end))
            }
        },
        _ => None,
    }
}

/// Without a limit on the size of streams, no extraction of a form fails.
pub proof fn law_unlimited_extraction_never_fails<F: FormFonts>(
    fonts: &F,
    doc: &lopdf::Document,
    form_id: (u32, u16),
    parent_ctm: Matrix,
    inherited: Inherited,
    include_invisible: bool,
    depth: u8,
    page: u32,
    limits: FormLimits,
    budget: FormWalkBudget,
    r: Result<ExtractedView, PdfFailure>,
    left: FormWalkBudget,
)
    requires
        limits.max_decompressed_size is None,
        extracts_form(
            fonts,
            doc,
            form_id,
            parent_ctm,
            inherited,
            include_invisible,
            depth,
            page,
            limits,
            budget,
            r,
            left,
        ),
    ensures
        r is Ok,
    decreases MAX_FORM_XOBJECT_DEPTH - depth,
{
    if let Some((source, operations, trace, end)) = lemma_walked(
        fonts,
        doc,
        form_id,
        parent_ctm,
        inherited,
        include_invisible,
        depth,
        page,
        limits,
        budget,
        r,
        left,
    ) {
        if let Err(failure) = end {
            let before = trace.last();
            let operation = operations[trace.len() - 1];
            let (walk, action, charged) = before.0.walk.observed(
                operation.0,
                operation.1,
                source.forms.map(),
                source.resources@,
                before.1,
            );
            if let ActionView::Invoke(number, generation) = action {
                law_unlimited_extraction_never_fails(
                    fonts,
                    doc,
                    (number, generation),
                    walk.graphics.ctm,
                    inherited_from(walk),
                    walk.include_invisible,
                    (depth + 1) as u8,
                    before.0.page,
                    limits,
                    charged,
                    Err(failure),
                    left,
                );
            }
        }
    }
}

} // verus!
