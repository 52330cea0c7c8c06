//! What the fonts of a stream say about the texts that it shows.

use crate::extractor::form_extract::{FormExtraction, FormState, PendingSpace, ShownParts, ShownText};
use crate::extractor::form_text::{
    array_state, element_views, fallback_advance, final_parts, is_space_run, read_array, sub_run_fallback, sub_run_views,
    ArrayElement, ArrayParts, ArraySetting, FontFace, PlacedRun, ShownElement, SpaceMetrics, SubRun,
};
use crate::extractor::form_walk::{advanced, has_bytes, is_text, FormWalk, WalkView};
use crate::extractor::text_paint::Matrix;
use crate::hybrid_markdown::error::PdfFailure;
use crate::pdf::{lemma_compound_node, nodes, Node, PdfObject};
use crate::single::Single;
use crate::text::{copy_text, is_blank_text, trimmed};
use crate::types::{views, ItemView, TextItem};
use vstd::prelude::*;

verus! {

broadcast use lemma_compound_node;

/// How the runs of one show operator are set.
pub struct RunSetting {
    pub face: FontFace,
    pub rendered_size: Single,
    /// The length of the shorter axis of the transformation.
    pub scale: Single,
    /// The baseline angle.
    pub angle: Single,
}

/// The fonts of content streams. A stream is named by its object, that of a
/// form or that of a page; a font by its resource name there.
pub trait FormFonts {
    /// Fails where a stream of a font of the form would decompress to more than
    /// the limit.
    fn check_limit(&self, document: &lopdf::Document, stream: (u32, u16), limit: usize) -> Result<(), PdfFailure>;

    /// What the metrics of a font say about its space, where it has metrics.
    fn space_metrics(&self, document: &lopdf::Document, stream: (u32, u16), font: &String) -> Option<SpaceMetrics>;

    /// An operand decoded and measured in the current font.
    fn read(
        &self,
        document: &lopdf::Document,
        stream: (u32, u16),
        walk: &FormWalk,
        operand: &PdfObject,
    ) -> ShownElement;

    /// The estimated advance of a decoded text.
    fn estimate(&self, document: &lopdf::Document, stream: (u32, u16), walk: &FormWalk, text: &String) -> Single;

    /// The place of a text under a transformation, from its advance or else
    /// from an estimate.
    fn place(
        &self,
        document: &lopdf::Document,
        stream: (u32, u16),
        walk: &FormWalk,
        text: &String,
        combined: &Matrix,
        advance: Option<Single>,
        estimate: Single,
    ) -> PlacedRun;

    /// The face and the size of the current font under a transformation.
    fn setting(&self, document: &lopdf::Document, stream: (u32, u16), walk: &FormWalk, combined: &Matrix) -> RunSetting;

    /// The white space that is pending once a run of it is shown behind the
    /// items of a page.
    fn note_space(
        &self,
        pending: Option<PendingSpace>,
        items: &Vec<TextItem>,
        run: &PlacedRun,
        page: u32,
    ) -> Option<PendingSpace>;

    /// Whether pending white space is the word space of the item before it,
    /// now that a text of this size follows.
    fn is_word_space(
        &self,
        pending: PendingSpace,
        items: &Vec<TextItem>,
        run: &PlacedRun,
        rendered_size: Single,
    ) -> bool;
}

/// The reply about a run of white space.
pub open spec fn note_as<F: FormFonts>(
    fonts: &F,
    pending: Option<PendingSpace>,
    items: Seq<ItemView>,
    run: PlacedRun,
    page: u32,
    reply: Option<PendingSpace>,
) -> bool {
    exists|list: Vec<TextItem>| views(list@) == items && #[trigger] call_ensures(
        F::note_space,
        (fonts, pending, &list, &run, page),
        reply,
    )
}

/// The reply about pending white space before a text.
pub open spec fn word_space_as<F: FormFonts>(
    fonts: &F,
    pending: PendingSpace,
    items: Seq<ItemView>,
    run: PlacedRun,
    rendered_size: Single,
    reply: bool,
) -> bool {
    exists|list: Vec<TextItem>| views(list@) == items && #[trigger] call_ensures(
        F::is_word_space,
        (fonts, pending, &list, &run, rendered_size),
        reply,
    )
}

/// A run of white space is noted behind the items.
pub open spec fn notes<F: FormFonts>(fonts: &F, before: FormState, run: PlacedRun, after: FormState) -> bool {
    exists|reply: Option<PendingSpace>| #[trigger]
        note_as(fonts, before.space, before.extracted.items, run, before.page, reply) && after == before.noting(reply)
}

/// The pending white space is settled before a text.
pub open spec fn settles<F: FormFonts>(
    fonts: &F,
    before: FormState,
    run: PlacedRun,
    rendered_size: Single,
    after: FormState,
) -> bool {
    match before.space {
        Some(space) => exists|taken: bool| #[trigger]
            word_space_as(fonts, space, before.extracted.items, run, rendered_size, taken) && after == before.resolved(
                taken,
            ),
        None => after == before,
    }
}

/// What a text does to the pending white space before it is shown: white
/// space is noted, and other text settles it.
pub open spec fn spaces<F: FormFonts>(
    fonts: &F,
    before: FormState,
    run: PlacedRun,
    rendered_size: Single,
    after: FormState,
) -> bool {
    if trimmed(run.text@).len() == 0 {
        notes(fonts, before, run, after)
    } else {
        settles(fonts, before, run, rendered_size, after)
    }
}

/// The fonts' reply about the space of a font.
pub open spec fn metrics_as<F: FormFonts>(
    fonts: &F,
    document: &lopdf::Document,
    stream: (u32, u16),
    font: Seq<char>,
    reply: Option<SpaceMetrics>,
) -> bool {
    exists|name: String| name@ == font && #[trigger] call_ensures(
        F::space_metrics,
        (fonts, document, stream, &name),
        reply,
    )
}

/// The fonts' reply about an operand.
pub open spec fn read_as<F: FormFonts>(
    fonts: &F,
    document: &lopdf::Document,
    stream: (u32, u16),
    walk: WalkView,
    operand: Node,
    reply: ShownElement,
) -> bool {
    exists|w: FormWalk, object: PdfObject| w@ == walk && object@ == operand && #[trigger] call_ensures(
        F::read,
        (fonts, document, stream, &w, &object),
        reply,
    )
}

/// The fonts' estimate of a text.
pub open spec fn estimate_as<F: FormFonts>(
    fonts: &F,
    document: &lopdf::Document,
    stream: (u32, u16),
    walk: WalkView,
    text: Seq<char>,
    reply: Single,
) -> bool {
    exists|w: FormWalk, string: String| w@ == walk && string@ == text && #[trigger] call_ensures(
        F::estimate,
        (fonts, document, stream, &w, &string),
        reply,
    )
}

/// The fonts' reply about the place of a text.
pub open spec fn place_as<F: FormFonts>(
    fonts: &F,
    document: &lopdf::Document,
    stream: (u32, u16),
    walk: WalkView,
    text: Seq<char>,
    combined: Matrix,
    advance: Option<Single>,
    estimate: Single,
    reply: PlacedRun,
) -> bool {
    exists|w: FormWalk, string: String| w@ == walk && string@ == text && #[trigger] call_ensures(
        F::place,
        (fonts, document, stream, &w, &string, &combined, advance, estimate),
        reply,
    )
}

/// The fonts' reply about the current font.
pub open spec fn setting_as<F: FormFonts>(
    fonts: &F,
    document: &lopdf::Document,
    stream: (u32, u16),
    walk: WalkView,
    combined: Matrix,
    reply: RunSetting,
) -> bool {
    exists|w: FormWalk| w@ == walk && #[trigger] call_ensures(
        F::setting,
        (fonts, document, stream, &w, &combined),
        reply,
    )
}

/// The text matrix at an offset along the line, with its rise, on the page.
pub open spec fn combined_at(walk: WalkView, offset: Single) -> Matrix {
    advanced(walk.text_matrix, offset, walk.graphics.horizontal_scale).spec_raised(
        walk.graphics.text_rise,
    ).spec_times(walk.graphics.ctm)
}

/// The text matrix with its rise, on the page.
pub open spec fn combined_here(walk: WalkView) -> Matrix {
    walk.text_matrix.spec_raised(walk.graphics.text_rise).spec_times(walk.graphics.ctm)
}

/// The shown text of a run.
pub open spec fn shown_text(run: PlacedRun, setting: RunSetting, combined: Matrix) -> ShownText {
    ShownText {
        run,
        face: setting.face,
        rendered_size: setting.rendered_size,
        scale: setting.scale,
        combined,
        angle: setting.angle,
    }
}

/// The width of a text in a font with metrics.
pub open spec fn measured_width(metrics: Option<SpaceMetrics>, element: ShownElement) -> Option<Single> {
    if metrics is Some {
        element.width
    } else {
        None
    }
}

/// What becomes of a text that is shown, once it is read. Hidden text only
/// moves the cursor, and text that cannot be decoded does nothing at all.
pub open spec fn shows_element<F: FormFonts>(
    fonts: &F,
    document: &lopdf::Document,
    stream: (u32, u16),
    before: FormState,
    operand: Node,
    hidden: bool,
    metrics: Option<SpaceMetrics>,
    element: ShownElement,
    after: FormState,
) -> bool {
    if hidden {
        after == before.moved(
            if metrics is Some {
                element.width
            } else {
                Some(element.estimate)
            },
        )
    } else {
        match element.decoded {
            Some((text, rewritten)) => exists|estimate: Single, run: PlacedRun, setting: RunSetting, spaced: FormState|
                {
                    &&& has_bytes(operand) ==> estimate == element.estimate
                    &&& !has_bytes(operand) ==> estimate_as(fonts, document, stream, before.walk, text@, estimate)
                    &&& #[trigger] place_as(
                        fonts,
                        document,
                        stream,
                        before.walk,
                        text@,
                        combined_here(before.walk),
                        measured_width(metrics, element),
                        estimate,
                        run,
                    )
                    &&& #[trigger] setting_as(
                        fonts,
                        document,
                        stream,
                        before.walk,
                        combined_here(before.walk),
                        setting,
                    )
                    &&& #[trigger] spaces(
                        fonts,
                        before,
                        (PlacedRun { text, legacy_symbol_rewrite: rewritten, ..run }),
                        setting.rendered_size,
                        spaced,
                    )
                    &&& after == spaced.with_shown(
                        shown_text(
                            PlacedRun { text, legacy_symbol_rewrite: rewritten, ..run },
                            setting,
                            combined_here(before.walk),
                        ),
                    ).moved(
                        Some(
                            match measured_width(metrics, element) {
                                Some(width) => width,
                                None => estimate,
                            },
                        ),
                    )
                },
            None => after == before,
        }
    }
}

/// What becomes of a text that is shown.
pub open spec fn shows<F: FormFonts>(
    fonts: &F,
    document: &lopdf::Document,
    stream: (u32, u16),
    before: FormState,
    operand: Node,
    hidden: bool,
    after: FormState,
) -> bool {
    exists|metrics: Option<SpaceMetrics>, element: ShownElement|
        {
            &&& metrics_as(fonts, document, stream, before.walk.graphics.font, metrics)
            &&& read_as(fonts, document, stream, before.walk, operand, element)
            &&& #[trigger] shows_element(
                fonts,
                document,
                stream,
                before,
                operand,
                hidden,
                metrics,
                element,
                after,
            )
        }
}

/// Shows one text in the current font.
pub fn show_text<F: FormFonts>(
    document: &lopdf::Document,
    fonts: &F,
    stream: (u32, u16),
    form: &mut FormExtraction,
    operand: &PdfObject,
    hidden: bool,
)
    requires
        old(form)@.wf(),
    ensures
        final(form)@.wf(),
        final(form)@.page == old(form)@.page,
        shows(fonts, document, stream, old(form)@, operand@, hidden, final(form)@),
{
    let ghost before = form@;
    let metrics = fonts.space_metrics(document, stream, &form.walk.graphics.font);
    let element = fonts.read(document, stream, &form.walk, operand);
    let ghost reply = element;
    assert(call_ensures(F::space_metrics, (fonts, document, stream, &form.walk.graphics.font), metrics));
    assert(call_ensures(F::read, (fonts, document, stream, &form.walk, operand), reply));
    assert(metrics_as(fonts, document, stream, before.walk.graphics.font, metrics));
    assert(read_as(fonts, document, stream, before.walk, operand@, reply));
    let width = if metrics.is_some() {
        element.width
    } else {
        None
    };
    if hidden {
        form.advance(
            if metrics.is_some() {
                width
            } else {
                Some(element.estimate)
            },
        );
    } else {
        match element.decoded {
            Some((text, rewritten)) => {
                let combined = form.walk.text_matrix.raised(form.walk.graphics.text_rise).times(
                    &form.walk.graphics.ctm,
                );
                let estimate = if is_text(operand) {
                    element.estimate
                } else {
                    let estimate = fonts.estimate(document, stream, &form.walk, &text);
                    assert(call_ensures(F::estimate, (fonts, document, stream, &form.walk, &text), estimate));
                    estimate
                };
                let run = fonts.place(document, stream, &form.walk, &text, &combined, width, estimate);
                let setting = fonts.setting(document, stream, &form.walk, &combined);
                let ghost placed = run;
                let ghost set = setting;
                assert(call_ensures(
                    F::place,
                    (fonts, document, stream, &form.walk, &text, &combined, width, estimate),
                    placed,
                ));
                assert(call_ensures(F::setting, (fonts, document, stream, &form.walk, &combined), set));
                assert(place_as(
                    fonts,
                    document,
                    stream,
                    before.walk,
                    text@,
                    combined_here(before.walk),
                    width,
                    estimate,
                    placed,
                ));
                assert(setting_as(fonts, document, stream, before.walk, combined_here(before.walk), set));
                let shown = ShownText {
                    run: PlacedRun { text, legacy_symbol_rewrite: rewritten, ..run },
                    face: setting.face,
                    rendered_size: setting.rendered_size,
                    scale: setting.scale,
                    combined,
                    angle: setting.angle,
                };
                if is_blank_text(shown.run.text.as_str()) {
                    note_run(fonts, form, &shown.run);
                } else {
                    settle_space(fonts, form, &shown.run, shown.rendered_size);
                }
                assert(spaces(fonts, before, shown.run, set.rendered_size, form@));
                form.show(&shown);
                form.advance(
                    Some(
                        match width {
                            Some(w) => w,
                            None => estimate,
                        },
                    ),
                );
            },
            None => {},
        }
    }
    assert(shows_element(fonts, document, stream, before, operand@, hidden, metrics, reply, form@));
}

/// An element of a show array, read in the current font: numbers move the pen.
pub open spec fn element_as<F: FormFonts>(
    fonts: &F,
    document: &lopdf::Document,
    stream: (u32, u16),
    walk: WalkView,
    item: Node,
    element: ArrayElement,
) -> bool {
    match item {
        Node::Integer(n) => element == ArrayElement::Adjust(Single::spec_from_integer(n)),
        Node::Real(x) => element == ArrayElement::Adjust(x),
        _ => exists|reply: ShownElement| #[trigger]
            read_as(fonts, document, stream, walk, item, reply) && element == ArrayElement::Shown(
                (ShownElement { painted: has_bytes(item), ..reply }),
            ),
    }
}

/// The elements of a show array.
pub open spec fn elements_as<F: FormFonts>(
    fonts: &F,
    document: &lopdf::Document,
    stream: (u32, u16),
    walk: WalkView,
    items: Seq<Node>,
    elements: Seq<ArrayElement>,
) -> bool {
    &&& elements.len() == items.len()
    &&& forall|i: int|
        0 <= i < items.len() ==> element_as(fonts, document, stream, walk, #[trigger] items[i], elements[i])
}

/// The parts of a show array.
pub open spec fn parts_of(elements: Seq<ArrayElement>, setting: ArraySetting, parts: ArrayParts) -> bool {
    let state = array_state(element_views(elements), setting, elements.len());
    &&& sub_run_views(parts.runs@) == final_parts(state, setting.hidden)
    &&& parts.total == state.total
    &&& parts.backward_jump == state.backward_jump
    &&& parts.space_run == if is_space_run(state, setting.hidden) {
        Some((state.start, state.estimate))
    } else {
        None
    }
}

/// The measured advance of a part.
pub open spec fn part_advance(part: SubRun, measured: bool) -> Option<Single> {
    if measured {
        Some(part.end.spec_minus(part.start))
    } else {
        None
    }
}

/// A part of a show array, placed on the page.
pub open spec fn part_placed<F: FormFonts>(
    fonts: &F,
    document: &lopdf::Document,
    stream: (u32, u16),
    walk: WalkView,
    measured: bool,
    part: SubRun,
    placed: PlacedRun,
) -> bool {
    exists|estimate: Single, run: PlacedRun|
        {
            &&& match fallback_advance(part.start, part.end, part.estimate, measured) {
                Some(advance) => estimate == advance,
                None => estimate_as(fonts, document, stream, walk, part.text@, estimate),
            }
            &&& #[trigger] place_as(
                fonts,
                document,
                stream,
                walk,
                part.text@,
                combined_at(walk, part.start),
                part_advance(part, measured),
                estimate,
                run,
            )
            &&& placed.text@ == part.text@
            &&& placed == (PlacedRun {
                text: placed.text,
                legacy_symbol_rewrite: part.legacy_symbol_rewrite,
                ..run
            })
        }
}

/// The parts of a show array, placed on the page.
pub open spec fn parts_placed<F: FormFonts>(
    fonts: &F,
    document: &lopdf::Document,
    stream: (u32, u16),
    walk: WalkView,
    measured: bool,
    parts: Seq<SubRun>,
    shown: ShownParts,
) -> bool {
    &&& shown.runs@.len() == parts.len()
    &&& forall|i: int|
        0 <= i < parts.len() ==> part_placed(
            fonts,
            document,
            stream,
            walk,
            measured,
            #[trigger] parts[i],
            shown.runs@[i],
        )
    &&& exists|setting: RunSetting|
        {
            &&& #[trigger] setting_as(
                fonts,
                document,
                stream,
                walk,
                walk.text_matrix.spec_times(walk.graphics.ctm),
                setting,
            )
            &&& shown.face == setting.face
            &&& shown.rendered_size == setting.rendered_size
            &&& shown.scale == setting.scale
            &&& shown.angle == setting.angle
        }
}

/// What becomes of a show array, once it is read: its parts are shown, and
/// the cursor moves behind it.
pub open spec fn shows_parts<F: FormFonts>(
    fonts: &F,
    document: &lopdf::Document,
    stream: (u32, u16),
    before: FormState,
    measured: bool,
    parts: ArrayParts,
    after: FormState,
) -> bool {
    if parts.runs@.len() > 0 {
        exists|shown: ShownParts, spaced: FormState|
            {
                &&& #[trigger] parts_placed(fonts, document, stream, before.walk, measured, parts.runs@, shown)
                &&& #[trigger] settles(fonts, before, shown.runs@[0], shown.rendered_size, spaced)
                &&& after == spaced.with_array(parts.backward_jump, shown).moved(Some(parts.total))
            }
    } else {
        match parts.space_run {
            Some((start, estimate)) => exists|run: PlacedRun, spaced: FormState|
                {
                    &&& #[trigger] place_as(
                        fonts,
                        document,
                        stream,
                        before.walk,
                        Seq::empty(),
                        combined_at(before.walk, start),
                        advance_between(start, parts.total, measured),
                        estimate,
                        run,
                    )
                    &&& #[trigger] notes(fonts, before, run, spaced)
                    &&& after == spaced.moved(Some(parts.total))
                },
            None => after == before.moved(Some(parts.total)),
        }
    }
}

/// The measured advance between two places.
pub open spec fn advance_between(start: Single, end: Single, measured: bool) -> Option<Single> {
    if measured {
        Some(end.spec_minus(start))
    } else {
        None
    }
}

/// Notes a run of white space.
fn note_run<F: FormFonts>(fonts: &F, form: &mut FormExtraction, run: &PlacedRun)
    requires
        old(form)@.wf(),
    ensures
        final(form)@.wf(),
        notes(fonts, old(form)@, *run, final(form)@),
{
    let reply = fonts.note_space(form.space, &form.extracted.items, run, form.page);
    assert(call_ensures(
        F::note_space,
        (fonts, form.space, &form.extracted.items, run, form.page),
        reply,
    ));
    assert(note_as(fonts, form@.space, form@.extracted.items, *run, form@.page, reply));
    form.note(reply);
}

/// Settles the pending white space before a text.
fn settle_space<F: FormFonts>(fonts: &F, form: &mut FormExtraction, run: &PlacedRun, rendered_size: Single)
    requires
        old(form)@.wf(),
    ensures
        final(form)@.wf(),
        settles(fonts, old(form)@, *run, rendered_size, final(form)@),
{
    if let Some(space) = form.space {
        let taken = fonts.is_word_space(space, &form.extracted.items, run, rendered_size);
        assert(call_ensures(
            F::is_word_space,
            (fonts, space, &form.extracted.items, run, rendered_size),
            taken,
        ));
        assert(word_space_as(fonts, space, form@.extracted.items, *run, rendered_size, taken));
        form.resolve(taken);
    }
}

/// What becomes of a show array.
pub open spec fn shows_array<F: FormFonts>(
    fonts: &F,
    document: &lopdf::Document,
    stream: (u32, u16),
    before: FormState,
    items: Seq<Node>,
    hidden: bool,
    after: FormState,
) -> bool {
    exists|metrics: Option<SpaceMetrics>, elements: Seq<ArrayElement>, parts: ArrayParts|
        {
            &&& metrics_as(fonts, document, stream, before.walk.graphics.font, metrics)
            &&& elements_as(fonts, document, stream, before.walk, items, elements)
            &&& #[trigger] parts_of(
                elements,
                (ArraySetting { font_size: before.walk.graphics.font_size, metrics, hidden }),
                parts,
            )
            &&& #[trigger] shows_parts(fonts, document, stream, before, metrics is Some, parts, after)
        }
}

fn read_elements<F: FormFonts>(
    document: &lopdf::Document,
    fonts: &F,
    stream: (u32, u16),
    walk: &FormWalk,
    items: &Vec<PdfObject>,
) -> (r: Vec<ArrayElement>)
    ensures
        elements_as(fonts, document, stream, walk@, nodes(items@), r@),
{
    let ghost model = nodes(items@);
    let mut elements: Vec<ArrayElement> = Vec::new();
    let mut i: usize = 0;
    while i < items.len()
        invariant
            i <= items@.len(),
            model == nodes(items@),
            elements@.len() == i,
            forall|k: int|
                0 <= k < i ==> element_as(fonts, document, stream, walk@, #[trigger] model[k], elements@[k]),
        decreases items@.len() - i,
    {
        let item = &items[i];
        assert(model[i as int] == item@);
        let element = match item {
            PdfObject::Integer(n) => ArrayElement::Adjust(Single::from_integer(*n)),
            PdfObject::Real(x) => ArrayElement::Adjust(*x),
            _ => {
                let reply = fonts.read(document, stream, walk, item);
                let ghost said = reply;
                assert(call_ensures(F::read, (fonts, document, stream, walk, item), said));
                assert(read_as(fonts, document, stream, walk@, item@, said));
                ArrayElement::Shown(ShownElement { painted: is_text(item), ..reply })
            },
        };
        assert(element_as(fonts, document, stream, walk@, item@, element));
        let ghost before = elements@;
        elements.push(element);
        assert forall|k: int| 0 <= k < i + 1 implies element_as(
            fonts,
            document,
            stream,
            walk@,
            #[trigger] model[k],
            elements@[k],
        ) by {
            if k < i {
                assert(elements@[k] == before[k]);
            }
        }
        i += 1;
    }
    elements
}

fn place_part<F: FormFonts>(
    document: &lopdf::Document,
    fonts: &F,
    stream: (u32, u16),
    walk: &FormWalk,
    measured: bool,
    part: &SubRun,
) -> (r: PlacedRun)
    ensures
        part_placed(fonts, document, stream, walk@, measured, *part, r),
{
    let estimate = match sub_run_fallback(part, measured) {
        Some(advance) => advance,
        None => {
            let estimate = fonts.estimate(document, stream, walk, &part.text);
            assert(call_ensures(F::estimate, (fonts, document, stream, walk, &part.text), estimate));
            estimate
        },
    };
    let combined = walk.text_matrix_at(part.start).raised(walk.graphics.text_rise).times(&walk.graphics.ctm);
    let advance = if measured {
        Some(part.end.minus(part.start))
    } else {
        None
    };
    let run = fonts.place(document, stream, walk, &part.text, &combined, advance, estimate);
    let ghost placed = run;
    assert(call_ensures(
        F::place,
        (fonts, document, stream, walk, &part.text, &combined, advance, estimate),
        placed,
    ));
    assert(place_as(
        fonts,
        document,
        stream,
        walk@,
        part.text@,
        combined_at(walk@, part.start),
        advance,
        estimate,
        placed,
    ));
    PlacedRun {
        text: copy_text(&part.text),
        legacy_symbol_rewrite: part.legacy_symbol_rewrite,
        ..run
    }
}

/// Shows the texts of an array in the current font.
pub fn show_items<F: FormFonts>(
    document: &lopdf::Document,
    fonts: &F,
    stream: (u32, u16),
    form: &mut FormExtraction,
    items: &Vec<PdfObject>,
    hidden: bool,
)
    requires
        old(form)@.wf(),
    ensures
        final(form)@.wf(),
        final(form)@.page == old(form)@.page,
        shows_array(fonts, document, stream, old(form)@, nodes(items@), hidden, final(form)@),
{
    let ghost before = form@;
    let metrics = fonts.space_metrics(document, stream, &form.walk.graphics.font);
    assert(call_ensures(F::space_metrics, (fonts, document, stream, &form.walk.graphics.font), metrics));
    assert(metrics_as(fonts, document, stream, before.walk.graphics.font, metrics));
    let measured = metrics.is_some();
    let elements = read_elements(document, fonts, stream, &form.walk, items);
    let setting = ArraySetting { font_size: form.walk.graphics.font_size, metrics, hidden };
    let parts = read_array(&elements, &setting);
    assert(parts_of(elements@, setting, parts));
    if parts.runs.len() > 0 {
        let mut runs: Vec<PlacedRun> = Vec::new();
        let mut i: usize = 0;
        while i < parts.runs.len()
            invariant
                i <= parts.runs@.len(),
                form@ == before,
                runs@.len() == i,
                forall|k: int|
                    0 <= k < i ==> part_placed(
                        fonts,
                        document,
                        stream,
                        before.walk,
                        measured,
                        #[trigger] parts.runs@[k],
                        runs@[k],
                    ),
            decreases parts.runs@.len() - i,
        {
            let ghost earlier = runs@;
            let run = place_part(document, fonts, stream, &form.walk, measured, &parts.runs[i]);
            runs.push(run);
            assert forall|k: int| 0 <= k < i + 1 implies part_placed(
                fonts,
                document,
                stream,
                before.walk,
                measured,
                #[trigger] parts.runs@[k],
                runs@[k],
            ) by {
                if k < i {
                    assert(runs@[k] == earlier[k]);
                }
            }
            i += 1;
        }
        let combined = form.walk.text_matrix.times(&form.walk.graphics.ctm);
        let set = fonts.setting(document, stream, &form.walk, &combined);
        let ghost said = set;
        assert(call_ensures(F::setting, (fonts, document, stream, &form.walk, &combined), said));
        assert(setting_as(
            fonts,
            document,
            stream,
            before.walk,
            before.walk.text_matrix.spec_times(before.walk.graphics.ctm),
            said,
        ));
        let shown = ShownParts {
            runs,
            face: set.face,
            rendered_size: set.rendered_size,
            scale: set.scale,
            angle: set.angle,
        };
        assert(parts_placed(fonts, document, stream, before.walk, measured, parts.runs@, shown));
        settle_space(fonts, form, &shown.runs[0], shown.rendered_size);
        assert(settles(fonts, before, shown.runs@[0], shown.rendered_size, form@));
        form.show_array(parts.backward_jump, &shown);
    } else if let Some((start, estimate)) = parts.space_run {
        let combined = form.walk.text_matrix_at(start).raised(form.walk.graphics.text_rise).times(
            &form.walk.graphics.ctm,
        );
        let advance = if measured {
            Some(parts.total.minus(start))
        } else {
            None
        };
        let blank = String::new();
        let run = fonts.place(document, stream, &form.walk, &blank, &combined, advance, estimate);
        let ghost placed = run;
        assert(call_ensures(
            F::place,
            (fonts, document, stream, &form.walk, &blank, &combined, advance, estimate),
            placed,
        ));
        assert(blank@ =~= Seq::empty());
        assert(place_as(
            fonts,
            document,
            stream,
            before.walk,
            Seq::empty(),
            combined_at(before.walk, start),
            advance_between(start, parts.total, measured),
            estimate,
            placed,
        ));
        note_run(fonts, form, &run);
        assert(notes(fonts, before, placed, form@));
    }
    form.advance(Some(parts.total));
    assert(shows_parts(fonts, document, stream, before, measured, parts, form@));
}

} // verus!
