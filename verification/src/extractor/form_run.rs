//! The text of a form, from its object in the document.

use crate::extractor::form_extract::{all_on_page, inherited_from, open_form, FormExtraction, FormSource, FormState};
use crate::extractor::form_fonts::{show_items, show_text, shows, shows_array, FormFonts};
use crate::extractor::form_text::{ExtractedText, ExtractedView, ImageBox};
use crate::extractor::form_walk::{law_walk_keeps_its_frame, ActionView, FormAction, Inherited};
use crate::extractor::text_paint::Matrix;
use crate::extractor::xobjects::{FormWalkBudget, MAX_FORM_XOBJECT_DEPTH};
use crate::hybrid_markdown::error::PdfFailure;
use crate::numbers::{decimal, push_decimal};
use crate::pdf::{document_objects, lemma_compound_node, looked_up, nodes, object_of, Node, PdfObject};
use crate::single::Single;
use crate::text::{characters, push_text, text_of};
use vstd::prelude::*;

verus! {

broadcast use lemma_compound_node;

/// One operator of a content stream.
pub struct FormOperation {
    pub operator: String,
    pub operands: Vec<PdfObject>,
}

/// What operations are: an operator and its operands each.
pub open spec fn operation_views(operations: Seq<FormOperation>) -> Seq<(Seq<char>, Seq<Node>)> {
    Seq::new(operations.len(), |i: int| (operations[i].operator@, nodes(operations[i].operands@)))
}

/// The operations that the bytes of a content stream hold, or `None` where
/// they are no content stream.
pub uninterp spec fn decoded_operations(bytes: Seq<u8>) -> Option<Seq<(Seq<char>, Seq<Node>)>>;

/// The bytes of a stream of a document with its filters undone, or `None` where
/// there is no such stream or its filters fail.
pub uninterp spec fn decompressed_content(doc: lopdf::Document, id: (u32, u16)) -> Option<Seq<u8>>;

/// The bytes of a stream of a document with its filters undone within a size,
/// or else whether they went beyond it.
pub uninterp spec fn decompressed_within(doc: lopdf::Document, id: (u32, u16), max: usize) -> Result<Seq<u8>, bool>;

/// The bytes of a stream of a document as they are stored.
pub uninterp spec fn stored_content(doc: lopdf::Document, id: (u32, u16)) -> Option<Seq<u8>>;

/// `lopdf::content::Content::decode`: the operations of a content stream, each
/// taken over with its operands one for one. What the bytes mean is the syntax
/// of content streams, and is left unstated.
#[verifier::external_body]
pub(crate) fn decode_operations(bytes: &Vec<u8>) -> (r: Option<Vec<FormOperation>>)
    ensures
        match r {
            Some(operations) => decoded_operations(bytes@) == Some(operation_views(operations@)),
            None => decoded_operations(bytes@) is None,
        },
{
    let content = lopdf::content::Content::decode(bytes).ok()?;
    Some(content.operations.into_iter().map(|operation| FormOperation {
        operands: operation.operands.iter().map(object_of).collect(),
        operator: operation.operator,
    }).collect())
}

/// `lopdf::Stream::decompressed_content` of the stream with this identifier.
/// What the filters make of the stored bytes is left unstated.
#[verifier::external_body]
fn decompress(doc: &lopdf::Document, id: (u32, u16)) -> (r: Option<Vec<u8>>)
    ensures
        match r {
            Some(bytes) => decompressed_content(*doc, id) == Some(bytes@),
            None => decompressed_content(*doc, id) is None,
        },
{
    doc.get_object(id).ok()?.as_stream().ok()?.decompressed_content().ok()
}

/// `lopdf::Stream::decompressed_content_with_limit` of the stream with this
/// identifier: its bytes are no more than the limit, and the error tells
/// whether it was passed. What the filters make of the stored bytes is left
/// unstated.
#[verifier::external_body]
fn decompress_within(doc: &lopdf::Document, id: (u32, u16), max: usize) -> (r: Result<Vec<u8>, bool>)
    ensures
        match r {
            Ok(bytes) => decompressed_within(*doc, id, max) == Ok::<Seq<u8>, bool>(bytes@) && bytes@.len() <= max,
            Err(passed) => decompressed_within(*doc, id, max) == Err::<Seq<u8>, bool>(passed),
        },
{
    let stream = doc.get_object(id).and_then(lopdf::Object::as_stream);
    match stream.and_then(|stream| stream.decompressed_content_with_limit(max)) {
        Ok(bytes) => Ok(bytes),
        Err(lopdf::Error::Decompress(lopdf::DecompressError::MemoryLimitExceeded { .. })) => Err(true),
        Err(_) => Err(false),
    }
}

/// The content of the `lopdf::Stream` with this identifier, as it is stored.
/// There is one exactly where the identifier leads to a stream.
#[verifier::external_body]
fn stored_bytes(doc: &lopdf::Document, id: (u32, u16)) -> (r: Option<Vec<u8>>)
    ensures
        r is Some <==> looked_up(document_objects(*doc), id) matches Some(Node::Stream(_)),
        match r {
            Some(bytes) => stored_content(*doc, id) == Some(bytes@),
            None => stored_content(*doc, id) is None,
        },
{
    Some(doc.get_object(id).ok()?.as_stream().ok()?.content.clone())
}

/// How far the content of forms is followed.
#[derive(Clone, Copy, Debug, PartialEq, Eq, Structural)]
pub struct FormLimits {
    /// The most bytes that a stream may decompress to.
    pub max_decompressed_size: Option<usize>,
    /// The most operators that a stream may hold.
    pub max_operations: usize,
}

/// The bytes of the form with this identifier: decompressed within the limit,
/// or as they are stored where the filters fail. `None` where they go beyond
/// the limit.
pub open spec fn form_bytes(doc: lopdf::Document, id: (u32, u16), limit: Option<usize>) -> Option<Option<Seq<u8>>> {
    match limit {
        Some(max) => match decompressed_within(doc, id, max) {
            Ok(bytes) => Some(Some(bytes)),
            Err(passed) => if passed {
                None
            } else {
                Some(stored_content(doc, id))
            },
        },
        None => match decompressed_content(doc, id) {
            Some(bytes) => Some(Some(bytes)),
            None => Some(stored_content(doc, id)),
        },
    }
}

/// The failure of a stream that goes beyond the limit.
pub open spec fn passes_limit(failure: PdfFailure, limit: Option<usize>) -> bool {
    &&& failure.is_decompression_limit
    &&& limit matches Some(max) && failure.message@ == "decompressed output exceeded the "@ + decimal(max as nat)
        + "-byte limit"@
}

fn limit_failure(max: usize) -> (r: PdfFailure)
    ensures
        passes_limit(r, Some(max)),
{
    let mut message = characters("decompressed output exceeded the ");
    push_decimal(&mut message, max as u128);
    push_text(&mut message, "-byte limit");
    PdfFailure { message: text_of(&message), is_decompression_limit: true }
}

/// The operations of a form, or `None` where it gives none: the bytes are
/// missing, are no content stream or hold too many.
pub open spec fn bounded_operations(bytes: Option<Seq<u8>>, max: usize) -> Option<Seq<(Seq<char>, Seq<Node>)>> {
    match bytes {
        Some(bytes) => match decoded_operations(bytes) {
            Some(operations) => if operations.len() <= max {
                Some(operations)
            } else {
                None
            },
            None => None,
        },
        None => None,
    }
}

/// Reads the bytes of a form.
fn read_bytes(doc: &lopdf::Document, id: (u32, u16), limit: Option<usize>) -> (r: Result<Option<Vec<u8>>, PdfFailure>)
    ensures
        match r {
            Ok(Some(bytes)) => form_bytes(*doc, id, limit) == Some(Some(bytes@)),
            Ok(None) => form_bytes(*doc, id, limit) == Some(None::<Seq<u8>>),
            Err(failure) => form_bytes(*doc, id, limit) is None && passes_limit(failure, limit),
        },
{
    match limit {
        Some(max) => match decompress_within(doc, id, max) {
            Ok(bytes) => Ok(Some(bytes)),
            Err(passed) => if passed {
                Err(limit_failure(max))
            } else {
                Ok(stored_bytes(doc, id))
            },
        },
        None => match decompress(doc, id) {
            Some(bytes) => Ok(Some(bytes)),
            None => Ok(stored_bytes(doc, id)),
        },
    }
}

/// The operations of a stream, given its bytes.
pub open spec fn operations_within(bytes: Option<Option<Seq<u8>>>, max: usize) -> Option<Seq<(Seq<char>, Seq<Node>)>> {
    match bytes {
        Some(bytes) => bounded_operations(bytes, max),
        None => None,
    }
}

/// Reads the operations of a stream. There are none where the identifier leads
/// to no stream, or the stream cannot be decoded or holds too many.
pub fn read_operations(doc: &lopdf::Document, id: (u32, u16), limits: FormLimits) -> (r: Result<
    Option<Vec<FormOperation>>,
    PdfFailure,
>)
    ensures
        ({
            let bytes = form_bytes(*doc, id, limits.max_decompressed_size);
            match r {
                Ok(Some(operations)) => bytes is Some && operations_within(bytes, limits.max_operations) == Some(
                    operation_views(operations@),
                ),
                Ok(None) => bytes is Some && operations_within(bytes, limits.max_operations) is None,
                Err(failure) => bytes is None && passes_limit(failure, limits.max_decompressed_size),
            }
        }),
{
    let bytes = match read_bytes(doc, id, limits.max_decompressed_size) {
        Ok(Some(bytes)) => bytes,
        Ok(None) => {
            return Ok(None);
        },
        Err(failure) => {
            return Err(failure);
        },
    };
    match decode_operations(&bytes) {
        Some(operations) => if operations.len() <= limits.max_operations {
            Ok(Some(operations))
        } else {
            Ok(None)
        },
        None => Ok(None),
    }
}

/// The least of the corners of a unit length along two axes.
pub open spec fn low_corner(across: Single, up: Single, origin: Single) -> Single {
    origin.spec_min(across.spec_plus(origin)).spec_min(up.spec_plus(origin)).spec_min(
        across.spec_plus(up).spec_plus(origin),
    )
}

/// The largest of the corners of a unit length along two axes.
pub open spec fn high_corner(across: Single, up: Single, origin: Single) -> Single {
    origin.spec_max(across.spec_plus(origin)).spec_max(up.spec_plus(origin)).spec_max(
        across.spec_plus(up).spec_plus(origin),
    )
}

/// The bounding box of the unit square, in which an image is painted.
pub open spec fn unit_box(ctm: Matrix) -> ImageBox {
    ImageBox {
        x: low_corner(ctm.a, ctm.c, ctm.e),
        y: low_corner(ctm.b, ctm.d, ctm.f),
        width: high_corner(ctm.a, ctm.c, ctm.e).spec_minus(low_corner(ctm.a, ctm.c, ctm.e)),
        height: high_corner(ctm.b, ctm.d, ctm.f).spec_minus(low_corner(ctm.b, ctm.d, ctm.f)),
    }
}

fn find_corners(across: Single, up: Single, origin: Single) -> (r: (Single, Single))
    ensures
        r == (low_corner(across, up, origin), high_corner(across, up, origin)),
{
    let first = across.plus(origin);
    let second = up.plus(origin);
    let third = across.plus(up).plus(origin);
    (origin.min(first).min(second).min(third), origin.max(first).max(second).max(third))
}

/// The box of an image on the page.
pub fn image_bbox_from_ctm(ctm: &Matrix) -> (r: ImageBox)
    ensures
        r == unit_box(*ctm),
{
    let (left, right) = find_corners(ctm.a, ctm.c, ctm.e);
    let (bottom, top) = find_corners(ctm.b, ctm.d, ctm.f);
    ImageBox { x: left, y: bottom, width: right.minus(left), height: top.minus(bottom) }
}

/// What one operator of a stream does, nested forms and the budget included.
pub open spec fn stepped<F: FormFonts>(
    fonts: &F,
    doc: &lopdf::Document,
    stream: (u32, u16),
    source: FormSource,
    limits: FormLimits,
    depth: u8,
    operation: (Seq<char>, Seq<Node>),
    before: (FormState, FormWalkBudget),
    after: (FormState, FormWalkBudget),
) -> bool
    decreases MAX_FORM_XOBJECT_DEPTH - depth, 0int,
{
    let (walk, action, charged) = before.0.walk.observed(
        operation.0,
        operation.1,
        source.forms.map(),
        source.resources@,
        before.1,
    );
    let seen = before.0.walked(walk);
    match action {
        ActionView::Stop => after == (seen, charged),
        ActionView::Nothing => after == (seen, charged),
        ActionView::Concat(change) => after == (
            seen.transformed(change.spec_times(walk.graphics.ctm)),
            charged,
        ),
        ActionView::Invoke(number, generation) => depth < MAX_FORM_XOBJECT_DEPTH && exists|inner: ExtractedView|
            {
                &&& extracts_form(
                    fonts,
                    doc,
                    (number, generation),
                    walk.graphics.ctm,
                    inherited_from(walk),
                    walk.include_invisible,
                    (depth + 1) as u8,
                    before.0.page,
                    limits,
                    charged,
                    Ok(inner),
                    after.1,
                )
                &&& after.0 == #[trigger] seen.with_nested(inner)
            },
        ActionView::Image(name) => after == (seen.with_image(name, unit_box(walk.graphics.ctm)), charged),
        ActionView::Show { hidden } => after.1 == charged && shows(
            fonts,
            doc,
            stream,
            seen,
            operation.1.last(),
            hidden,
            after.0,
        ),
        ActionView::ShowArray { hidden } => after.1 == charged && (operation.1[0] matches Node::Array(items)
            && shows_array(fonts, doc, stream, seen, items, hidden, after.0)),
    }
}

/// An operator invokes a form that fails.
pub open spec fn fails<F: FormFonts>(
    fonts: &F,
    doc: &lopdf::Document,
    source: FormSource,
    limits: FormLimits,
    depth: u8,
    operation: (Seq<char>, Seq<Node>),
    before: (FormState, FormWalkBudget),
    failure: PdfFailure,
    left: FormWalkBudget,
) -> bool
    decreases MAX_FORM_XOBJECT_DEPTH - depth, 0int,
{
    let (walk, action, charged) = before.0.walk.observed(
        operation.0,
        operation.1,
        source.forms.map(),
        source.resources@,
        before.1,
    );
    match action {
        ActionView::Invoke(number, generation) => depth < MAX_FORM_XOBJECT_DEPTH && extracts_form(
            fonts,
            doc,
            (number, generation),
            walk.graphics.ctm,
            inherited_from(walk),
            walk.include_invisible,
            (depth + 1) as u8,
            before.0.page,
            limits,
            charged,
            Err(failure),
            left,
        ),
        _ => false,
    }
}

/// The states between the operators of a stream, from the first to the last.
pub open spec fn traces<F: FormFonts>(
    fonts: &F,
    doc: &lopdf::Document,
    stream: (u32, u16),
    source: FormSource,
    limits: FormLimits,
    depth: u8,
    operations: Seq<(Seq<char>, Seq<Node>)>,
    trace: Seq<(FormState, FormWalkBudget)>,
) -> bool
    decreases MAX_FORM_XOBJECT_DEPTH - depth, 1int,
{
    &&& trace.len() == operations.len() + 1
    &&& forall|k: int|
        0 <= k < operations.len() ==> stepped(
            fonts,
            doc,
            stream,
            source,
            limits,
            depth,
            #[trigger] operations[k],
            trace[k],
            trace[k + 1],
        )
}

/// The budget after a form was charged to it.
pub open spec fn invoked(budget: FormWalkBudget) -> FormWalkBudget {
    if budget.spent() {
        FormWalkBudget { truncated: true, ..budget }
    } else {
        FormWalkBudget { invocations: (budget.invocations + 1) as usize, ..budget }
    }
}

/// The fonts' reply about the limit on their own streams. Without a limit they
/// are not asked.
pub open spec fn fonts_fit<F: FormFonts>(
    fonts: &F,
    doc: &lopdf::Document,
    form_id: (u32, u16),
    limit: Option<usize>,
    reply: Result<(), PdfFailure>,
) -> bool {
    match limit {
        Some(max) => call_ensures(F::check_limit, (fonts, doc, form_id, max), reply),
        None => reply == Ok::<(), PdfFailure>(()),
    }
}

/// The walk through a form ends behind its last operator, or with the failure
/// of a nested form.
pub open spec fn ends<F: FormFonts>(
    fonts: &F,
    doc: &lopdf::Document,
    stream: (u32, u16),
    source: FormSource,
    limits: FormLimits,
    depth: u8,
    operations: Seq<(Seq<char>, Seq<Node>)>,
    trace: Seq<(FormState, FormWalkBudget)>,
    r: Result<FormState, PdfFailure>,
    left: FormWalkBudget,
) -> bool
    decreases MAX_FORM_XOBJECT_DEPTH - depth, 2int,
{
    match r {
        Ok(state) => traces(fonts, doc, stream, source, limits, depth, operations, trace) && trace.last() == (
            state,
            left,
        ),
        Err(failure) => 1 <= trace.len() <= operations.len() && traces(
            fonts,
            doc,
            stream,
            source,
            limits,
            depth,
            operations.take(trace.len() - 1),
            trace,
        ) && fails(
            fonts,
            doc,
            source,
            limits,
            depth,
            operations[trace.len() - 1],
            trace.last(),
            failure,
            left,
        ),
    }
}

/// What a walk gives once it is over.
pub open spec fn outcome(r: Result<FormState, PdfFailure>) -> Result<ExtractedView, PdfFailure> {
    match r {
        Ok(state) => Ok(state.result()),
        Err(failure) => Err(failure),
    }
}

/// What is extracted from a form with nested forms, and what is left of the
/// budget: the form is charged first and then each of its operators in turn.
/// A form that cannot be paid or read gives nothing, and one that goes beyond
/// the size limit fails.
pub open spec fn extracts_form<F: FormFonts>(
    fonts: &F,
    doc: &lopdf::Document,
    form_id: (u32, u16),
    parent_ctm: Matrix,
    inherited: Inherited,
    include_invisible: bool,
    depth: u8,
    page: u32,
    limits: FormLimits,
    budget: FormWalkBudget,
    r: Result<ExtractedView, PdfFailure>,
    left: FormWalkBudget,
) -> bool
    decreases MAX_FORM_XOBJECT_DEPTH - depth, 3int,
{
    let nothing = r == Ok::<ExtractedView, PdfFailure>(ExtractedView::nothing()) && left == invoked(budget);
    let bytes = form_bytes(*doc, form_id, limits.max_decompressed_size);
    match looked_up(document_objects(*doc), form_id) {
        Some(Node::Stream(form)) => if budget.spent() {
            nothing
        } else if bytes is None {
            r matches Err(failure) && passes_limit(failure, limits.max_decompressed_size) && left == invoked(budget)
        } else {
            match operations_within(bytes, limits.max_operations) {
                Some(operations) => exists|fit: Result<(), PdfFailure>|
                    {
                        &&& #[trigger] fonts_fit(fonts, doc, form_id, limits.max_decompressed_size, fit)
                        &&& match fit {
                            Err(failure) => r == Err::<ExtractedView, PdfFailure>(failure) && left == invoked(budget),
                            Ok(_) => exists|
                                source: FormSource,
                                trace: Seq<(FormState, FormWalkBudget)>,
                                end: Result<FormState, PdfFailure>,
                            |
                                {
                                    &&& #[trigger] source.describes(document_objects(*doc), form)
                                    &&& (#[trigger] trace[0]) == (
                                        FormState::start(
                                            source.matrix.spec_times(parent_ctm),
                                            inherited,
                                            include_invisible,
                                            depth,
                                            page,
                                        ),
                                        invoked(budget),
                                    )
                                    &&& ends(
                                        fonts,
                                        doc,
                                        form_id,
                                        source,
                                        limits,
                                        depth,
                                        operations,
                                        trace,
                                        end,
                                        left,
                                    )
                                    &&& r == #[trigger] outcome(end)
                                },
                        }
                    },
                None => nothing,
            }
        },
        _ => nothing,
    }
}

/// Follows one operator of a stream.
fn follow_one<F: FormFonts>(
    doc: &lopdf::Document,
    fonts: &F,
    stream: (u32, u16),
    source: &FormSource,
    limits: FormLimits,
    operation: &FormOperation,
    depth: u8,
    form: &mut FormExtraction,
    budget: &mut FormWalkBudget,
) -> (r: Result<(), PdfFailure>)
    requires
        old(form)@.wf(),
        old(form)@.walk.depth == depth,
        source.forms.wf(),
        source.resources.wf(),
    ensures
        final(form)@.wf(),
        final(form)@.walk.depth == depth,
        final(form)@.page == old(form)@.page,
        match r {
            Ok(_) => stepped(
                fonts,
                doc,
                stream,
                *source,
                limits,
                depth,
                (operation.operator@, nodes(operation.operands@)),
                (old(form)@, *old(budget)),
                (final(form)@, *final(budget)),
            ),
            Err(failure) => fails(
                fonts,
                doc,
                *source,
                limits,
                depth,
                (operation.operator@, nodes(operation.operands@)),
                (old(form)@, *old(budget)),
                failure,
                *final(budget),
            ),
        },
    decreases MAX_FORM_XOBJECT_DEPTH - depth, 0int,
{
    let ghost start = form@;
    let ghost operands = nodes(operation.operands@);
    let action = form.observe(operation.operator.as_str(), &operation.operands, source, budget);
    let ghost seen = form@;
    proof {
        law_walk_keeps_its_frame(start.walk, operation.operator@, operands, source.resources@);
    }
    match action {
        FormAction::Stop => {},
        FormAction::Nothing => {},
        FormAction::Concat(change) => {
            let product = change.times(&form.walk.graphics.ctm);
            form.concatenated(product);
        },
        FormAction::Invoke(number, generation) => {
            let ctm = form.walk.graphics.ctm;
            let include_invisible = form.walk.include_invisible;
            let page = form.page;
            let inherited = form.inherited();
            match extract_form_xobject_text_inner(
                doc,
                fonts,
                (number, generation),
                ctm,
                inherited,
                include_invisible,
                depth + 1,
                page,
                limits,
                budget,
            ) {
                Ok(inner) => {
                    form.nested(inner);
                },
                Err(failure) => {
                    return Err(failure);
                },
            }
        },
        FormAction::Image(name) => {
            let place = image_bbox_from_ctm(&form.walk.graphics.ctm);
            form.image(name.as_str(), &place);
        },
        FormAction::Show { hidden } => {
            let count: usize = operation.operands.len();
            assert(operands.last() == operation.operands@[count - 1]@);
            show_text(doc, fonts, stream, form, &operation.operands[count - 1], hidden);
        },
        FormAction::ShowArray { hidden } => {
            assert(operands[0] == operation.operands@[0]@);
            if let PdfObject::Array(items) = &operation.operands[0] {
                show_items(doc, fonts, stream, form, items, hidden);
            }
        },
    }
    Ok(())
}

/// What a walk left behind.
spec fn walk_end(r: Result<(), PdfFailure>, state: FormState) -> Result<FormState, PdfFailure> {
    match r {
        Ok(_) => Ok(state),
        Err(failure) => Err(failure),
    }
}

/// Follows the operators of a form from a state on.
fn follow_operations<F: FormFonts>(
    doc: &lopdf::Document,
    fonts: &F,
    stream: (u32, u16),
    source: &FormSource,
    limits: FormLimits,
    operations: &Vec<FormOperation>,
    depth: u8,
    form: &mut FormExtraction,
    budget: &mut FormWalkBudget,
) -> (r: Result<(), PdfFailure>)
    requires
        old(form)@.wf(),
        old(form)@.walk.depth == depth,
        source.forms.wf(),
        source.resources.wf(),
    ensures
        final(form)@.wf(),
        final(form)@.page == old(form)@.page,
        exists|trace: Seq<(FormState, FormWalkBudget)>|
            {
                &&& #[trigger] ends(
                    fonts,
                    doc,
                    stream,
                    *source,
                    limits,
                    depth,
                    operation_views(operations@),
                    trace,
                    walk_end(r, final(form)@),
                    *final(budget),
                )
                &&& trace[0] == (old(form)@, *old(budget))
            },
    decreases MAX_FORM_XOBJECT_DEPTH - depth, 1int,
{
    let ghost model = operation_views(operations@);
    let ghost mut trace: Seq<(FormState, FormWalkBudget)> = seq![(form@, *budget)];
    let mut i: usize = 0;
    while i < operations.len()
        invariant
            i <= operations@.len(),
            model == operation_views(operations@),
            source.forms.wf(),
            source.resources.wf(),
            form@.wf(),
            form@.walk.depth == depth,
            form@.page == old(form)@.page,
            trace.len() == i + 1,
            trace[0] == (old(form)@, *old(budget)),
            trace.last() == (form@, *budget),
            forall|k: int|
                0 <= k < i ==> stepped(
                    fonts,
                    doc,
                    stream,
                    *source,
                    limits,
                    depth,
                    #[trigger] model[k],
                    trace[k],
                    trace[k + 1],
                ),
        decreases operations@.len() - i,
    {
        let ghost earlier = trace;
        match follow_one(doc, fonts, stream, source, limits, &operations[i], depth, form, budget) {
            Ok(_) => {},
            Err(failure) => {
                proof {
                    let short = model.take(i as int);
                    assert forall|k: int| 0 <= k < short.len() implies stepped(
                        fonts,
                        doc,
                        stream,
                        *source,
                        limits,
                        depth,
                        #[trigger] short[k],
                        trace[k],
                        trace[k + 1],
                    ) by {
                        assert(short[k] == model[k]);
                    }
                    assert(traces(fonts, doc, stream, *source, limits, depth, short, trace));
                    let end = Err::<FormState, PdfFailure>(failure);
                    assert(ends(fonts, doc, stream, *source, limits, depth, model, trace, end, *budget));
                }
                return Err(failure);
            },
        }
        proof {
            trace = trace.push((form@, *budget));
            assert forall|k: int| 0 <= k < i + 1 implies stepped(
                fonts,
                doc,
                stream,
                *source,
                limits,
                depth,
                #[trigger] model[k],
                trace[k],
                trace[k + 1],
            ) by {
                assert(trace[k] == earlier[k]);
                if k < i {
                    assert(trace[k + 1] == earlier[k + 1]);
                }
            }
        }
        i += 1;
    }
    assert(traces(fonts, doc, stream, *source, limits, depth, model, trace));
    let ghost end = Ok::<FormState, PdfFailure>(form@);
    assert(ends(fonts, doc, stream, *source, limits, depth, model, trace, end, *budget));
    Ok(())
}

/// What an extraction is.
pub open spec fn extraction_view(r: Result<ExtractedText, PdfFailure>) -> Result<ExtractedView, PdfFailure> {
    match r {
        Ok(extracted) => Ok(extracted@),
        Err(failure) => Err(failure),
    }
}

/// Extracts the text of a form that is nested `depth` deep, and of the forms
/// nested in it.
fn extract_form_xobject_text_inner<F: FormFonts>(
    doc: &lopdf::Document,
    fonts: &F,
    form_id: (u32, u16),
    parent_ctm: Matrix,
    inherited: Inherited,
    include_invisible: bool,
    depth: u8,
    page: u32,
    limits: FormLimits,
    budget: &mut FormWalkBudget,
) -> (r: Result<ExtractedText, PdfFailure>)
    ensures
        r matches Ok(extracted) ==> extracted@.wf() && all_on_page(extracted@, page),
        extracts_form(
            fonts,
            doc,
            form_id,
            parent_ctm,
            inherited,
            include_invisible,
            depth,
            page,
            limits,
            *old(budget),
            extraction_view(r),
            *final(budget),
        ),
    decreases MAX_FORM_XOBJECT_DEPTH - depth, 2int,
{
    let source = match open_form(doc, form_id, budget) {
        Some(source) => source,
        None => {
            return Ok(ExtractedText::new());
        },
    };
    let operations = match read_operations(doc, form_id, limits) {
        Ok(Some(operations)) => operations,
        Ok(None) => {
            return Ok(ExtractedText::new());
        },
        Err(failure) => {
            return Err(failure);
        },
    };
    let fit = match limits.max_decompressed_size {
        Some(max) => fonts.check_limit(doc, form_id, max),
        None => Ok(()),
    };
    assert(fonts_fit(fonts, doc, form_id, limits.max_decompressed_size, fit));
    if let Err(failure) = fit {
        return Err(failure);
    }
    let ctm = source.matrix.times(&parent_ctm);
    let mut form = FormExtraction::new(ctm, inherited, include_invisible, depth, page);
    let ghost start = form@;
    let ghost charged = *budget;
    let followed = follow_operations(doc, fonts, form_id, &source, limits, &operations, depth, &mut form, budget);
    proof {
        let end = walk_end(followed, form@);
        let trace = choose|trace: Seq<(FormState, FormWalkBudget)>|
            {
                &&& #[trigger] ends(
                    fonts,
                    doc,
                    form_id,
                    source,
                    limits,
                    depth,
                    operation_views(operations@),
                    trace,
                    end,
                    *budget,
                )
                &&& trace[0] == (start, charged)
            };
        assert(trace[0] == (start, charged));
        assert(outcome(end) == match followed {
            Ok(_) => Ok::<ExtractedView, PdfFailure>(form@.result()),
            Err(failure) => Err(failure),
        });
    }
    match followed {
        Ok(_) => Ok(form.finish()),
        Err(failure) => Err(failure),
    }
}

/// Extracts the text of a form that a page invokes, and of the forms nested in
/// it, with positions. It fails where a stream goes beyond the size limit.
pub fn extract_form_xobject_text_with_limit<F: FormFonts>(
    doc: &lopdf::Document,
    fonts: &F,
    form_id: (u32, u16),
    parent_ctm: Matrix,
    inherited: Inherited,
    include_invisible: bool,
    page: u32,
    limits: FormLimits,
    budget: &mut FormWalkBudget,
) -> (r: Result<ExtractedText, PdfFailure>)
    ensures
        r matches Ok(extracted) ==> extracted@.wf() && all_on_page(extracted@, page),
        extracts_form(
            fonts,
            doc,
            form_id,
            parent_ctm,
            inherited,
            include_invisible,
            0,
            page,
            limits,
            *old(budget),
            extraction_view(r),
            *final(budget),
        ),
{
    extract_form_xobject_text_inner(
        doc,
        fonts,
        form_id,
        parent_ctm,
        inherited,
        include_invisible,
        0,
        page,
        limits,
        budget,
    )
}

} // verus!
