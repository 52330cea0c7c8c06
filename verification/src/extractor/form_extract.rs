//! The extraction of the text of a form, operator by operator.
//!
//! [`open_form`] charges a form to the budget and reads what its dictionary
//! says. [`FormExtraction`] then follows the operators of the form: each is
//! observed, and where it asks for something (another transformation, the text
//! of a nested form, the place of an image, decoded and placed text) the
//! answer is taken up by the method for it.

use crate::extractor::form_text::{
    add_image, add_parts, add_text, image_item, with_parts, with_text, ExtractedText, ExtractedView, FontFace,
    ImageBox, PlacedRun, ShowSetting,
};
use crate::extractor::form_walk::{advanced, FormAction, FormWalk, GraphicsView, Inherited, WalkView};
use crate::extractor::text_paint::{form_tables, Matrix, PaintResources};
use crate::extractor::xobjects::{
    font_views, form_fonts, form_matrix, get_form_fonts, get_form_xobjects, held_dictionary, own_matrix,
    resource_xobjects, FormFont, FormWalkBudget, XObjectTable,
};
use crate::pdf::{document_objects, get_object, lemma_compound_node, looked_up, nodes, Node, PdfObject};
use crate::single::Single;
use crate::text::trimmed;
use crate::types::{copy_item, ItemView};
use vstd::prelude::*;

verus! {

broadcast use lemma_compound_node;

/// What the dictionary of a form says.
pub struct FormSource {
    pub fonts: Vec<FormFont>,
    pub resources: PaintResources,
    pub forms: XObjectTable,
    /// The transformation of the form itself.
    pub matrix: Matrix,
}

impl FormSource {
    /// The source of the form with this dictionary.
    pub open spec fn describes(self, objects: Map<(u32, u16), Node>, form: Seq<(Seq<u8>, Node)>) -> bool {
        &&& font_views(self.fonts@) == form_fonts(objects, form)
        &&& self.resources.wf()
        &&& self.resources@ == form_tables(objects, form)
        &&& self.forms.wf()
        &&& self.forms.map() == resource_xobjects(objects, held_dictionary(objects, form, "Resources"@))
        &&& self.matrix == own_matrix(form)
    }
}

/// Opens a form: charges it to the budget and reads its dictionary. There is
/// nothing to read where the budget is spent or the object is no stream.
pub fn open_form(doc: &lopdf::Document, form_id: (u32, u16), budget: &mut FormWalkBudget) -> (r: Option<FormSource>)
    ensures
        *final(budget) == if old(budget).spent() {
            FormWalkBudget { truncated: true, ..*old(budget) }
        } else {
            FormWalkBudget { invocations: (old(budget).invocations + 1) as usize, ..*old(budget) }
        },
        old(budget).wf() ==> final(budget).wf(),
        match r {
            Some(source) => {
                &&& !old(budget).spent()
                &&& looked_up(document_objects(*doc), form_id) matches Some(Node::Stream(form))
                &&& source.describes(document_objects(*doc), form)
            },
            None => old(budget).spent() || !(looked_up(document_objects(*doc), form_id) matches Some(
                Node::Stream(_),
            )),
        },
{
    if !budget.charge_invocation() {
        return None;
    }
    match get_object(doc, form_id) {
        Some(PdfObject::Stream(form)) => Some(
            FormSource {
                fonts: get_form_fonts(doc, &form),
                resources: PaintResources::form(doc, &form),
                forms: get_form_xobjects(doc, &form),
                matrix: form_matrix(&form),
            },
        ),
        _ => None,
    }
}

/// The decoded and placed text of a show operator.
pub struct ShownText {
    pub run: PlacedRun,
    pub face: FontFace,
    pub rendered_size: Single,
    /// The length of the shorter axis of the transformation.
    pub scale: Single,
    /// The text matrix, with its rise, on the page.
    pub combined: Matrix,
    /// The baseline angle.
    pub angle: Single,
}

/// The placed parts of a show array.
pub struct ShownParts {
    pub runs: Vec<PlacedRun>,
    pub face: FontFace,
    pub rendered_size: Single,
    /// The length of the shorter axis of the transformation.
    pub scale: Single,
    /// The baseline angle.
    pub angle: Single,
}

/// White space that was shown behind an item, and may be its word space.
#[derive(Clone, Copy, Debug, PartialEq, Eq, Structural)]
pub struct PendingSpace {
    /// The index of the item.
    pub item: usize,
    pub x: Single,
    pub y: Single,
    pub width: Single,
    pub height: Single,
}

/// The extraction of a form, between two of its operators.
pub struct FormExtraction {
    pub walk: FormWalk,
    pub extracted: ExtractedText,
    pub page: u32,
    /// The white space that no text has followed yet.
    pub space: Option<PendingSpace>,
}

/// All items are on the page.
pub open spec fn all_on_page(extracted: ExtractedView, page: u32) -> bool {
    forall|i: int| 0 <= i < extracted.items.len() ==> (#[trigger] extracted.items[i]).page == page
}

/// What a [`FormExtraction`] is.
#[verifier::ext_equal]
pub struct FormState {
    pub walk: WalkView,
    pub extracted: ExtractedView,
    pub page: u32,
    pub space: Option<PendingSpace>,
}

impl View for FormExtraction {
    type V = FormState;

    open spec fn view(&self) -> FormState {
        FormState { walk: self.walk@, extracted: self.extracted@, page: self.page, space: self.space }
    }
}

/// What a form that is invoked here takes over.
pub open spec fn inherited_from(walk: WalkView) -> Inherited {
    Inherited {
        rendering_mode: walk.graphics.rendering_mode,
        text_rise: walk.graphics.text_rise,
        horizontal_scale: walk.graphics.horizontal_scale,
        paint: walk.graphics.paint,
    }
}

impl FormState {
    /// The candidates are items, and the items are on the page.
    pub open spec fn wf(self) -> bool {
        self.extracted.wf() && all_on_page(self.extracted, self.page)
    }

    /// The start of a form, whose transformation on the page is `ctm`.
    pub open spec fn start(ctm: Matrix, inherited: Inherited, include_invisible: bool, depth: u8, page: u32) -> FormState {
        FormState {
            walk: WalkView::start(ctm, inherited, include_invisible, depth),
            extracted: ExtractedView::nothing(),
            page,
            space: None,
        }
    }

    /// The state with other white space pending.
    pub open spec fn noting(self, space: Option<PendingSpace>) -> FormState {
        FormState { space, ..self }
    }

    /// The state once text follows the pending white space: the item before it
    /// has a space at its end where it was its word space.
    pub open spec fn resolved(self, taken: bool) -> FormState {
        let settled = self.noting(None);
        if taken && self.space is Some && self.space->0.item < self.extracted.items.len() {
            let k = self.space->0.item as int;
            let item = self.extracted.items[k];
            FormState {
                extracted: ExtractedView {
                    items: self.extracted.items.update(k, ItemView { text: item.text.push(' '), ..item }),
                    ..self.extracted
                },
                ..settled
            }
        } else {
            settled
        }
    }

    /// The state with another walk.
    pub open spec fn walked(self, walk: WalkView) -> FormState {
        FormState { walk, ..self }
    }

    /// The state with another transformation.
    pub open spec fn transformed(self, product: Matrix) -> FormState {
        self.walked(self.walk.with_graphics(GraphicsView { ctm: product, ..self.walk.graphics }))
    }

    /// The state with the text of a nested form.
    pub open spec fn with_nested(self, inner: ExtractedView) -> FormState {
        FormState { extracted: self.extracted.joined(inner), ..self }
    }

    /// The state with an image.
    pub open spec fn with_image(self, name: Seq<char>, place: ImageBox) -> FormState {
        FormState {
            extracted: ExtractedView {
                items: self.extracted.items.push(image_item(name, place, self.page)),
                ..self.extracted
            },
            ..self
        }
    }

    /// The state with the cursor moved along the line.
    pub open spec fn moved(self, advance: Option<Single>) -> FormState {
        match advance {
            Some(step) => self.walked(
                WalkView {
                    text_matrix: advanced(self.walk.text_matrix, step, self.walk.graphics.horizontal_scale),
                    ..self.walk
                },
            ),
            None => self,
        }
    }

    /// The state with the text of a show operator, unless that is white space.
    pub open spec fn with_shown(self, shown: ShownText) -> FormState {
        if trimmed(shown.run.text@).len() > 0 {
            FormState {
                extracted: with_text(
                    self.extracted,
                    shown.run,
                    shown.face,
                    self.walk,
                    (ShowSetting { rendered_size: shown.rendered_size, page: self.page, scale: shown.scale }),
                    shown.combined,
                    shown.angle,
                ),
                ..self
            }
        } else {
            self
        }
    }

    /// The state with the parts of a show array.
    pub open spec fn with_array(self, backward_jump: bool, shown: ShownParts) -> FormState {
        if shown.runs@.len() == 0 {
            self
        } else {
            FormState {
                extracted: with_parts(
                    ExtractedView { run_rotations: self.extracted.run_rotations.push(shown.angle), ..self.extracted },
                    shown.runs@,
                    shown.face,
                    self.walk,
                    (ShowSetting { rendered_size: shown.rendered_size, page: self.page, scale: shown.scale }),
                    backward_jump,
                    shown.runs@.len(),
                ).extracted,
                ..self
            }
        }
    }

    /// The extracted text. Invisible text was present but suppressed where
    /// this form or a nested one had some.
    pub open spec fn result(self) -> ExtractedView {
        ExtractedView {
            skipped_invisible: self.extracted.skipped_invisible || self.walk.skipped_invisible,
            ..self.extracted
        }
    }
}

impl FormExtraction {
    /// The extraction at the start of a form, whose transformation on the page
    /// is `ctm`.
    pub fn new(ctm: Matrix, inherited: Inherited, include_invisible: bool, depth: u8, page: u32) -> (r: FormExtraction)
        ensures
            r@.wf(),
            r@ == FormState::start(ctm, inherited, include_invisible, depth, page),
    {
        FormExtraction {
            walk: FormWalk::new(ctm, inherited, include_invisible, depth),
            extracted: ExtractedText::new(),
            page,
            space: None,
        }
    }

    /// Follows one operator of the form.
    pub fn observe(
        &mut self,
        operator: &str,
        operands: &Vec<PdfObject>,
        source: &FormSource,
        budget: &mut FormWalkBudget,
    ) -> (r: FormAction)
        requires
            old(self)@.wf(),
            source.forms.wf(),
            source.resources.wf(),
        ensures
            final(self)@.wf(),
            final(self)@ == old(self)@.walked(final(self)@.walk),
            (final(self)@.walk, r@, *final(budget)) == old(self)@.walk.observed(
                operator@,
                nodes(operands@),
                source.forms.map(),
                source.resources@,
                *old(budget),
            ),
    {
        self.walk.observe(operator, operands, &source.forms, &source.resources, budget)
    }

    /// What a form that is invoked here takes over.
    pub fn inherited(&self) -> (r: Inherited)
        ensures
            r == inherited_from(self@.walk),
    {
        Inherited {
            rendering_mode: self.walk.graphics.rendering_mode,
            text_rise: self.walk.graphics.text_rise,
            horizontal_scale: self.walk.graphics.horizontal_scale,
            paint: self.walk.graphics.paint,
        }
    }

    /// Takes up another transformation.
    pub fn concatenated(&mut self, product: Matrix)
        requires
            old(self)@.wf(),
        ensures
            final(self)@.wf(),
            final(self)@ == old(self)@.transformed(product),
    {
        self.walk.set_ctm(product);
    }

    /// Takes up the text of a nested form.
    pub fn nested(&mut self, inner: ExtractedText)
        requires
            old(self)@.wf(),
            inner@.wf(),
            all_on_page(inner@, old(self).page),
        ensures
            final(self)@.wf(),
            final(self)@ == old(self)@.with_nested(inner@),
    {
        inner.append_into(&mut self.extracted);
        proof {
            let before = old(self).extracted@;
            assert forall|i: int| 0 <= i < self.extracted@.items.len() implies (
            #[trigger] self.extracted@.items[i]).page == self.page by {
                if i < before.items.len() {
                    assert(self.extracted@.items[i] == before.items[i]);
                } else {
                    assert(self.extracted@.items[i] == inner@.items[i - before.items.len()]);
                }
            }
        }
    }

    /// Takes up the place of an image.
    pub fn image(&mut self, name: &str, place: &ImageBox)
        requires
            old(self)@.wf(),
        ensures
            final(self)@.wf(),
            final(self)@ == old(self)@.with_image(name@, *place),
    {
        add_image(&mut self.extracted, name, place, self.page);
        proof {
            let before = old(self).extracted@;
            assert forall|i: int| 0 <= i < self.extracted@.items.len() implies (
            #[trigger] self.extracted@.items[i]).page == self.page by {
                if i < before.items.len() {
                    assert(self.extracted@.items[i] == before.items[i]);
                }
            }
        }
    }

    /// Moves the cursor along the line.
    pub fn advance(&mut self, advance: Option<Single>)
        requires
            old(self)@.wf(),
        ensures
            final(self)@.wf(),
            final(self)@ == old(self)@.moved(advance),
    {
        if let Some(step) = advance {
            self.walk.advance(step);
        }
    }

    /// Keeps white space for the text that follows it.
    pub fn note(&mut self, space: Option<PendingSpace>)
        requires
            old(self)@.wf(),
        ensures
            final(self)@.wf(),
            final(self)@ == old(self)@.noting(space),
    {
        self.space = space;
    }

    /// Settles the pending white space before text: the item before it gets a
    /// space at its end where it was its word space.
    pub fn resolve(&mut self, taken: bool)
        requires
            old(self)@.wf(),
        ensures
            final(self)@.wf(),
            final(self)@ == old(self)@.resolved(taken),
    {
        if let Some(space) = self.space {
            if taken && space.item < self.extracted.items.len() {
                let ghost before = self.extracted@;
                let mut item = copy_item(&self.extracted.items[space.item]);
                item.text.push(' ');
                let ghost grown = item@;
                self.extracted.items[space.item] = item;
                assert(self.extracted@.items =~= before.items.update(space.item as int, grown));
                assert(grown.page == before.items[space.item as int].page);
            }
        }
        self.space = None;
    }

    /// Takes up what a show operator shows. A text of white space is reported
    /// by `true`.
    pub fn show(&mut self, shown: &ShownText) -> (r: bool)
        requires
            old(self)@.wf(),
        ensures
            final(self)@.wf(),
            final(self)@ == old(self)@.with_shown(*shown),
            r == (trimmed(shown.run.text@).len() == 0),
    {
        let setting = ShowSetting { rendered_size: shown.rendered_size, page: self.page, scale: shown.scale };
        let added = add_text(
            &mut self.extracted,
            &shown.run,
            &shown.face,
            &self.walk,
            &setting,
            &shown.combined,
            shown.angle,
        );
        proof {
            let before = old(self).extracted@;
            assert forall|i: int| 0 <= i < self.extracted@.items.len() implies (
            #[trigger] self.extracted@.items[i]).page == self.page by {
                if i < before.items.len() {
                    assert(self.extracted@.items[i] == before.items[i]);
                }
            }
        }
        !added
    }

    /// Takes up the placed parts of a show array.
    pub fn show_array(&mut self, backward_jump: bool, shown: &ShownParts)
        requires
            old(self)@.wf(),
        ensures
            final(self)@.wf(),
            final(self)@ == old(self)@.with_array(backward_jump, *shown),
    {
        let setting = ShowSetting { rendered_size: shown.rendered_size, page: self.page, scale: shown.scale };
        add_parts(
            &mut self.extracted,
            &shown.runs,
            &shown.face,
            &self.walk,
            &setting,
            backward_jump,
            shown.angle,
        );
        proof {
            let base = ExtractedView {
                run_rotations: old(self).extracted@.run_rotations.push(shown.angle),
                ..old(self).extracted@
            };
            lemma_parts_on_page(
                base,
                shown.runs@,
                shown.face,
                old(self).walk@,
                setting,
                backward_jump,
                shown.runs@.len(),
            );
        }
    }

    /// The extracted text.
    pub fn finish(self) -> (r: ExtractedText)
        requires
            self@.wf(),
        ensures
            r@ == self@.result(),
            r@.wf(),
            all_on_page(r@, self.page),
    {
        let mut extracted = self.extracted;
        extracted.skipped_invisible = extracted.skipped_invisible || self.walk.skipped_invisible;
        extracted
    }
}

proof fn lemma_parts_on_page(
    before: ExtractedView,
    runs: Seq<PlacedRun>,
    face: FontFace,
    walk: WalkView,
    setting: ShowSetting,
    backward_jump: bool,
    n: nat,
)
    requires
        all_on_page(before, setting.page),
    ensures
        all_on_page(with_parts(before, runs, face, walk, setting, backward_jump, n).extracted, setting.page),
    decreases n,
{
    if n > 0 {
        lemma_parts_on_page(before, runs, face, walk, setting, backward_jump, (n - 1) as nat);
        let shorter = with_parts(before, runs, face, walk, setting, backward_jump, (n - 1) as nat).extracted;
        let longer = with_parts(before, runs, face, walk, setting, backward_jump, n).extracted;
        assert forall|i: int| 0 <= i < longer.items.len() implies (#[trigger] longer.items[i]).page == setting.page by {
            if i < shorter.items.len() {
                assert(longer.items[i] == shorter.items[i]);
            }
        }
    }
}

/// Pending white space lengthens the text of at most one item, by one space.
/// No item comes or goes, and nothing else of an item changes.
pub proof fn law_white_space_only_lengthens(state: FormState, taken: bool, i: int)
    requires
        0 <= i < state.extracted.items.len(),
    ensures
        state.resolved(taken).extracted.items.len() == state.extracted.items.len(),
        ({
            let before = state.extracted.items[i];
            let after = state.resolved(taken).extracted.items[i];
            let lengthened = taken && state.space is Some && state.space->0.item == i;
            after == (ItemView {
                text: if lengthened {
                    before.text.push(' ')
                } else {
                    before.text
                },
                ..before
            })
        }),
{
}

/// Moving the cursor leaves no other trace: the items, their evidence and the
/// rest of the state stay.
pub proof fn law_moving_shows_nothing(state: FormState, advance: Option<Single>)
    ensures
        state.moved(advance).extracted == state.extracted,
        state.moved(advance).walk.graphics == state.walk.graphics,
        state.moved(advance).walk.saved == state.walk.saved,
        state.moved(advance).walk.line_matrix == state.walk.line_matrix,
{
}

} // verus!
