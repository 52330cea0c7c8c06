//! The walk through a form's content stream.
//!
//! [`FormWalk`] holds the graphics and text state. Each operator is observed in
//! turn and answered by what has to be done outside: a matrix product, another
//! form, an image, a text to decode and measure. What comes back is applied to
//! the state and to the extracted items by the functions here.

use crate::extractor::text_paint::{first_name, first_number, Matrix, PaintResources, PaintTables, TextPaint};
use crate::extractor::text_paint::{read_first_name, read_first_number};
use crate::extractor::xobjects::{
    matrix_or, number_or, read_matrix_or, read_number_or, zero_matrix, FormWalkBudget, XObjectTable, XObjectType,
    MAX_FORM_XOBJECT_DEPTH,
};
use crate::pdf::{get_number, lemma_compound_node, nodes, number_of, Node, PdfObject};
use crate::single::{Single, ONE_BITS};
use crate::text::{copy_text, same_text};
use crate::unicode::{lossy, lossy_text};
use vstd::prelude::*;

verus! {

broadcast use lemma_compound_node;

/// `0.95`: a gray or colour component above this is white.
pub const WHITE_BITS: u32 = 0x3f73_3333;

/// `0.05`: an ink component below this leaves the page white.
pub const NO_INK_BITS: u32 = 0x3d4c_cccd;

/// `12.0`: the font size where none is given.
pub const DEFAULT_FONT_SIZE_BITS: u32 = 0x4140_0000;

/// `1.2`: the leading where none is set, as a multiple of the font size.
pub const DEFAULT_LEADING_BITS: u32 = 0x3f99_999a;

/// `100.0`
pub const HUNDRED_BITS: u32 = 0x42c8_0000;

/// `1000.0`
pub const THOUSAND_BITS: u32 = 0x447a_0000;

/// `0.4`: the part of a space's width that separates words.
pub const SPACE_PART_BITS: u32 = 0x3ecc_cccd;

/// `80.0`: the least adjustment that separates words.
pub const LEAST_SPACE_BITS: u32 = 0x42a0_0000;

/// `120.0`: the adjustment that separates words in a font without metrics.
pub const DEFAULT_SPACE_BITS: u32 = 0x42f0_0000;

/// `4.0`: the spaces that separate columns.
pub const COLUMN_SPACES_BITS: u32 = 0x4080_0000;

/// The rendering mode of invisible text.
pub const INVISIBLE_MODE: i32 = 3;

/// The part of the state that is saved and restored.
pub struct FormGraphics {
    pub ctm: Matrix,
    pub char_spacing: Single,
    pub word_spacing: Single,
    pub horizontal_scale: Single,
    pub text_rise: Single,
    pub rendering_mode: i32,
    pub paint: TextPaint,
    pub leading: Single,
    pub font: String,
    pub font_size: Single,
    pub fill_is_white: bool,
}

/// What a [`FormGraphics`] is.
#[verifier::ext_equal]
pub struct GraphicsView {
    pub ctm: Matrix,
    pub char_spacing: Single,
    pub word_spacing: Single,
    pub horizontal_scale: Single,
    pub text_rise: Single,
    pub rendering_mode: i32,
    pub paint: TextPaint,
    pub leading: Single,
    pub font: Seq<char>,
    pub font_size: Single,
    pub fill_is_white: bool,
}

impl View for FormGraphics {
    type V = GraphicsView;

    open spec fn view(&self) -> GraphicsView {
        GraphicsView {
            ctm: self.ctm,
            char_spacing: self.char_spacing,
            word_spacing: self.word_spacing,
            horizontal_scale: self.horizontal_scale,
            text_rise: self.text_rise,
            rendering_mode: self.rendering_mode,
            paint: self.paint,
            leading: self.leading,
            font: self.font@,
            font_size: self.font_size,
            fill_is_white: self.fill_is_white,
        }
    }
}

impl FormGraphics {
    fn copy(&self) -> (r: FormGraphics)
        ensures
            r@ == self@,
    {
        FormGraphics {
            ctm: self.ctm,
            char_spacing: self.char_spacing,
            word_spacing: self.word_spacing,
            horizontal_scale: self.horizontal_scale,
            text_rise: self.text_rise,
            rendering_mode: self.rendering_mode,
            paint: self.paint,
            leading: self.leading,
            font: copy_text(&self.font),
            font_size: self.font_size,
            fill_is_white: self.fill_is_white,
        }
    }
}

/// The state of a walk through a form.
pub struct FormWalk {
    pub graphics: FormGraphics,
    pub saved: Vec<FormGraphics>,
    pub text_matrix: Matrix,
    /// The start of the current line, from which line moves are measured.
    pub line_matrix: Matrix,
    pub in_text_block: bool,
    pub include_invisible: bool,
    /// How many forms this one is nested in.
    pub depth: u8,
    /// Invisible text was present but suppressed.
    pub skipped_invisible: bool,
}

/// What a [`FormWalk`] is.
#[verifier::ext_equal]
pub struct WalkView {
    pub graphics: GraphicsView,
    pub saved: Seq<GraphicsView>,
    pub text_matrix: Matrix,
    pub line_matrix: Matrix,
    pub in_text_block: bool,
    pub include_invisible: bool,
    pub depth: u8,
    pub skipped_invisible: bool,
}

pub open spec fn graphics_views(saved: Seq<FormGraphics>) -> Seq<GraphicsView> {
    Seq::new(saved.len(), |i: int| saved[i]@)
}

impl View for FormWalk {
    type V = WalkView;

    open spec fn view(&self) -> WalkView {
        WalkView {
            graphics: self.graphics@,
            saved: graphics_views(self.saved@),
            text_matrix: self.text_matrix,
            line_matrix: self.line_matrix,
            in_text_block: self.in_text_block,
            include_invisible: self.include_invisible,
            depth: self.depth,
            skipped_invisible: self.skipped_invisible,
        }
    }
}

/// What an operator asks for.
pub enum FormAction {
    /// The budget of operators is used up: the walk ends.
    Stop,
    /// Nothing.
    Nothing,
    /// The product of this matrix and the current transformation.
    Concat(Matrix),
    /// Another form, by its object.
    Invoke(u32, u16),
    /// The image with this name.
    Image(String),
    /// The text of the last operand; a hidden one only moves the cursor.
    Show { hidden: bool },
    /// The texts and adjustments of the array that is the first operand.
    ShowArray { hidden: bool },
}

/// What a [`FormAction`] is.
pub enum ActionView {
    Stop,
    Nothing,
    Concat(Matrix),
    Invoke(u32, u16),
    Image(Seq<char>),
    Show { hidden: bool },
    ShowArray { hidden: bool },
}

impl View for FormAction {
    type V = ActionView;

    open spec fn view(&self) -> ActionView {
        match *self {
            FormAction::Stop => ActionView::Stop,
            FormAction::Nothing => ActionView::Nothing,
            FormAction::Concat(m) => ActionView::Concat(m),
            FormAction::Invoke(number, generation) => ActionView::Invoke(number, generation),
            FormAction::Image(name) => ActionView::Image(name@),
            FormAction::Show { hidden } => ActionView::Show { hidden },
            FormAction::ShowArray { hidden } => ActionView::ShowArray { hidden },
        }
    }
}

/// The bytes of a text operand.
pub open spec fn has_bytes(node: Node) -> bool {
    node matches Node::Text(bytes) && bytes.len() > 0
}

/// Some item of a list is a text that is not empty.
pub open spec fn any_bytes(items: Seq<Node>) -> bool {
    exists|i: int| 0 <= i < items.len() && has_bytes(#[trigger] items[i])
}

fn is_any_text(items: &Vec<PdfObject>) -> (r: bool)
    ensures
        r == any_bytes(nodes(items@)),
{
    let mut i: usize = 0;
    while i < items.len()
        invariant
            i <= items@.len(),
            forall|j: int| 0 <= j < i ==> !has_bytes(#[trigger] nodes(items@)[j]),
        decreases items@.len() - i,
    {
        assert(nodes(items@)[i as int] == items@[i as int]@);
        if is_text(&items[i]) {
            return true;
        }
        i += 1;
    }
    false
}

/// Whether an operand is a text that is not empty.
pub(crate) fn is_text(object: &PdfObject) -> (r: bool)
    ensures
        r == has_bytes(object@),
{
    match object {
        PdfObject::Text(bytes) => bytes.len() > 0,
        _ => false,
    }
}

/// The numbers among the operands, in order.
pub open spec fn numbers_among(operands: Seq<Node>) -> Seq<Single>
    decreases operands.len(),
{
    if operands.len() == 0 {
        Seq::empty()
    } else {
        let before = numbers_among(operands.drop_last());
        match number_of(operands.last()) {
            Some(x) => before.push(x),
            None => before,
        }
    }
}

fn read_numbers(operands: &Vec<PdfObject>) -> (r: Vec<Single>)
    ensures
        r@ == numbers_among(nodes(operands@)),
{
    let mut out: Vec<Single> = Vec::new();
    let mut i: usize = 0;
    while i < operands.len()
        invariant
            i <= operands@.len(),
            out@ == numbers_among(nodes(operands@).take(i as int)),
        decreases operands@.len() - i,
    {
        assert(nodes(operands@).take(i + 1).drop_last() =~= nodes(operands@).take(i as int));
        assert(nodes(operands@).take(i + 1).last() == operands@[i as int]@);
        if let Some(x) = get_number(&operands[i]) {
            out.push(x);
        }
        i += 1;
    }
    assert(nodes(operands@).take(operands@.len() as int) =~= nodes(operands@));
    out
}

pub open spec fn whitish(x: Single) -> bool {
    Single { bits: WHITE_BITS }.spec_less(x)
}

pub open spec fn inkless(x: Single) -> bool {
    x.spec_less(Single { bits: NO_INK_BITS })
}

fn is_whitish(x: Single) -> (r: bool)
    ensures
        r == whitish(x),
{
    (Single { bits: WHITE_BITS }).less(x)
}

fn is_inkless(x: Single) -> (r: bool)
    ensures
        r == inkless(x),
{
    x.less(Single { bits: NO_INK_BITS })
}

/// The numbers of a fill colour are white: three light components or four
/// inks that are hardly there.
pub open spec fn white_numbers(numbers: Seq<Single>) -> bool {
    if numbers.len() == 3 {
        whitish(numbers[0]) && whitish(numbers[1]) && whitish(numbers[2])
    } else if numbers.len() == 4 {
        inkless(numbers[0]) && inkless(numbers[1]) && inkless(numbers[2]) && inkless(numbers[3])
    } else {
        false
    }
}

/// The line matrix one line further: down by the leading, or by the default
/// leading of the font size where none is set.
pub open spec fn next_line(graphics: GraphicsView, line: Matrix) -> Matrix {
    let leading = if graphics.leading.spec_zero() {
        graphics.font_size.spec_times(Single { bits: DEFAULT_LEADING_BITS })
    } else {
        graphics.leading
    };
    let down = leading.spec_negated();
    Matrix {
        e: line.e.spec_plus(down.spec_times(line.c)),
        f: line.f.spec_plus(down.spec_times(line.d)),
        ..line
    }
}

/// The line matrix moved by an offset.
pub open spec fn moved_line(line: Matrix, tx: Single, ty: Single) -> Matrix {
    Matrix {
        e: line.e.spec_plus(tx.spec_times(line.a).spec_plus(ty.spec_times(line.c))),
        f: line.f.spec_plus(tx.spec_times(line.b).spec_plus(ty.spec_times(line.d))),
        ..line
    }
}

/// A text matrix moved along its line by an advance.
pub open spec fn advanced(text: Matrix, advance: Single, scale: Single) -> Matrix {
    let step = advance.spec_times(scale);
    Matrix {
        e: text.e.spec_plus(step.spec_times(text.a)),
        f: text.f.spec_plus(step.spec_times(text.b)),
        ..text
    }
}

impl WalkView {
    /// The text is invisible and not asked for.
    pub open spec fn suppressed(self) -> bool {
        self.graphics.rendering_mode == INVISIBLE_MODE && !self.include_invisible
    }

    /// The text shows nothing: it is white or suppressed.
    pub open spec fn hidden(self) -> bool {
        self.graphics.fill_is_white || self.suppressed()
    }

    pub open spec fn with_graphics(self, graphics: GraphicsView) -> WalkView {
        WalkView { graphics, ..self }
    }

    pub open spec fn at_line(self, line: Matrix) -> WalkView {
        WalkView { line_matrix: line, text_matrix: line, ..self }
    }

    /// The state in which a text operator shows its text: the operators for a
    /// new line have moved there, and one of them has set the spacing.
    pub open spec fn before_show(self, operator: Seq<char>, operands: Seq<Node>) -> WalkView {
        if operator == "Tj"@ {
            self
        } else {
            let spaced = if operator == "\""@ && operands.len() >= 3 {
                self.with_graphics(
                    GraphicsView {
                        word_spacing: number_or(operands, 0, self.graphics.word_spacing),
                        char_spacing: number_or(operands, 1, self.graphics.char_spacing),
                        ..self.graphics
                    },
                )
            } else {
                self
            };
            spaced.at_line(next_line(spaced.graphics, self.line_matrix))
        }
    }

    /// An operator shows one text.
    pub open spec fn shows_text(operator: Seq<char>) -> bool {
        operator == "Tj"@ || operator == "'"@ || operator == "\""@
    }

    /// What an operator does to the state, its paint aside.
    pub open spec fn stepped(self, operator: Seq<char>, operands: Seq<Node>) -> WalkView {
        let g = self.graphics;
        if operator == "q"@ {
            WalkView { saved: self.saved.push(g), ..self }
        } else if operator == "Q"@ {
            if self.saved.len() == 0 {
                self
            } else {
                WalkView { graphics: self.saved.last(), saved: self.saved.drop_last(), ..self }
            }
        } else if operator == "BT"@ {
            WalkView { in_text_block: true, ..self.at_line(Matrix::spec_identity()) }
        } else if operator == "ET"@ {
            WalkView { in_text_block: false, ..self }
        } else if operator == "Tf"@ {
            if operands.len() >= 2 {
                self.with_graphics(
                    GraphicsView {
                        font: match first_name(operands) {
                            Some(name) => lossy(name),
                            None => g.font,
                        },
                        font_size: number_or(operands, 1, Single { bits: DEFAULT_FONT_SIZE_BITS }),
                        ..g
                    },
                )
            } else {
                self
            }
        } else if operator == "TL"@ {
            match first_number(operands) {
                Some(x) => self.with_graphics(GraphicsView { leading: x, ..g }),
                None => self,
            }
        } else if operator == "Tc"@ {
            match first_number(operands) {
                Some(x) => self.with_graphics(GraphicsView { char_spacing: x, ..g }),
                None => self,
            }
        } else if operator == "Tw"@ {
            match first_number(operands) {
                Some(x) => self.with_graphics(GraphicsView { word_spacing: x, ..g }),
                None => self,
            }
        } else if operator == "Tr"@ {
            match first_number(operands) {
                Some(x) => self.with_graphics(GraphicsView { rendering_mode: x.spec_truncated() as i32, ..g }),
                None => self,
            }
        } else if operator == "Tz"@ {
            match first_number(operands) {
                Some(x) => if x.spec_finite() {
                    self.with_graphics(
                        GraphicsView { horizontal_scale: x.spec_over(Single { bits: HUNDRED_BITS }), ..g },
                    )
                } else {
                    self
                },
                None => self,
            }
        } else if operator == "Ts"@ {
            match first_number(operands) {
                Some(x) => self.with_graphics(GraphicsView { text_rise: x, ..g }),
                None => self,
            }
        } else if operator == "Td"@ || operator == "TD"@ {
            if operands.len() >= 2 {
                let tx = number_or(operands, 0, Single { bits: 0 });
                let ty = number_or(operands, 1, Single { bits: 0 });
                let moved = self.at_line(moved_line(self.line_matrix, tx, ty));
                if operator == "TD"@ {
                    moved.with_graphics(GraphicsView { leading: ty.spec_negated(), ..g })
                } else {
                    moved
                }
            } else {
                self
            }
        } else if operator == "Tm"@ {
            if operands.len() >= 6 {
                self.at_line(matrix_or(operands, Matrix::spec_identity()))
            } else {
                self
            }
        } else if operator == "T*"@ {
            self.at_line(next_line(g, self.line_matrix))
        } else if operator == "g"@ {
            match first_number(operands) {
                Some(x) => self.with_graphics(GraphicsView { fill_is_white: whitish(x), ..g }),
                None => self,
            }
        } else if operator == "rg"@ {
            if operands.len() >= 3 {
                let zero = Single { bits: 0 };
                self.with_graphics(
                    GraphicsView {
                        fill_is_white: whitish(number_or(operands, 0, zero)) && whitish(
                            number_or(operands, 1, zero),
                        ) && whitish(number_or(operands, 2, zero)),
                        ..g
                    },
                )
            } else {
                self
            }
        } else if operator == "k"@ {
            if operands.len() >= 4 {
                let one = Single { bits: ONE_BITS };
                self.with_graphics(
                    GraphicsView {
                        fill_is_white: inkless(number_or(operands, 0, one)) && inkless(
                            number_or(operands, 1, one),
                        ) && inkless(number_or(operands, 2, one)) && inkless(number_or(operands, 3, one)),
                        ..g
                    },
                )
            } else {
                self
            }
        } else if operator == "sc"@ || operator == "scn"@ {
            self.with_graphics(GraphicsView { fill_is_white: white_numbers(numbers_among(operands)), ..g })
        } else if WalkView::shows_text(operator) {
            let shown = self.before_show(operator, operands);
            WalkView {
                skipped_invisible: self.skipped_invisible || (self.in_text_block && operands.len() > 0
                    && shown.suppressed() && has_bytes(operands.last())),
                ..shown
            }
        } else if operator == "TJ"@ {
            WalkView {
                skipped_invisible: self.skipped_invisible || (self.in_text_block && operands.len() > 0
                    && self.suppressed() && (operands[0] matches Node::Array(items) && any_bytes(items))),
                ..self
            }
        } else {
            self
        }
    }

    /// The walk at the start of a form.
    pub open spec fn start(ctm: Matrix, inherited: Inherited, include_invisible: bool, depth: u8) -> WalkView {
        WalkView {
            graphics: GraphicsView {
                ctm,
                char_spacing: Single { bits: 0 },
                word_spacing: Single { bits: 0 },
                horizontal_scale: inherited.horizontal_scale,
                text_rise: inherited.text_rise,
                rendering_mode: inherited.rendering_mode,
                paint: inherited.paint,
                leading: Single { bits: 0 },
                font: Seq::empty(),
                font_size: Single { bits: DEFAULT_FONT_SIZE_BITS },
                fill_is_white: false,
            },
            saved: Seq::empty(),
            text_matrix: Matrix::spec_identity(),
            line_matrix: Matrix::spec_identity(),
            in_text_block: false,
            include_invisible,
            depth,
            skipped_invisible: false,
        }
    }

    /// What an operator does to the state.
    pub open spec fn after(self, operator: Seq<char>, operands: Seq<Node>, tables: PaintTables) -> WalkView {
        self.with_graphics(
            GraphicsView { paint: self.graphics.paint.after(operator, operands, tables), ..self.graphics },
        ).stepped(operator, operands)
    }

    /// What an operator asks for, once it is charged. `spent` says that the
    /// budget admits no further form.
    pub open spec fn asked(
        self,
        operator: Seq<char>,
        operands: Seq<Node>,
        forms: Map<Seq<char>, XObjectType>,
        spent: bool,
    ) -> ActionView {
        if operator == "cm"@ {
            if operands.len() >= 6 {
                ActionView::Concat(matrix_or(operands, zero_matrix()))
            } else {
                ActionView::Nothing
            }
        } else if operator == "Do"@ {
            match first_name(operands) {
                Some(name) => if forms.contains_key(lossy(name)) {
                    match forms[lossy(name)] {
                        XObjectType::Form(number, generation) => if self.depth < MAX_FORM_XOBJECT_DEPTH && !spent {
                            ActionView::Invoke(number, generation)
                        } else {
                            ActionView::Nothing
                        },
                        XObjectType::Image => ActionView::Image(lossy(name)),
                    }
                } else {
                    ActionView::Nothing
                },
                None => ActionView::Nothing,
            }
        } else if WalkView::shows_text(operator) {
            if self.in_text_block && operands.len() > 0 {
                ActionView::Show { hidden: self.before_show(operator, operands).hidden() }
            } else {
                ActionView::Nothing
            }
        } else if operator == "TJ"@ {
            if self.in_text_block && operands.len() > 0 && operands[0] is Array {
                ActionView::ShowArray { hidden: self.hidden() }
            } else {
                ActionView::Nothing
            }
        } else {
            ActionView::Nothing
        }
    }

    /// What comes of an operator: the state after it, what it asks for, and the
    /// budget. An operator that the budget cannot pay stops the walk.
    pub open spec fn observed(
        self,
        operator: Seq<char>,
        operands: Seq<Node>,
        forms: Map<Seq<char>, XObjectType>,
        tables: PaintTables,
        budget: FormWalkBudget,
    ) -> (WalkView, ActionView, FormWalkBudget) {
        if budget.operations >= budget.max_operations {
            (self, ActionView::Stop, FormWalkBudget { truncated: true, ..budget })
        } else {
            let charged = FormWalkBudget { operations: (budget.operations + 1) as usize, ..budget };
            (
                self.after(operator, operands, tables),
                self.asked(operator, operands, forms, charged.spent()),
                FormWalkBudget {
                    truncated: charged.truncated || (charged.spent() && self.consults_budget(
                        operator,
                        operands,
                        forms,
                    )),
                    ..charged
                },
            )
        }
    }

    /// An operator looks at the budget for forms.
    pub open spec fn consults_budget(
        self,
        operator: Seq<char>,
        operands: Seq<Node>,
        forms: Map<Seq<char>, XObjectType>,
    ) -> bool {
        &&& operator == "Do"@
        &&& first_name(operands) matches Some(name) && forms.contains_key(lossy(name)) && forms[lossy(name)] is Form
        &&& self.depth < MAX_FORM_XOBJECT_DEPTH
    }
}

/// What a form takes over from the stream that invokes it.
pub struct Inherited {
    pub rendering_mode: i32,
    pub text_rise: Single,
    pub horizontal_scale: Single,
    pub paint: TextPaint,
}

impl FormWalk {
    /// The walk at the start of a form. The transformation is that of the form
    /// on the page; the text state is inherited.
    pub fn new(ctm: Matrix, inherited: Inherited, include_invisible: bool, depth: u8) -> (r: FormWalk)
        ensures
            r@ == WalkView::start(ctm, inherited, include_invisible, depth),
    {
        let r = FormWalk {
            graphics: FormGraphics {
                ctm,
                char_spacing: Single::zero(),
                word_spacing: Single::zero(),
                horizontal_scale: inherited.horizontal_scale,
                text_rise: inherited.text_rise,
                rendering_mode: inherited.rendering_mode,
                paint: inherited.paint,
                leading: Single::zero(),
                font: String::new(),
                font_size: Single { bits: DEFAULT_FONT_SIZE_BITS },
                fill_is_white: false,
            },
            saved: Vec::new(),
            text_matrix: Matrix::identity(),
            line_matrix: Matrix::identity(),
            in_text_block: false,
            include_invisible,
            depth,
            skipped_invisible: false,
        };
        assert(r@.saved =~= Seq::empty());
        assert(r.graphics.font@ =~= Seq::empty());
        r
    }

    fn set_line(&mut self, line: Matrix)
        ensures
            final(self)@ == old(self)@.at_line(line),
    {
        self.line_matrix = line;
        self.text_matrix = line;
    }

    fn move_to_next_line(&mut self)
        ensures
            final(self)@ == old(self)@.at_line(next_line(old(self)@.graphics, old(self).line_matrix)),
    {
        let leading = if self.graphics.leading.is_zero() {
            self.graphics.font_size.times(Single { bits: DEFAULT_LEADING_BITS })
        } else {
            self.graphics.leading
        };
        let down = leading.negated();
        let line = self.line_matrix;
        self.set_line(
            Matrix { e: line.e.plus(down.times(line.c)), f: line.f.plus(down.times(line.d)), ..line },
        );
    }

    fn is_suppressed(&self) -> (r: bool)
        ensures
            r == self@.suppressed(),
    {
        self.graphics.rendering_mode == INVISIBLE_MODE && !self.include_invisible
    }

    /// Follows one operator: charges it, changes the state and says what is to
    /// be done outside.
    pub fn observe(
        &mut self,
        operator: &str,
        operands: &Vec<PdfObject>,
        forms: &XObjectTable,
        resources: &PaintResources,
        budget: &mut FormWalkBudget,
    ) -> (r: FormAction)
        requires
            forms.wf(),
            resources.wf(),
        ensures
            (final(self)@, r@, *final(budget)) == old(self)@.observed(
                operator@,
                nodes(operands@),
                forms.map(),
                resources@,
                *old(budget),
            ),
    {
        if !budget.charge_operation() {
            return FormAction::Stop;
        }
        let mut paint = self.graphics.paint;
        paint.observe(operator, operands, resources);
        self.graphics.paint = paint;
        let ghost painted = self@;
        if same_text(operator, "q") {
            let copy = self.graphics.copy();
            let ghost before = graphics_views(self.saved@);
            self.saved.push(copy);
            assert(graphics_views(self.saved@) =~= before.push(painted.graphics));
            proof {
                lemma_operators_differ(operator@);
            }
            FormAction::Nothing
        } else if same_text(operator, "Q") {
            let ghost before = graphics_views(self.saved@);
            if let Some(saved) = self.saved.pop() {
                self.graphics = saved;
                assert(graphics_views(self.saved@) =~= before.drop_last());
            }
            proof {
                lemma_operators_differ(operator@);
            }
            FormAction::Nothing
        } else if same_text(operator, "cm") {
            proof {
                lemma_operators_differ(operator@);
            }
            if operands.len() >= 6 {
                let zero = Single::zero();
                let zeros = Matrix { a: zero, b: zero, c: zero, d: zero, e: zero, f: zero };
                FormAction::Concat(read_matrix_or(operands, zeros))
            } else {
                FormAction::Nothing
            }
        } else if same_text(operator, "Do") {
            proof {
                lemma_operators_differ(operator@);
            }
            match read_first_name(operands) {
                Some(name) => {
                    let text = lossy_text(name);
                    match forms.get(&text) {
                        Some(XObjectType::Form(number, generation)) => if self.depth < MAX_FORM_XOBJECT_DEPTH
                            && !budget.exhausted() {
                            FormAction::Invoke(number, generation)
                        } else {
                            FormAction::Nothing
                        },
                        Some(XObjectType::Image) => FormAction::Image(text),
                        None => FormAction::Nothing,
                    }
                },
                None => FormAction::Nothing,
            }
        } else if same_text(operator, "Tj") || same_text(operator, "'") || same_text(operator, "\"") {
            proof {
                lemma_operators_differ(operator@);
            }
            self.observe_show(operator, operands)
        } else if same_text(operator, "TJ") {
            proof {
                lemma_operators_differ(operator@);
            }
            self.observe_show_array(operands)
        } else {
            proof {
                lemma_operators_differ(operator@);
            }
            self.observe_state(operator, operands);
            FormAction::Nothing
        }
    }

    fn observe_show(&mut self, operator: &str, operands: &Vec<PdfObject>) -> (r: FormAction)
        requires
            WalkView::shows_text(operator@),
        ensures
            ({
                let ops = nodes(operands@);
                let shown = old(self)@.before_show(operator@, ops);
                &&& final(self)@ == (WalkView {
                    skipped_invisible: old(self)@.skipped_invisible || (old(self)@.in_text_block && ops.len() > 0
                        && shown.suppressed() && has_bytes(ops.last())),
                    ..shown
                })
                &&& r@ == if old(self)@.in_text_block && ops.len() > 0 {
                    ActionView::Show { hidden: shown.hidden() }
                } else {
                    ActionView::Nothing
                }
            }),
    {
        if !same_text(operator, "Tj") {
            if same_text(operator, "\"") && operands.len() >= 3 {
                let word = read_number_or(operands, 0, self.graphics.word_spacing);
                let character = read_number_or(operands, 1, self.graphics.char_spacing);
                self.graphics.word_spacing = word;
                self.graphics.char_spacing = character;
            }
            self.move_to_next_line();
        }
        if self.in_text_block && operands.len() > 0 {
            let invisible = self.is_suppressed();
            assert(nodes(operands@).last() == operands@[operands@.len() - 1]@);
            if invisible && is_text(&operands[operands.len() - 1]) {
                self.skipped_invisible = true;
            }
            FormAction::Show { hidden: self.graphics.fill_is_white || invisible }
        } else {
            FormAction::Nothing
        }
    }

    fn observe_show_array(&mut self, operands: &Vec<PdfObject>) -> (r: FormAction)
        ensures
            ({
                let ops = nodes(operands@);
                &&& final(self)@ == (WalkView {
                    skipped_invisible: old(self)@.skipped_invisible || (old(self)@.in_text_block && ops.len() > 0
                        && old(self)@.suppressed() && (ops[0] matches Node::Array(items) && any_bytes(items))),
                    ..old(self)@
                })
                &&& r@ == if old(self)@.in_text_block && ops.len() > 0 && ops[0] is Array {
                    ActionView::ShowArray { hidden: old(self)@.hidden() }
                } else {
                    ActionView::Nothing
                }
            }),
    {
        if self.in_text_block && operands.len() > 0 {
            assert(nodes(operands@)[0] == operands@[0]@);
            if let PdfObject::Array(items) = &operands[0] {
                let invisible = self.is_suppressed();
                if invisible && is_any_text(items) {
                    self.skipped_invisible = true;
                }
                return FormAction::ShowArray { hidden: self.graphics.fill_is_white || invisible };
            }
        }
        FormAction::Nothing
    }

    /// Follows an operator that only sets state.
    fn observe_state(&mut self, operator: &str, operands: &Vec<PdfObject>)
        requires
            operator@ != "q"@,
            operator@ != "Q"@,
            !WalkView::shows_text(operator@),
            operator@ != "TJ"@,
        ensures
            final(self)@ == old(self)@.stepped(operator@, nodes(operands@)),
    {
        if same_text(operator, "BT") {
            self.in_text_block = true;
            self.set_line(Matrix::identity());
        } else if same_text(operator, "ET") {
            self.in_text_block = false;
        } else if same_text(operator, "Tf") {
            if operands.len() >= 2 {
                if let Some(name) = read_first_name(operands) {
                    self.graphics.font = lossy_text(name);
                }
                self.graphics.font_size = read_number_or(operands, 1, Single { bits: DEFAULT_FONT_SIZE_BITS });
            }
        } else if same_text(operator, "TL") {
            if let Some(x) = read_first_number(operands) {
                self.graphics.leading = x;
            }
        } else if same_text(operator, "Tc") {
            if let Some(x) = read_first_number(operands) {
                self.graphics.char_spacing = x;
            }
        } else if same_text(operator, "Tw") {
            if let Some(x) = read_first_number(operands) {
                self.graphics.word_spacing = x;
            }
        } else if same_text(operator, "Tr") {
            if let Some(x) = read_first_number(operands) {
                self.graphics.rendering_mode = x.truncated();
            }
        } else if same_text(operator, "Tz") {
            if let Some(x) = read_first_number(operands) {
                if x.is_finite() {
                    self.graphics.horizontal_scale = x.over(Single { bits: HUNDRED_BITS });
                }
            }
        } else if same_text(operator, "Ts") {
            if let Some(x) = read_first_number(operands) {
                self.graphics.text_rise = x;
            }
        } else if same_text(operator, "Td") || same_text(operator, "TD") {
            if operands.len() >= 2 {
                let tx = read_number_or(operands, 0, Single::zero());
                let ty = read_number_or(operands, 1, Single::zero());
                let line = self.line_matrix;
                self.set_line(
                    Matrix {
                        e: line.e.plus(tx.times(line.a).plus(ty.times(line.c))),
                        f: line.f.plus(tx.times(line.b).plus(ty.times(line.d))),
                        ..line
                    },
                );
                if same_text(operator, "TD") {
                    self.graphics.leading = ty.negated();
                }
            }
        } else if same_text(operator, "Tm") {
            if operands.len() >= 6 {
                self.set_line(read_matrix_or(operands, Matrix::identity()));
            }
        } else if same_text(operator, "T*") {
            self.move_to_next_line();
        } else {
            self.observe_fill(operator, operands);
        }
    }

    /// Follows the operators that set the fill colour.
    fn observe_fill(&mut self, operator: &str, operands: &Vec<PdfObject>)
        requires
            operator@ != "q"@,
            operator@ != "Q"@,
            operator@ != "BT"@,
            operator@ != "ET"@,
            operator@ != "Tf"@,
            operator@ != "TL"@,
            operator@ != "Tc"@,
            operator@ != "Tw"@,
            operator@ != "Tr"@,
            operator@ != "Tz"@,
            operator@ != "Ts"@,
            operator@ != "Td"@,
            operator@ != "TD"@,
            operator@ != "Tm"@,
            operator@ != "T*"@,
            !WalkView::shows_text(operator@),
            operator@ != "TJ"@,
        ensures
            final(self)@ == old(self)@.stepped(operator@, nodes(operands@)),
    {
        if same_text(operator, "g") {
            if let Some(x) = read_first_number(operands) {
                self.graphics.fill_is_white = is_whitish(x);
            }
        } else if same_text(operator, "rg") {
            if operands.len() >= 3 {
                let zero = Single::zero();
                self.graphics.fill_is_white = is_whitish(read_number_or(operands, 0, zero)) && is_whitish(
                    read_number_or(operands, 1, zero),
                ) && is_whitish(read_number_or(operands, 2, zero));
            }
        } else if same_text(operator, "k") {
            if operands.len() >= 4 {
                let one = Single::one();
                self.graphics.fill_is_white = is_inkless(read_number_or(operands, 0, one)) && is_inkless(
                    read_number_or(operands, 1, one),
                ) && is_inkless(read_number_or(operands, 2, one)) && is_inkless(read_number_or(operands, 3, one));
            }
        } else if same_text(operator, "sc") || same_text(operator, "scn") {
            let numbers = read_numbers(operands);
            self.graphics.fill_is_white = if numbers.len() == 3 {
                is_whitish(numbers[0]) && is_whitish(numbers[1]) && is_whitish(numbers[2])
            } else if numbers.len() == 4 {
                is_inkless(numbers[0]) && is_inkless(numbers[1]) && is_inkless(numbers[2]) && is_inkless(numbers[3])
            } else {
                false
            };
        }
    }

    /// Sets the transformation to a product that was asked for.
    pub fn set_ctm(&mut self, product: Matrix)
        ensures
            final(self)@ == old(self)@.with_graphics(GraphicsView { ctm: product, ..old(self)@.graphics }),
    {
        self.graphics.ctm = product;
    }

    /// The text matrix at an offset along the line.
    pub fn text_matrix_at(&self, offset: Single) -> (r: Matrix)
        ensures
            r == advanced(self@.text_matrix, offset, self@.graphics.horizontal_scale),
    {
        let text = self.text_matrix;
        let step = offset.times(self.graphics.horizontal_scale);
        Matrix { e: text.e.plus(step.times(text.a)), f: text.f.plus(step.times(text.b)), ..text }
    }

    /// Moves the cursor along its line by an advance in text space.
    pub fn advance(&mut self, advance: Single)
        ensures
            final(self)@ == (WalkView {
                text_matrix: advanced(old(self).text_matrix, advance, old(self).graphics.horizontal_scale),
                ..old(self)@
            }),
    {
        self.text_matrix = self.text_matrix_at(advance);
    }
}

/// A restore right behind a save gives the whole state back.
pub proof fn law_restore_undoes_save(walk: WalkView, saving: Seq<Node>, restoring: Seq<Node>)
    ensures
        walk.stepped("q"@, saving).stepped("Q"@, restoring) == walk,
{
    lemma_operators_differ("q"@);
    reveal_strlit("q");
    reveal_strlit("Q");
    assert("q"@[0] != "Q"@[0]);
    assert(walk.saved.push(walk.graphics).drop_last() =~= walk.saved);
    assert(walk.stepped("q"@, saving).stepped("Q"@, restoring) =~= walk);
}

/// Whatever an operator does, it changes neither how deep the form is nested
/// nor whether invisible text is asked for, and suppressed text that was seen
/// stays seen.
pub proof fn law_walk_keeps_its_frame(
    walk: WalkView,
    operator: Seq<char>,
    operands: Seq<Node>,
    tables: PaintTables,
)
    ensures
        walk.after(operator, operands, tables).depth == walk.depth,
        walk.after(operator, operands, tables).include_invisible == walk.include_invisible,
        walk.skipped_invisible ==> walk.after(operator, operands, tables).skipped_invisible,
{
}

/// The operator shows a text that is not empty, which is suppressed.
pub open spec fn suppresses(walk: WalkView, operator: Seq<char>, operands: Seq<Node>) -> bool {
    &&& walk.in_text_block && walk.suppressed() && operands.len() > 0
    &&& (WalkView::shows_text(operator) && has_bytes(operands.last())) || (operator == "TJ"@ && (operands[0] matches Node::Array(
        items,
    ) && any_bytes(items)))
}

/// An operator is told to have suppressed text exactly where it has.
pub proof fn law_suppressed_text_is_told(
    walk: WalkView,
    operator: Seq<char>,
    operands: Seq<Node>,
    tables: PaintTables,
)
    ensures
        walk.after(operator, operands, tables).skipped_invisible == (walk.skipped_invisible || suppresses(
            walk,
            operator,
            operands,
        )),
{
    lemma_operators_differ(operator);
}

/// The operators that ask for something outside.
pub open spec fn paints(operator: Seq<char>) -> bool {
    operator == "cm"@ || operator == "Do"@ || WalkView::shows_text(operator) || operator == "TJ"@
}

/// The operators that only set state.
pub open spec fn sets_state(operator: Seq<char>) -> bool {
    ||| operator == "q"@
    ||| operator == "Q"@
    ||| operator == "BT"@
    ||| operator == "ET"@
    ||| operator == "Tf"@
    ||| operator == "TL"@
    ||| operator == "Tc"@
    ||| operator == "Tw"@
    ||| operator == "Tr"@
    ||| operator == "Tz"@
    ||| operator == "Ts"@
    ||| operator == "Td"@
    ||| operator == "TD"@
    ||| operator == "Tm"@
    ||| operator == "T*"@
    ||| operator == "g"@
    ||| operator == "rg"@
    ||| operator == "k"@
    ||| operator == "sc"@
    ||| operator == "scn"@
}

/// The operators that paint or transform are none of those that set state, and
/// differ from one another.
proof fn lemma_operators_differ(operator: Seq<char>)
    ensures
        paints(operator) ==> !sets_state(operator),
        operator == "cm"@ ==> operator != "Do"@ && !WalkView::shows_text(operator) && operator != "TJ"@,
        operator == "Do"@ ==> !WalkView::shows_text(operator) && operator != "TJ"@,
        WalkView::shows_text(operator) ==> operator != "TJ"@,
{
    reveal_strlit("cm");
    reveal_strlit("Do");
    reveal_strlit("Tj");
    reveal_strlit("'");
    reveal_strlit("\"");
    reveal_strlit("TJ");
    reveal_strlit("q");
    reveal_strlit("Q");
    reveal_strlit("BT");
    reveal_strlit("ET");
    reveal_strlit("Tf");
    reveal_strlit("TL");
    reveal_strlit("Tc");
    reveal_strlit("Tw");
    reveal_strlit("Tr");
    reveal_strlit("Tz");
    reveal_strlit("Ts");
    reveal_strlit("Td");
    reveal_strlit("TD");
    reveal_strlit("Tm");
    reveal_strlit("T*");
    reveal_strlit("g");
    reveal_strlit("rg");
    reveal_strlit("k");
    reveal_strlit("sc");
    reveal_strlit("scn");
    assert("cm"@[0] == 'c' && "cm"@[1] == 'm');
    assert("Do"@[0] == 'D' && "Do"@[1] == 'o');
    assert("Tj"@[0] == 'T' && "Tj"@[1] == 'j');
    assert("'"@[0] == '\'');
    assert("\""@[0] == '"');
    assert("TJ"@[0] == 'T' && "TJ"@[1] == 'J');
    assert("q"@[0] == 'q');
    assert("Q"@[0] == 'Q');
    assert("BT"@[0] == 'B' && "BT"@[1] == 'T');
    assert("ET"@[0] == 'E' && "ET"@[1] == 'T');
    assert("Tf"@[0] == 'T' && "Tf"@[1] == 'f');
    assert("TL"@[0] == 'T' && "TL"@[1] == 'L');
    assert("Tc"@[0] == 'T' && "Tc"@[1] == 'c');
    assert("Tw"@[0] == 'T' && "Tw"@[1] == 'w');
    assert("Tr"@[0] == 'T' && "Tr"@[1] == 'r');
    assert("Tz"@[0] == 'T' && "Tz"@[1] == 'z');
    assert("Ts"@[0] == 'T' && "Ts"@[1] == 's');
    assert("Td"@[0] == 'T' && "Td"@[1] == 'd');
    assert("TD"@[0] == 'T' && "TD"@[1] == 'D');
    assert("Tm"@[0] == 'T' && "Tm"@[1] == 'm');
    assert("T*"@[0] == 'T' && "T*"@[1] == '*');
    assert("g"@[0] == 'g');
    assert("rg"@[0] == 'r' && "rg"@[1] == 'g');
    assert("k"@[0] == 'k');
    assert("sc"@[0] == 's' && "sc"@[1] == 'c');
    assert("scn"@[0] == 's' && "scn"@[1] == 'c');
}

} // verus!
