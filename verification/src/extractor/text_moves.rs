//! Where the operators of a content stream put text.
//!
//! A transformation takes points of one space to points of another. These laws
//! say of each operator which points end up where.

use crate::extractor::form_walk::{advanced, GraphicsView, WalkView};
use crate::extractor::text_paint::{Matrix, PaintTables};
use crate::fractions::{
    fits, fraction, law_fractions_add_exactly, law_fractions_multiply_exactly, law_one_and_zero_multiply,
    law_zero_adds_nothing,
};
use crate::pdf::{number_of, Node};
use crate::single::{law_sum_and_product_commute, Single, ONE_BITS};
use vstd::prelude::*;

verus! {

/// A transformation with whole coefficients.
pub struct Affine {
    pub a: int,
    pub b: int,
    pub c: int,
    pub d: int,
    pub e: int,
    pub f: int,
}

impl Affine {
    /// Where a point goes, across.
    pub open spec fn across(self, x: int, y: int) -> int {
        self.a * x + self.c * y + self.e
    }

    /// Where a point goes, up.
    pub open spec fn up(self, x: int, y: int) -> int {
        self.b * x + self.d * y + self.f
    }
}

/// The transformation is exactly the one with these coefficients: over `2^j`
/// where they scale and over `2^k` where they shift.
pub open spec fn exactly(m: Matrix, n: Affine, j: nat, k: nat) -> bool {
    &&& fraction(m.a, n.a, j)
    &&& fraction(m.b, n.b, j)
    &&& fraction(m.c, n.c, j)
    &&& fraction(m.d, n.d, j)
    &&& fraction(m.e, n.e, k)
    &&& fraction(m.f, n.f, k)
}

/// The sum of two products is held exactly, with a third number added or not.
pub open spec fn sum_fits(a: int, x: int, c: int, y: int, e: int) -> bool {
    &&& fits(a * x)
    &&& fits(c * y)
    &&& fits(a * x + c * y)
    &&& fits(a * x + c * y + e)
}

/// The same transformation, signs of zeros aside.
pub open spec fn same_matrix(m: Matrix, n: Matrix) -> bool {
    &&& m.a.spec_same(n.a)
    &&& m.b.spec_same(n.b)
    &&& m.c.spec_same(n.c)
    &&& m.d.spec_same(n.d)
    &&& m.e.spec_same(n.e)
    &&& m.f.spec_same(n.f)
}

/// The transformation that moves by an offset.
pub open spec fn translation(x: Single, y: Single) -> Matrix {
    let zero = Single { bits: 0 };
    let one = Single { bits: ONE_BITS };
    Matrix { a: one, b: zero, c: zero, d: one, e: x, f: y }
}

/// The operands start with these numbers.
pub open spec fn numbers(operands: Seq<Node>, values: Seq<Single>) -> bool {
    &&& operands.len() >= values.len()
    &&& forall|i: int| 0 <= i < values.len() ==> number_of(operands[i]) == Some(#[trigger] values[i])
}

/// The names of the operators differ.
pub(crate) proof fn lemma_operator_names()
    ensures
        "q"@.len() == 1 && "q"@[0] == 'q',
        "Q"@.len() == 1 && "Q"@[0] == 'Q',
        "BT"@.len() == 2 && "BT"@[0] == 'B' && "BT"@[1] == 'T',
        "ET"@.len() == 2 && "ET"@[0] == 'E' && "ET"@[1] == 'T',
        "Tf"@.len() == 2 && "Tf"@[0] == 'T' && "Tf"@[1] == 'f',
        "TL"@.len() == 2 && "TL"@[0] == 'T' && "TL"@[1] == 'L',
        "Tc"@.len() == 2 && "Tc"@[0] == 'T' && "Tc"@[1] == 'c',
        "Tw"@.len() == 2 && "Tw"@[0] == 'T' && "Tw"@[1] == 'w',
        "Tr"@.len() == 2 && "Tr"@[0] == 'T' && "Tr"@[1] == 'r',
        "Tz"@.len() == 2 && "Tz"@[0] == 'T' && "Tz"@[1] == 'z',
        "Ts"@.len() == 2 && "Ts"@[0] == 'T' && "Ts"@[1] == 's',
        "Td"@.len() == 2 && "Td"@[0] == 'T' && "Td"@[1] == 'd',
        "TD"@.len() == 2 && "TD"@[0] == 'T' && "TD"@[1] == 'D',
        "Tm"@.len() == 2 && "Tm"@[0] == 'T' && "Tm"@[1] == 'm',
        "T*"@.len() == 2 && "T*"@[0] == 'T' && "T*"@[1] == '*',
        "Tj"@.len() == 2 && "Tj"@[0] == 'T' && "Tj"@[1] == 'j',
        "TJ"@.len() == 2 && "TJ"@[0] == 'T' && "TJ"@[1] == 'J',
        "'"@.len() == 1 && "'"@[0] == '\'',
        "\""@.len() == 1 && "\""@[0] == '"',
        "g"@.len() == 1 && "g"@[0] == 'g',
        "rg"@.len() == 2 && "rg"@[0] == 'r' && "rg"@[1] == 'g',
        "k"@.len() == 1 && "k"@[0] == 'k',
        "sc"@.len() == 2 && "sc"@[0] == 's' && "sc"@[1] == 'c',
        "scn"@.len() == 3 && "scn"@[0] == 's',
        "cm"@.len() == 2 && "cm"@[0] == 'c' && "cm"@[1] == 'm',
        "Do"@.len() == 2 && "Do"@[0] == 'D' && "Do"@[1] == 'o',
{
    reveal_strlit("q");
    reveal_strlit("Q");
    reveal_strlit("BT");
    reveal_strlit("ET");
    reveal_strlit("Tf");
    reveal_strlit("TL");
    reveal_strlit("Tc");
    reveal_strlit("Tw");
    reveal_strlit("Tr");
    reveal_strlit("Tz");
    reveal_strlit("Ts");
    reveal_strlit("Td");
    reveal_strlit("TD");
    reveal_strlit("Tm");
    reveal_strlit("T*");
    reveal_strlit("Tj");
    reveal_strlit("TJ");
    reveal_strlit("'");
    reveal_strlit("\"");
    reveal_strlit("g");
    reveal_strlit("rg");
    reveal_strlit("k");
    reveal_strlit("sc");
    reveal_strlit("scn");
    reveal_strlit("cm");
    reveal_strlit("Do");
}

proof fn lemma_sum_of_products(
    a: Single,
    x: Single,
    c: Single,
    y: Single,
    e: Single,
    m: int,
    u: int,
    n: int,
    v: int,
    w: int,
    j: nat,
    i: nat,
)
    requires
        fraction(a, m, j),
        fraction(x, u, i),
        fraction(c, n, j),
        fraction(y, v, i),
        fraction(e, w, i + j),
        sum_fits(m, u, n, v, w),
        i + j <= 149,
    ensures
        fraction(x.spec_times(a).spec_plus(y.spec_times(c)), m * u + n * v, i + j),
        fraction(e.spec_plus(x.spec_times(a).spec_plus(y.spec_times(c))), m * u + n * v + w, i + j),
        fraction(x.spec_times(a).spec_plus(y.spec_times(c)).spec_plus(e), m * u + n * v + w, i + j),
{
    assert(m * u == u * m && n * v == v * n) by (nonlinear_arith);
    law_fractions_multiply_exactly(x, a, u, m, i, j);
    law_fractions_multiply_exactly(y, c, v, n, i, j);
    let first = x.spec_times(a);
    let second = y.spec_times(c);
    law_fractions_add_exactly(first, second, m * u, n * v, i + j);
    law_fractions_add_exactly(e, first.spec_plus(second), w, m * u + n * v, i + j);
    law_fractions_add_exactly(first.spec_plus(second), e, m * u + n * v, w, i + j);
}

/// After `tx ty Td` a point of text space is where the point further on by the
/// offset was before: the offset counts in text space, so the line matrix
/// scales and turns it. Text starts at the new line.
pub proof fn law_line_moves_count_in_text_space(
    walk: WalkView,
    operands: Seq<Node>,
    tables: PaintTables,
    tx: Single,
    ty: Single,
    line: Affine,
    x: int,
    y: int,
    j: nat,
    i: nat,
    px: int,
    py: int,
)
    requires
        numbers(operands, seq![tx, ty]),
        exactly(walk.line_matrix, line, j, i + j),
        fraction(tx, x, i),
        fraction(ty, y, i),
        sum_fits(line.a, x, line.c, y, line.e),
        sum_fits(line.b, x, line.d, y, line.f),
        i + j <= 149,
    ensures
        ({
            let after = walk.after("Td"@, operands, tables);
            let moved = Affine { e: line.across(x, y), f: line.up(x, y), ..line };
            &&& exactly(after.line_matrix, moved, j, i + j)
            &&& moved.across(px, py) == line.across(px + x, py + y)
            &&& moved.up(px, py) == line.up(px + x, py + y)
            &&& after.text_matrix == after.line_matrix
        }),
{
    lemma_operator_names();
    assert(number_of(operands[0]) == Some(seq![tx, ty][0]));
    assert(number_of(operands[1]) == Some(seq![tx, ty][1]));
    let m = walk.line_matrix;
    lemma_sum_of_products(m.a, tx, m.c, ty, m.e, line.a, x, line.c, y, line.e, j, i);
    lemma_sum_of_products(m.b, tx, m.d, ty, m.f, line.b, x, line.d, y, line.f, j, i);
    let moved = Affine { e: line.across(x, y), f: line.up(x, y), ..line };
    assert(moved.across(px, py) == line.across(px + x, py + y)) by (nonlinear_arith)
        requires
            moved.across(px, py) == line.a * px + line.c * py + (line.a * x + line.c * y + line.e),
            line.across(px + x, py + y) == line.a * (px + x) + line.c * (py + y) + line.e,
    ;
    assert(moved.up(px, py) == line.up(px + x, py + y)) by (nonlinear_arith)
        requires
            moved.up(px, py) == line.b * px + line.d * py + (line.b * x + line.d * y + line.f),
            line.up(px + x, py + y) == line.b * (px + x) + line.d * (py + y) + line.f,
    ;
}

/// The number that a unit and a zero pick.
proof fn lemma_picks(a: Single, c: Single)
    requires
        a.spec_finite(),
        c.spec_finite(),
    ensures
        ({
            let one = Single { bits: ONE_BITS };
            let zero = Single { bits: 0 };
            &&& one.spec_times(a).spec_plus(zero.spec_times(c)).spec_same(a)
            &&& zero.spec_times(c).spec_plus(one.spec_times(a)).spec_same(a)
            &&& a.spec_times(one).spec_plus(c.spec_times(zero)).spec_same(a)
            &&& c.spec_times(zero).spec_plus(a.spec_times(one)).spec_same(a)
        }),
{
    law_one_and_zero_multiply(a);
    law_one_and_zero_multiply(c);
    let one = Single { bits: ONE_BITS };
    let zero = Single { bits: 0 };
    law_zero_adds_nothing(one.spec_times(a), zero.spec_times(c));
    law_zero_adds_nothing(a.spec_times(one), c.spec_times(zero));
}

/// `tx ty Td` puts the translation by the offset in front of the line matrix,
/// for all finite numbers.
pub proof fn law_line_moves_are_translations(
    walk: WalkView,
    operands: Seq<Node>,
    tables: PaintTables,
    tx: Single,
    ty: Single,
)
    requires
        numbers(operands, seq![tx, ty]),
        walk.line_matrix.spec_finite(),
    ensures
        ({
            let after = walk.after("Td"@, operands, tables).line_matrix;
            let product = translation(tx, ty).spec_times(walk.line_matrix);
            &&& after.e == product.e
            &&& after.f == product.f
            &&& after.a.spec_same(product.a)
            &&& after.b.spec_same(product.b)
            &&& after.c.spec_same(product.c)
            &&& after.d.spec_same(product.d)
        }),
{
    lemma_operator_names();
    assert(number_of(operands[0]) == Some(seq![tx, ty][0]));
    assert(number_of(operands[1]) == Some(seq![tx, ty][1]));
    let m = walk.line_matrix;
    law_sum_and_product_commute(m.e, tx.spec_times(m.a).spec_plus(ty.spec_times(m.c)));
    law_sum_and_product_commute(m.f, tx.spec_times(m.b).spec_plus(ty.spec_times(m.d)));
    lemma_picks(m.a, m.c);
    lemma_picks(m.b, m.d);
    lemma_picks(m.c, m.a);
    lemma_picks(m.d, m.b);
}

/// Adding a product to a number, with or without a product with zero.
proof fn lemma_idle_product(e: Single, a: Single, step: Single)
    requires
        e.spec_finite(),
        a.spec_finite(),
        !step.spec_nan(),
    ensures
        e.spec_plus((Single { bits: 0 }).spec_times(a).spec_plus(step)).spec_same(e.spec_plus(step)),
        e.spec_plus(step.spec_plus((Single { bits: 0 }).spec_times(a))).spec_same(e.spec_plus(step)),
{
    let idle = (Single { bits: 0 }).spec_times(a);
    law_one_and_zero_multiply(a);
    law_zero_adds_nothing(step, idle);
    if step.spec_zero() {
        law_zero_adds_nothing(e, step);
        law_zero_adds_nothing(e, idle.spec_plus(step));
        law_zero_adds_nothing(e, step.spec_plus(idle));
    } else if step.spec_finite() {
        crate::single::lemma_sum_is_a_number(e, step);
    } else {
        lemma_infinite_sums(e, step);
    }
}

proof fn lemma_infinite_sums(e: Single, step: Single)
    requires
        e.spec_finite(),
        !step.spec_finite(),
        !step.spec_nan(),
    ensures
        e.spec_plus(step) == step,
{
    crate::ieee::lemma_format_bounds(crate::ieee::single_format());
    reveal(Single::spec_plus);
}

proof fn lemma_finite_product(a: Single, b: Single)
    requires
        a.spec_finite(),
        b.spec_finite(),
    ensures
        !a.spec_times(b).spec_nan(),
{
    crate::ieee::lemma_format_bounds(crate::ieee::single_format());
    reveal(Single::spec_times);
}

/// `T*` with a leading is `0 -leading Td`, for every finite line matrix.
pub proof fn law_next_line_is_a_move_by_the_leading(
    walk: WalkView,
    nothing: Seq<Node>,
    operands: Seq<Node>,
    tables: PaintTables,
)
    requires
        walk.line_matrix.spec_finite(),
        walk.graphics.leading.spec_finite(),
        !walk.graphics.leading.spec_zero(),
        numbers(operands, seq![Single { bits: 0 }, walk.graphics.leading.spec_negated()]),
    ensures
        same_matrix(
            walk.after("T*"@, nothing, tables).line_matrix,
            walk.after("Td"@, operands, tables).line_matrix,
        ),
        walk.after("T*"@, nothing, tables).text_matrix == walk.after("T*"@, nothing, tables).line_matrix,
{
    lemma_operator_names();
    let down = walk.graphics.leading.spec_negated();
    let values = seq![Single { bits: 0 }, down];
    assert(number_of(operands[0]) == Some(values[0]));
    assert(number_of(operands[1]) == Some(values[1]));
    let m = walk.line_matrix;
    lemma_finite_product(down, m.c);
    lemma_finite_product(down, m.d);
    lemma_idle_product(m.e, m.a, down.spec_times(m.c));
    lemma_idle_product(m.f, m.b, down.spec_times(m.d));
}

/// A line move counts from the start of the line: what was shown on it, and how
/// far the cursor went, does not matter.
pub proof fn law_line_moves_forget_the_cursor(
    walk: WalkView,
    cursor: Matrix,
    operator: Seq<char>,
    operands: Seq<Node>,
    tables: PaintTables,
)
    requires
        operator == "Td"@ || operator == "TD"@ || operator == "T*"@ || operator == "'"@ || operator == "\""@,
        operator == "Td"@ || operator == "TD"@ ==> operands.len() >= 2,
    ensures
        (WalkView { text_matrix: cursor, ..walk }).after(operator, operands, tables) == walk.after(
            operator,
            operands,
            tables,
        ),
        walk.after(operator, operands, tables).text_matrix == walk.after(operator, operands, tables).line_matrix,
{
    lemma_operator_names();
}

/// `Tm` sets both matrices to its six operands, whatever they were.
pub proof fn law_text_matrix_is_set_by_its_operands(
    walk: WalkView,
    operands: Seq<Node>,
    tables: PaintTables,
    m: Matrix,
)
    requires
        numbers(operands, seq![m.a, m.b, m.c, m.d, m.e, m.f]),
    ensures
        walk.after("Tm"@, operands, tables).line_matrix == m,
        walk.after("Tm"@, operands, tables).text_matrix == m,
{
    lemma_operator_names();
    let values = seq![m.a, m.b, m.c, m.d, m.e, m.f];
    assert(number_of(operands[0]) == Some(values[0]));
    assert(number_of(operands[1]) == Some(values[1]));
    assert(number_of(operands[2]) == Some(values[2]));
    assert(number_of(operands[3]) == Some(values[3]));
    assert(number_of(operands[4]) == Some(values[4]));
    assert(number_of(operands[5]) == Some(values[5]));
}

/// The first move of a text object puts the line at its operands, unscaled.
pub proof fn law_first_move_places_the_line(
    walk: WalkView,
    nothing: Seq<Node>,
    operands: Seq<Node>,
    tables: PaintTables,
    tx: Single,
    ty: Single,
)
    requires
        numbers(operands, seq![tx, ty]),
        tx.spec_finite(),
        ty.spec_finite(),
    ensures
        ({
            let line = walk.after("BT"@, nothing, tables).after("Td"@, operands, tables).line_matrix;
            &&& line.e.spec_same(tx)
            &&& line.f.spec_same(ty)
            &&& line.a == (Single { bits: ONE_BITS })
            &&& line.d == (Single { bits: ONE_BITS })
            &&& line.b.spec_zero()
            &&& line.c.spec_zero()
        }),
        walk.after("BT"@, nothing, tables).in_text_block,
        !walk.after("ET"@, nothing, tables).in_text_block,
{
    lemma_operator_names();
    assert(number_of(operands[0]) == Some(seq![tx, ty][0]));
    assert(number_of(operands[1]) == Some(seq![tx, ty][1]));
    let zero = Single { bits: 0 };
    let one = Single { bits: ONE_BITS };
    lemma_picks(tx, ty);
    lemma_picks(ty, tx);
    law_zero_adds_nothing(tx.spec_times(one).spec_plus(ty.spec_times(zero)), zero);
    law_zero_adds_nothing(tx.spec_times(zero).spec_plus(ty.spec_times(one)), zero);
}

/// `TD` moves as `Td` does and sets the leading, so that `T*` behind it goes
/// down by its second operand again.
pub proof fn law_setting_the_leading_repeats_the_move(
    walk: WalkView,
    operands: Seq<Node>,
    again: Seq<Node>,
    nothing: Seq<Node>,
    tables: PaintTables,
    tx: Single,
    ty: Single,
)
    requires
        numbers(operands, seq![tx, ty]),
        numbers(again, seq![Single { bits: 0 }, ty]),
        ty.spec_finite(),
        !ty.spec_zero(),
        walk.after("Td"@, operands, tables).line_matrix.spec_finite(),
    ensures
        walk.after("TD"@, operands, tables).line_matrix == walk.after("Td"@, operands, tables).line_matrix,
        same_matrix(
            walk.after("TD"@, operands, tables).after("T*"@, nothing, tables).line_matrix,
            walk.after("TD"@, operands, tables).after("Td"@, again, tables).line_matrix,
        ),
{
    lemma_operator_names();
    assert(number_of(operands[0]) == Some(seq![tx, ty][0]));
    assert(number_of(operands[1]) == Some(seq![tx, ty][1]));
    let set = walk.after("TD"@, operands, tables);
    assert(set.graphics.leading.spec_negated() == ty);
    assert(number_of(again[0]) == Some(seq![Single { bits: 0 }, ty][0]));
    assert(number_of(again[1]) == Some(seq![Single { bits: 0 }, ty][1]));
    law_next_line_is_a_move_by_the_leading(set, nothing, again, tables);
}

/// `'` is `T*` and then `Tj`.
pub proof fn law_quote_is_a_new_line_and_a_show(walk: WalkView, nothing: Seq<Node>, operands: Seq<Node>)
    ensures
        walk.stepped("'"@, operands) == walk.stepped("T*"@, nothing).stepped("Tj"@, operands),
{
    lemma_operator_names();
}

/// `aw ac string "` is `aw Tw`, `ac Tc` and then `string '`.
pub proof fn law_double_quote_sets_the_spacing_first(
    walk: WalkView,
    word: Node,
    letter: Node,
    text: Node,
    aw: Single,
    ac: Single,
)
    requires
        number_of(word) == Some(aw),
        number_of(letter) == Some(ac),
    ensures
        walk.stepped("\""@, seq![word, letter, text]) == walk.stepped("Tw"@, seq![word]).stepped(
            "Tc"@,
            seq![letter],
        ).stepped("'"@, seq![text]),
{
    lemma_operator_names();
    assert(seq![word, letter, text].last() == text);
    assert(seq![text].last() == text);
    let spaced = walk.stepped("Tw"@, seq![word]).stepped("Tc"@, seq![letter]);
    assert(walk.stepped("\""@, seq![word, letter, text]) =~= spaced.stepped("'"@, seq![text]));
}

/// The operators of the text state set what they are for, and nothing else.
pub proof fn law_text_state_is_set_one_by_one(walk: WalkView, operands: Seq<Node>, x: Single)
    requires
        numbers(operands, seq![x]),
    ensures
        walk.stepped("Tc"@, operands) == walk.with_graphics(GraphicsView { char_spacing: x, ..walk.graphics }),
        walk.stepped("Tw"@, operands) == walk.with_graphics(GraphicsView { word_spacing: x, ..walk.graphics }),
        walk.stepped("TL"@, operands) == walk.with_graphics(GraphicsView { leading: x, ..walk.graphics }),
        walk.stepped("Ts"@, operands) == walk.with_graphics(GraphicsView { text_rise: x, ..walk.graphics }),
{
    lemma_operator_names();
    assert(number_of(operands[0]) == Some(seq![x][0]));
}

/// A restore gives back the graphics that the matching save kept, whatever was
/// done to them since. The matrices of the text are not part of them.
pub proof fn law_restore_gives_back_what_was_saved(
    walk: WalkView,
    between: WalkView,
    saving: Seq<Node>,
    restoring: Seq<Node>,
)
    requires
        between.saved == walk.stepped("q"@, saving).saved,
    ensures
        between.stepped("Q"@, restoring).graphics == walk.graphics,
        between.stepped("Q"@, restoring).saved == walk.saved,
        between.stepped("Q"@, restoring).line_matrix == between.line_matrix,
        between.stepped("Q"@, restoring).text_matrix == between.text_matrix,
        walk.stepped("q"@, saving).graphics == walk.graphics,
{
    lemma_operator_names();
    assert(walk.saved.push(walk.graphics).drop_last() =~= walk.saved);
}

/// Showing text moves the cursor along its line as `Td` would by the scaled
/// advance.
pub proof fn law_advances_run_along_the_line(text: Matrix, advance: Single, scale: Single)
    requires
        text.spec_finite(),
        advance.spec_finite(),
        scale.spec_finite(),
        advance.spec_times(scale).spec_finite(),
    ensures
        same_matrix(
            advanced(text, advance, scale),
            translation(advance.spec_times(scale), Single { bits: 0 }).spec_times(text),
        ),
{
    let step = advance.spec_times(scale);
    let zero = Single { bits: 0 };
    lemma_finite_product(step, text.a);
    lemma_finite_product(step, text.b);
    lemma_idle_product(text.e, text.c, step.spec_times(text.a));
    lemma_idle_product(text.f, text.d, step.spec_times(text.b));
    law_sum_and_product_commute(text.e, step.spec_times(text.a).spec_plus(zero.spec_times(text.c)));
    law_sum_and_product_commute(text.f, step.spec_times(text.b).spec_plus(zero.spec_times(text.d)));
    lemma_picks(text.a, text.c);
    lemma_picks(text.b, text.d);
    lemma_picks(text.c, text.a);
    lemma_picks(text.d, text.b);
}

/// Two advances on one line are one advance by their sum: the cursor does not
/// care how a text is cut.
pub proof fn law_advances_add_up(
    text: Matrix,
    line: Affine,
    first: Single,
    second: Single,
    scale: Single,
    x: int,
    y: int,
    s: int,
    i: nat,
    h: nat,
    j: nat,
)
    requires
        exactly(text, line, j, i + h + j),
        fraction(first, x, i),
        fraction(second, y, i),
        fraction(scale, s, h),
        fits(x + y),
        fits(x * s),
        fits(y * s),
        fits((x + y) * s),
        fits(line.a * (x * s)),
        fits(line.b * (x * s)),
        fits(line.a * (y * s)),
        fits(line.b * (y * s)),
        fits(line.a * ((x + y) * s)),
        fits(line.b * ((x + y) * s)),
        fits(line.e + line.a * (x * s)),
        fits(line.f + line.b * (x * s)),
        fits(line.e + line.a * ((x + y) * s)),
        fits(line.f + line.b * ((x + y) * s)),
        i + h + j <= 149,
    ensures
        same_matrix(
            advanced(advanced(text, first, scale), second, scale),
            advanced(text, first.spec_plus(second), scale),
        ),
        exactly(
            advanced(text, first, scale),
            Affine { e: line.across(x * s, 0), f: line.up(x * s, 0), ..line },
            j,
            i + h + j,
        ),
{
    let k = i + h + j;
    law_fractions_add_exactly(first, second, x, y, i);
    lemma_advanced(text, line, first, scale, x, s, i, h, j);
    let once = Affine { e: line.e + line.a * (x * s), f: line.f + line.b * (x * s), ..line };
    assert(line.c * 0 == 0 && line.d * 0 == 0) by (nonlinear_arith);
    assert(once.e + once.a * (y * s) == line.e + line.a * ((x + y) * s)) by (nonlinear_arith)
        requires
            once.e == line.e + line.a * (x * s),
            once.a == line.a,
    ;
    assert(once.f + once.b * (y * s) == line.f + line.b * ((x + y) * s)) by (nonlinear_arith)
        requires
            once.f == line.f + line.b * (x * s),
            once.b == line.b,
    ;
    lemma_advanced(advanced(text, first, scale), once, second, scale, y, s, i, h, j);
    lemma_advanced(text, line, first.spec_plus(second), scale, x + y, s, i, h, j);
    let twice = advanced(advanced(text, first, scale), second, scale);
    let whole = advanced(text, first.spec_plus(second), scale);
    crate::fractions::law_fractions_are_ordered(
        twice.e,
        whole.e,
        line.e + line.a * ((x + y) * s),
        line.e + line.a * ((x + y) * s),
        k,
    );
    crate::fractions::law_fractions_are_ordered(
        twice.f,
        whole.f,
        line.f + line.b * ((x + y) * s),
        line.f + line.b * ((x + y) * s),
        k,
    );
}

proof fn lemma_advanced(
    text: Matrix,
    line: Affine,
    advance: Single,
    scale: Single,
    x: int,
    s: int,
    i: nat,
    h: nat,
    j: nat,
)
    requires
        exactly(text, line, j, i + h + j),
        fraction(advance, x, i),
        fraction(scale, s, h),
        fits(x * s),
        fits(line.a * (x * s)),
        fits(line.b * (x * s)),
        fits(line.e + line.a * (x * s)),
        fits(line.f + line.b * (x * s)),
        i + h + j <= 149,
    ensures
        exactly(
            advanced(text, advance, scale),
            Affine { e: line.e + line.a * (x * s), f: line.f + line.b * (x * s), ..line },
            j,
            i + h + j,
        ),
{
    law_fractions_multiply_exactly(advance, scale, x, s, i, h);
    let step = advance.spec_times(scale);
    let n = x * s;
    assert(line.a * n == n * line.a && line.b * n == n * line.b) by (nonlinear_arith);
    law_fractions_multiply_exactly(step, text.a, n, line.a, i + h, j);
    law_fractions_multiply_exactly(step, text.b, n, line.b, i + h, j);
    law_fractions_add_exactly(text.e, step.spec_times(text.a), line.e, line.a * n, i + h + j);
    law_fractions_add_exactly(text.f, step.spec_times(text.b), line.f, line.b * n, i + h + j);
}

/// A product of transformations applies the first and then the second: it takes
/// each point where the second takes what the first makes of it.
pub proof fn law_products_apply_one_after_the_other(
    first: Matrix,
    second: Matrix,
    m: Affine,
    n: Affine,
    i: nat,
    j: nat,
    k: nat,
    x: int,
    y: int,
)
    requires
        exactly(first, m, i, k),
        exactly(second, n, j, k + j),
        sum_fits(n.a, m.a, n.c, m.b, 0),
        sum_fits(n.b, m.a, n.d, m.b, 0),
        sum_fits(n.a, m.c, n.c, m.d, 0),
        sum_fits(n.b, m.c, n.d, m.d, 0),
        sum_fits(n.a, m.e, n.c, m.f, n.e),
        sum_fits(n.b, m.e, n.d, m.f, n.f),
        i + j <= 149,
        k + j <= 149,
        i == k,
    ensures
        ({
            let p = Affine {
                a: n.a * m.a + n.c * m.b,
                b: n.b * m.a + n.d * m.b,
                c: n.a * m.c + n.c * m.d,
                d: n.b * m.c + n.d * m.d,
                e: n.across(m.e, m.f),
                f: n.up(m.e, m.f),
            };
            &&& exactly(first.spec_times(second), p, i + j, k + j)
            &&& p.across(x, y) == n.across(m.across(x, y), m.up(x, y))
            &&& p.up(x, y) == n.up(m.across(x, y), m.up(x, y))
        }),
{
    let zero = Single { bits: 0 };
    lemma_zero_fraction(i + j);
    lemma_sum_of_products(second.a, first.a, second.c, first.b, zero, n.a, m.a, n.c, m.b, 0, j, i);
    lemma_sum_of_products(second.b, first.a, second.d, first.b, zero, n.b, m.a, n.d, m.b, 0, j, i);
    lemma_sum_of_products(second.a, first.c, second.c, first.d, zero, n.a, m.c, n.c, m.d, 0, j, i);
    lemma_sum_of_products(second.b, first.c, second.d, first.d, zero, n.b, m.c, n.d, m.d, 0, j, i);
    lemma_sum_of_products(second.a, first.e, second.c, first.f, second.e, n.a, m.e, n.c, m.f, n.e, j, k);
    lemma_sum_of_products(second.b, first.e, second.d, first.f, second.f, n.b, m.e, n.d, m.f, n.f, j, k);
    lemma_composition(n.a, n.c, n.e, m, x, y);
    lemma_composition(n.b, n.d, n.f, m, x, y);
}

proof fn lemma_composition(a: int, c: int, e: int, m: Affine, x: int, y: int)
    ensures
        (a * m.a + c * m.b) * x + (a * m.c + c * m.d) * y + (a * m.e + c * m.f + e) == a * (m.a * x + m.c * y + m.e)
            + c * (m.b * x + m.d * y + m.f) + e,
{
    lemma_distributes(a, m.a, c, m.b, x);
    lemma_distributes(a, m.c, c, m.d, y);
    assert(a * (m.a * x + m.c * y + m.e) == a * (m.a * x) + a * (m.c * y) + a * m.e) by (nonlinear_arith);
    assert(c * (m.b * x + m.d * y + m.f) == c * (m.b * x) + c * (m.d * y) + c * m.f) by (nonlinear_arith);
}

proof fn lemma_distributes(a: int, m: int, c: int, n: int, x: int)
    ensures
        (a * m + c * n) * x == a * (m * x) + c * (n * x),
{
    assert((a * m + c * n) * x == a * (m * x) + c * (n * x)) by (nonlinear_arith);
}

proof fn lemma_zero_fraction(k: nat)
    ensures
        fraction(Single { bits: 0 }, 0, k),
{
    crate::fractions::law_zero_and_one_are_whole();
    crate::fractions::law_fractions_extend(Single { bits: 0 }, 0, 0, k);
    assert(0 * vstd::arithmetic::power2::pow2(k) == 0);
}

/// The identity is neutral in products of finite transformations.
pub proof fn law_identity_changes_no_transformation(m: Matrix)
    requires
        m.spec_finite(),
    ensures
        same_matrix(Matrix::spec_identity().spec_times(m), m),
        same_matrix(m.spec_times(Matrix::spec_identity()), m),
{
    let one = Single { bits: ONE_BITS };
    let zero = Single { bits: 0 };
    lemma_picks(m.a, m.c);
    lemma_picks(m.b, m.d);
    lemma_picks(m.c, m.a);
    lemma_picks(m.d, m.b);
    lemma_picks(m.a, m.b);
    lemma_picks(m.b, m.a);
    lemma_picks(m.c, m.d);
    lemma_picks(m.d, m.c);
    lemma_picks(m.e, m.f);
    lemma_picks(m.f, m.e);
    law_one_and_zero_multiply(m.a);
    law_one_and_zero_multiply(m.b);
    law_one_and_zero_multiply(m.c);
    law_one_and_zero_multiply(m.d);
    law_zero_adds_nothing(zero.spec_times(m.a), zero.spec_times(m.c));
    law_zero_adds_nothing(zero.spec_times(m.b), zero.spec_times(m.d));
    law_zero_adds_nothing(m.e, zero.spec_times(m.a).spec_plus(zero.spec_times(m.c)));
    law_zero_adds_nothing(m.f, zero.spec_times(m.b).spec_plus(zero.spec_times(m.d)));
    law_zero_adds_nothing(m.e.spec_times(one).spec_plus(m.f.spec_times(zero)), zero);
    law_zero_adds_nothing(m.e.spec_times(zero).spec_plus(m.f.spec_times(one)), zero);
}

/// A rise moves the origin up in text space: as the translation by it would.
pub proof fn law_rise_is_a_translation_up(m: Matrix, rise: Single)
    requires
        m.spec_finite(),
        rise.spec_finite(),
    ensures
        ({
            let product = translation(Single { bits: 0 }, rise).spec_times(m);
            same_matrix(m.spec_raised(rise), product)
        }),
{
    let zero = Single { bits: 0 };
    lemma_finite_product(rise, m.c);
    lemma_finite_product(rise, m.d);
    lemma_idle_product(m.e, m.a, rise.spec_times(m.c));
    lemma_idle_product(m.f, m.b, rise.spec_times(m.d));
    law_sum_and_product_commute(m.e, zero.spec_times(m.a).spec_plus(rise.spec_times(m.c)));
    law_sum_and_product_commute(m.f, zero.spec_times(m.b).spec_plus(rise.spec_times(m.d)));
    lemma_picks(m.a, m.c);
    lemma_picks(m.b, m.d);
    lemma_picks(m.c, m.a);
    lemma_picks(m.d, m.b);
}

} // verus!
