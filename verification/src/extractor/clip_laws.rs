//! What clips and paint owe to the operators that set them.

use crate::extractor::clip_boundaries::{all_numbers, separated, Clip, ClipRect, ClipState, TOLERANCE_BITS};
use crate::extractor::text_paint::{Matrix, PaintTables, TextPaint, LEAST_STROKE_BITS};
use crate::fractions::{
    fits, fraction, law_bits_hold_a_fraction, law_fractions_add_exactly, law_fractions_are_ordered,
    law_fractions_compare, law_fractions_extend, law_fractions_multiply_exactly, law_fractions_subtract_exactly,
    law_sums_are_ordered, law_sums_grow, law_zero_and_one_are_whole, whole,
};
use crate::pdf::{number_of, Node};
use crate::single::Single;
use crate::types::ItemView;
use vstd::arithmetic::power2::lemma2_to64;
use vstd::prelude::*;

verus! {

/// The smaller of two integers.
pub open spec fn lesser(a: int, b: int) -> int {
    if a < b {
        a
    } else {
        b
    }
}

/// The larger of two integers.
pub open spec fn greater(a: int, b: int) -> int {
    if a < b {
        b
    } else {
        a
    }
}

/// A rectangle clips to where its corners come to stand: both edges are scaled
/// and moved, and a mirrored rectangle keeps its sides in order.
pub proof fn law_clips_stand_where_their_path_does(
    operands: Seq<Node>,
    ctm: Matrix,
    x: int,
    y: int,
    w: int,
    h: int,
    sx: int,
    sy: int,
    dx: int,
    dy: int,
)
    requires
        operands.len() == 4,
        all_numbers(operands),
        whole(number_of(operands[0])->0, x),
        whole(number_of(operands[1])->0, y),
        whole(number_of(operands[2])->0, w),
        whole(number_of(operands[3])->0, h),
        whole(ctm.a, sx),
        whole(ctm.d, sy),
        whole(ctm.e, dx),
        whole(ctm.f, dy),
        ctm.b.spec_zero(),
        ctm.c.spec_zero(),
        fits(x + w),
        fits(y + h),
        fits(sx * x),
        fits(sx * (x + w)),
        fits(sy * y),
        fits(sy * (y + h)),
        fits(sx * x + dx),
        fits(sx * (x + w) + dx),
        fits(sy * y + dy),
        fits(sy * (y + h) + dy),
        sx * w != 0,
        sy * h != 0,
    ensures
        match ClipRect::spec_from_path(operands, ctm) {
            Some(rect) => {
                &&& whole(rect.left, lesser(sx * x, sx * (x + w)) + dx)
                &&& whole(rect.right, greater(sx * x, sx * (x + w)) + dx)
                &&& whole(rect.bottom, lesser(sy * y, sy * (y + h)) + dy)
                &&& whole(rect.top, greater(sy * y, sy * (y + h)) + dy)
            },
            None => false,
        },
{
    let a = number_of(operands[0])->0;
    let b = number_of(operands[1])->0;
    let c = number_of(operands[2])->0;
    let d = number_of(operands[3])->0;
    lemma_edges(a, c, ctm.a, ctm.e, x, w, sx, dx);
    lemma_edges(b, d, ctm.d, ctm.f, y, h, sy, dy);
}

proof fn lemma_edges(start: Single, length: Single, scale: Single, shift: Single, x: int, w: int, s: int, d: int)
    requires
        whole(start, x),
        whole(length, w),
        whole(scale, s),
        whole(shift, d),
        fits(x + w),
        fits(s * x),
        fits(s * (x + w)),
        fits(s * x + d),
        fits(s * (x + w) + d),
        s * w != 0,
    ensures
        ({
            let p = scale.spec_times(start).spec_plus(shift);
            let q = scale.spec_times(start.spec_plus(length)).spec_plus(shift);
            &&& p.spec_finite() && q.spec_finite()
            &&& whole(p.spec_min(q), lesser(s * x, s * (x + w)) + d)
            &&& whole(p.spec_max(q), greater(s * x, s * (x + w)) + d)
            &&& p.spec_min(q).spec_less(p.spec_max(q))
        }),
{
    law_fractions_add_exactly(start, length, x, w, 0);
    law_fractions_multiply_exactly(scale, start, s, x, 0, 0);
    law_fractions_multiply_exactly(scale, start.spec_plus(length), s, x + w, 0, 0);
    law_fractions_add_exactly(scale.spec_times(start), shift, s * x, d, 0);
    law_fractions_add_exactly(scale.spec_times(start.spec_plus(length)), shift, s * (x + w), d, 0);
    let p = scale.spec_times(start).spec_plus(shift);
    let q = scale.spec_times(start.spec_plus(length)).spec_plus(shift);
    assert(s * (x + w) == s * x + s * w) by (nonlinear_arith);
    law_fractions_compare(p, q, s * x + d, s * (x + w) + d, 0);
    law_fractions_are_ordered(
        p.spec_min(q),
        p.spec_max(q),
        lesser(s * x, s * (x + w)) + d,
        greater(s * x, s * (x + w)) + d,
        0,
    );
}

/// The point lies in the rectangle.
pub open spec fn covers(rect: ClipRect, x: Single, y: Single) -> bool {
    rect.left.spec_at_most(x) && x.spec_at_most(rect.right) && rect.bottom.spec_at_most(y) && y.spec_at_most(rect.top)
}

/// What two clips share is what lies in both of them.
pub proof fn law_shared_clips_cover_what_both_cover(a: ClipRect, b: ClipRect, x: Single, y: Single)
    requires
        a.finite(),
        b.finite(),
        a.spec_intersection(b) is Some,
    ensures
        covers(a.spec_intersection(b)->0, x, y) <==> covers(a, x, y) && covers(b, x, y),
{
}

proof fn lemma_clip_operators()
    ensures
        "q"@ =~= seq!['q'],
        "Q"@ =~= seq!['Q'],
        "cm"@ =~= seq!['c', 'm'],
        "re"@ =~= seq!['r', 'e'],
        "m"@ =~= seq!['m'],
        "l"@ =~= seq!['l'],
        "c"@ =~= seq!['c'],
        "v"@ =~= seq!['v'],
        "y"@ =~= seq!['y'],
        "h"@ =~= seq!['h'],
        "W"@ =~= seq!['W'],
        "W*"@ =~= seq!['W', '*'],
        "n"@ =~= seq!['n'],
        "f"@ =~= seq!['f'],
{
    reveal_strlit("q");
    reveal_strlit("Q");
    reveal_strlit("cm");
    reveal_strlit("re");
    reveal_strlit("m");
    reveal_strlit("l");
    reveal_strlit("c");
    reveal_strlit("v");
    reveal_strlit("y");
    reveal_strlit("h");
    reveal_strlit("W");
    reveal_strlit("W*");
    reveal_strlit("n");
    reveal_strlit("f");
}

proof fn lemma_clip_steps(state: ClipState, operands: Seq<Node>, ctm: Matrix)
    ensures
        state.after("W"@, operands, ctm) == (ClipState { pending: true, ..state }),
        state.after("W*"@, operands, ctm) == (ClipState { pending: true, ..state }),
        !state.pending ==> state.after("n"@, operands, ctm) == (ClipState { path: None, ..state }),
        state.pending ==> state.after("n"@, operands, ctm) == (ClipState {
            active: crate::extractor::clip_boundaries::joined(state.active, state.path),
            path: None,
            pending: false,
            ..state
        }),
        state.path is None ==> state.after("re"@, operands, ctm).path == Some(
            match ClipRect::spec_from_path(operands, ctm) {
                Some(rect) => Clip::Rect(rect),
                None => Clip::Unknown,
            },
        ),
        state.after("re"@, operands, ctm) == (ClipState { path: state.after("re"@, operands, ctm).path, ..state }),
{
    lemma_clip_operators();
    assert("W"@[0] == 'W' && "W"@.len() == 1);
    assert("W*"@[0] == 'W' && "W*"@.len() == 2);
    assert("n"@[0] == 'n' && "n"@.len() == 1);
    assert("re"@[0] == 'r' && "re"@.len() == 2);
    assert("q"@[0] == 'q' && "Q"@[0] == 'Q' && "cm"@[0] == 'c');
    assert("m"@[0] == 'm' && "l"@[0] == 'l' && "c"@.len() == 1 && "c"@[0] == 'c' && "v"@[0] == 'v' && "y"@[0] == 'y'
        && "h"@[0] == 'h');
}

/// A rectangle that is marked as a clip narrows what is painted once its path
/// ends, from nothing known to itself, and from another rectangle to what the
/// two share; without the mark the path changes nothing.
pub proof fn law_marked_paths_clip(
    state: ClipState,
    operands: Seq<Node>,
    ctm: Matrix,
    rect: ClipRect,
    none: Seq<Node>,
    other: Matrix,
)
    requires
        state.path is None,
        !state.pending,
        ClipRect::spec_from_path(operands, ctm) == Some(rect),
    ensures
        ({
            let drawn = state.after("re"@, operands, ctm);
            let marked = drawn.after("W"@, none, other).after("n"@, none, other);
            let unmarked = drawn.after("n"@, none, other);
            &&& unmarked == state
            &&& state.active is Unbounded ==> marked.active == Clip::Rect(rect)
            &&& state.active is Unknown ==> marked.active == Clip::Unknown
            &&& (state.active matches Clip::Rect(old) ==> old.spec_intersection(rect) is Some ==> marked.active
                == Clip::Rect(old.spec_intersection(rect)->0))
            &&& marked.saved == state.saved && marked.path is None && !marked.pending
        }),
{
    lemma_clip_steps(state, operands, ctm);
    let drawn = state.after("re"@, operands, ctm);
    lemma_clip_steps(drawn, none, other);
    lemma_clip_steps(drawn.after("W"@, none, other), none, other);
}

proof fn lemma_tolerance()
    ensures
        fraction(Single { bits: TOLERANCE_BITS }, 0xa3_d70a, 30),
        (Single { bits: 0 }).spec_less(Single { bits: TOLERANCE_BITS }),
        (Single { bits: TOLERANCE_BITS }).spec_at_most(Single { bits: 0x3f00_0000 }),
        fraction(Single { bits: 0x3f00_0000 }, 1, 1),
{
    lemma2_to64();
    law_bits_hold_a_fraction(Single { bits: TOLERANCE_BITS }, 120, 0xa3_d70a, 0, 30);
    law_bits_hold_a_fraction(Single { bits: 0x3f00_0000 }, 126, 1, 23, 1);
}

/// A whole number with the tolerance on top stays below the next one.
proof fn lemma_slack(a: Single, b: Single, m: int, n: int)
    requires
        whole(a, m),
        whole(b, n),
        fits(2 * m + 1),
        fits(2 * n),
    ensures
        m < n ==> a.spec_plus(Single { bits: TOLERANCE_BITS }).spec_less(b),
        n <= m ==> b.spec_at_most(a.spec_plus(Single { bits: TOLERANCE_BITS })),
{
    lemma_tolerance();
    lemma2_to64();
    let slack = Single { bits: TOLERANCE_BITS };
    let half = Single { bits: 0x3f00_0000 };
    law_fractions_are_ordered(b, a, n, m, 0);
    law_sums_grow(a, slack);
    law_sums_are_ordered(slack, half, a);
    law_fractions_extend(a, m, 0, 1);
    law_fractions_extend(b, n, 0, 1);
    law_fractions_add_exactly(a, half, 2 * m, 1, 1);
    law_fractions_are_ordered(a.spec_plus(half), b, 2 * m + 1, 2 * n, 1);
}

/// Clips that meet or overlap separate nothing; runs inside clips that are a
/// point or more apart are separate, whichever of them comes first.
pub proof fn law_clips_apart_separate_their_runs(
    previous: ItemView,
    previous_clip: ClipRect,
    next: ItemView,
    next_clip: ClipRect,
    left: int,
    right: int,
    other_left: int,
    other_right: int,
)
    requires
        whole(previous_clip.left, left),
        whole(previous_clip.right, right),
        whole(next_clip.left, other_left),
        whole(next_clip.right, other_right),
        fits(2 * left),
        fits(2 * right + 1),
        fits(2 * other_left),
        fits(2 * other_right + 1),
    ensures
        other_left <= right && left <= other_right ==> !separated(previous, previous_clip, next, next_clip),
        (right < other_left || other_right < left) && previous_clip.holds(previous) && next_clip.holds(next) ==> separated(
            previous,
            previous_clip,
            next,
            next_clip,
        ),
        separated(previous, previous_clip, next, next_clip) <==> separated(next, next_clip, previous, previous_clip),
        separated(previous, previous_clip, next, next_clip) ==> previous_clip.holds(previous) && next_clip.holds(next),
{
    lemma_slack(previous_clip.right, next_clip.left, right, other_left);
    lemma_slack(next_clip.right, previous_clip.left, other_right, left);
}

/// A clip holds the upright runs of known length that lie in it, and none that
/// reaches a point beyond one of its sides.
pub proof fn law_clips_hold_what_lies_in_them(
    clip: ClipRect,
    item: ItemView,
    left: int,
    bottom: int,
    right: int,
    top: int,
    x: int,
    y: int,
    w: int,
)
    requires
        whole(clip.left, left),
        whole(clip.bottom, bottom),
        whole(clip.right, right),
        whole(clip.top, top),
        whole(item.x, x),
        whole(item.y, y),
        whole(item.width, w),
        item.is_upright(),
        item.advance_known,
        w > 0,
        fits(2 * left - 1),
        fits(2 * left + 1),
        fits(2 * bottom - 1),
        fits(2 * bottom + 1),
        fits(2 * right + 1),
        fits(2 * top + 1),
        fits(2 * x),
        fits(2 * y),
        fits(2 * (x + w)),
    ensures
        clip.holds(item) <==> left <= x && x + w <= right && bottom <= y && y <= top,
{
    law_zero_and_one_are_whole();
    law_fractions_are_ordered(Single { bits: 0 }, item.width, 0, w, 0);
    law_fractions_add_exactly(item.x, item.width, x, w, 0);
    let end = item.x.spec_plus(item.width);
    lemma_slack(clip.right, end, right, x + w);
    lemma_slack(clip.top, item.y, top, y);
    lemma_slack_below(clip.left, item.x, left, x);
    lemma_slack_below(clip.bottom, item.y, bottom, y);
}

proof fn lemma_slack_below(a: Single, b: Single, m: int, n: int)
    requires
        whole(a, m),
        whole(b, n),
        fits(2 * m - 1),
        fits(2 * n),
    ensures
        a.spec_minus(Single { bits: TOLERANCE_BITS }).spec_at_most(b) <==> m <= n,
{
    lemma_tolerance();
    lemma2_to64();
    let slack = Single { bits: TOLERANCE_BITS };
    let half = Single { bits: 0x3f00_0000 };
    let zero = Single { bits: 0 };
    law_fractions_are_ordered(a, b, m, n, 0);
    crate::fractions::law_fractions_negate_exactly(slack, 0xa3_d70a, 30);
    crate::fractions::law_fractions_negate_exactly(half, 1, 1);
    law_sums_are_ordered(half.spec_negated(), slack.spec_negated(), a);
    law_sums_are_ordered(slack.spec_negated(), zero, a);
    law_sums_grow(a, zero);
    law_fractions_extend(a, m, 0, 1);
    law_fractions_extend(b, n, 0, 1);
    law_fractions_subtract_exactly(a, half, 2 * m, 1, 1);
    law_fractions_are_ordered(b, a.spec_minus(half), 2 * n, 2 * m - 1, 1);
}

proof fn lemma_paint_operators()
    ensures
        "Tr"@ =~= seq!['T', 'r'],
        "w"@ =~= seq!['w'],
        "d"@ =~= seq!['d'],
        "gs"@ =~= seq!['g', 's'],
        "cs"@ =~= seq!['c', 's'],
        "CS"@ =~= seq!['C', 'S'],
        "g"@ =~= seq!['g'],
        "rg"@ =~= seq!['r', 'g'],
        "k"@ =~= seq!['k'],
        "G"@ =~= seq!['G'],
        "RG"@ =~= seq!['R', 'G'],
        "K"@ =~= seq!['K'],
{
    reveal_strlit("Tr");
    reveal_strlit("w");
    reveal_strlit("d");
    reveal_strlit("gs");
    reveal_strlit("cs");
    reveal_strlit("CS");
    reveal_strlit("g");
    reveal_strlit("rg");
    reveal_strlit("k");
    reveal_strlit("G");
    reveal_strlit("RG");
    reveal_strlit("K");
}

/// The operand is this number from nothing to one.
pub open spec fn unit_operand(operand: Node, x: Single) -> bool {
    number_of(operand) == Some(x) && crate::extractor::text_paint::unit_range(x)
}

/// Gray, red, green and blue are taken in the order of the operands; the small
/// operator colours what is filled, the large one what is stroked, and neither
/// changes anything else.
pub proof fn law_colours_are_taken_in_order(
    paint: TextPaint,
    tables: PaintTables,
    operands: Seq<Node>,
    x: Single,
    y: Single,
    z: Single,
)
    requires
        operands.len() == 3,
        unit_operand(operands[0], x),
        unit_operand(operands[1], y),
        unit_operand(operands[2], z),
    ensures
        ({
            let filled = paint.after("rg"@, operands, tables);
            let stroked = paint.after("RG"@, operands, tables);
            &&& (filled.fill matches Some(c) && c.space is Rgb && c.first == x && c.second == y && c.third == z)
            &&& filled == (TextPaint { fill: filled.fill, fill_space: filled.fill_space, ..paint })
            &&& (stroked.stroke matches Some(c) && c.space is Rgb && c.first == x && c.second == y && c.third == z)
            &&& stroked == (TextPaint { stroke: stroked.stroke, stroke_space: stroked.stroke_space, ..paint })
            &&& paint.after("g"@, operands, tables).fill is None
            &&& paint.after("k"@, operands, tables).fill is None
        }),
{
    lemma_paint_operators();
    assert("rg"@[0] == 'r' && "RG"@[0] == 'R' && "g"@.len() == 1 && "k"@.len() == 1 && "g"@[0] == 'g' && "k"@[0] == 'k');
    assert("Tr"@[0] == 'T' && "w"@[0] == 'w' && "d"@[0] == 'd' && "gs"@.len() == 2 && "gs"@[0] == 'g' && "cs"@[0] == 'c'
        && "CS"@[0] == 'C' && "G"@.len() == 1 && "K"@.len() == 1 && "rg"@.len() == 2 && "RG"@.len() == 2);
}

/// A single level of gray colours what is filled, or what is stroked.
pub proof fn law_gray_is_one_level(paint: TextPaint, tables: PaintTables, operands: Seq<Node>, x: Single)
    requires
        operands.len() == 1,
        unit_operand(operands[0], x),
    ensures
        ({
            let filled = paint.after("g"@, operands, tables);
            let stroked = paint.after("G"@, operands, tables);
            &&& (filled.fill matches Some(c) && c.space is Gray && c.first == x)
            &&& filled == (TextPaint { fill: filled.fill, fill_space: filled.fill_space, ..paint })
            &&& (stroked.stroke matches Some(c) && c.space is Gray && c.first == x)
            &&& stroked == (TextPaint { stroke: stroked.stroke, stroke_space: stroked.stroke_space, ..paint })
        }),
{
    lemma_paint_operators();
    assert("g"@.len() == 1 && "g"@[0] == 'g' && "G"@.len() == 1 && "G"@[0] == 'G');
    assert("Tr"@.len() == 2 && "w"@[0] == 'w' && "d"@[0] == 'd' && "gs"@.len() == 2 && "cs"@.len() == 2 && "CS"@.len()
        == 2 && "rg"@.len() == 2 && "k"@[0] == 'k');
}

/// Text that is filled and stroked in one solid colour looks bold where the
/// stroke is a sixty-fourth of its size, and does not where it is a
/// hundred-and-twenty-eighth or less.
pub proof fn law_strokes_embolden_by_their_share(
    paint: TextPaint,
    text: Seq<char>,
    size: Single,
    font_name: Seq<char>,
    ctm: Matrix,
    scale: Single,
    s: int,
    w: int,
    k: nat,
)
    requires
        paint.rendering_mode == 2 || paint.rendering_mode == 6,
        !crate::extractor::text_paint::symbol_family(font_name),
        paint.known_compositing,
        paint.solid,
        paint.one_color(),
        crate::extractor::text_paint::has_alphanumeric(text),
        TextPaint::positive(paint.width),
        TextPaint::positive(size),
        ctm.spec_finite(),
        ctm.spec_determinant().spec_finite(),
        !ctm.spec_determinant().spec_zero(),
        fraction(size, s, k),
        fraction(paint.width.spec_times(scale), w, k),
        s > 0,
        fits(5 * s),
        fits(w),
        k + 9 <= 149,
    ensures
        64 * w >= s ==> paint.bolder(text, size, font_name, ctm, scale),
        128 * w <= s ==> !paint.bolder(text, size, font_name, ctm, scale),
{
    lemma2_to64();
    let least = Single { bits: LEAST_STROKE_BITS };
    let more = Single { bits: 0x3c80_0000 };
    let less = Single { bits: 0x3c20_0000 };
    let stroke = paint.width.spec_times(scale);
    law_bits_hold_a_fraction(least, 120, 0xa3_d70a, 0, 30);
    law_bits_hold_a_fraction(more, 121, 1, 23, 6);
    law_bits_hold_a_fraction(less, 120, 5, 21, 9);
    crate::fractions::law_products_are_ordered(least, more, size);
    crate::fractions::law_products_are_ordered(less, least, size);
    crate::single::law_sum_and_product_commute(least, size);
    crate::single::law_sum_and_product_commute(more, size);
    crate::single::law_sum_and_product_commute(less, size);
    law_fractions_multiply_exactly(size, more, s, 1, k, 6);
    law_fractions_multiply_exactly(size, less, s, 5, k, 9);
    law_fractions_extend(stroke, w, k, 6);
    law_fractions_extend(stroke, w, k, 9);
    law_fractions_are_ordered(size.spec_times(more), stroke, s, w * 64, k + 6);
    law_fractions_are_ordered(stroke, size.spec_times(less), w * 512, s * 5, k + 9);
}

} // verus!
