//! What holds of show arrays, and of the images and texts of a form.

use crate::extractor::form_run::unit_box;
use crate::extractor::form_text::{
    adjusted, array_state, displacement, empty_array, fallback_advance, final_parts, image_item, image_text, run_item,
    shown, space_threshold, with_parts, with_text, ArraySetting, ArrayState, ElementView, ExtractedView, FontFace,
    ImageBox, PlacedRun, ShowSetting, SubRunView,
};
use crate::extractor::form_walk::{WalkView, COLUMN_SPACES_BITS, THOUSAND_BITS};
use crate::extractor::text_moves::{exactly, Affine};
use crate::extractor::text_paint::Matrix;
use crate::fractions::{
    fits, fraction, law_fractions_add_exactly, law_fractions_compare, law_fractions_divide_exactly,
    law_fractions_multiply_exactly, law_fractions_negate_exactly, law_fractions_subtract_exactly,
    law_one_and_zero_multiply, law_products_are_ordered, whole,
};
use crate::markdown::cleaning::visible;
use crate::single::{Single, ONE_BITS};
use crate::text::trimmed;
use crate::types::ItemKind;
use crate::unicode::white_space;
use vstd::prelude::*;

verus! {

/// The texts of elements, one behind the other.
pub open spec fn shown_text(elements: Seq<ElementView>, n: nat) -> Seq<char>
    decreases n,
{
    if n == 0 {
        Seq::empty()
    } else {
        let before = shown_text(elements, (n - 1) as nat);
        match elements[n - 1] {
            ElementView::Shown { decoded: Some((text, _)), .. } => before + text,
            _ => before,
        }
    }
}

/// The texts of parts, one behind the other.
pub open spec fn parts_text(parts: Seq<SubRunView>) -> Seq<char>
    decreases parts.len(),
{
    if parts.len() == 0 {
        Seq::empty()
    } else {
        parts_text(parts.drop_last()) + parts.last().text
    }
}

proof fn lemma_visible_sum(a: Seq<char>, b: Seq<char>)
    ensures
        visible(a + b) == visible(a) + visible(b),
    decreases b.len(),
{
    if b.len() == 0 {
        assert(a + b =~= a);
        assert(visible(a) + visible(b) =~= visible(a));
    } else {
        lemma_visible_sum(a, b.drop_last());
        assert((a + b).drop_last() =~= a + b.drop_last());
        if !white_space(b.last()) {
            assert(visible(a + b) =~= visible(a) + visible(b));
        }
    }
}

proof fn lemma_parts_pushed(parts: Seq<SubRunView>, part: SubRunView)
    ensures
        visible(parts_text(parts.push(part))) == visible(parts_text(parts)) + visible(part.text),
{
    assert(parts.push(part).drop_last() =~= parts);
    lemma_visible_sum(parts_text(parts), part.text);
}

proof fn lemma_state_text(elements: Seq<ElementView>, setting: ArraySetting, n: nat)
    requires
        n <= elements.len(),
        !setting.hidden,
    ensures
        ({
            let state = array_state(elements, setting, n);
            visible(parts_text(state.runs)) + visible(state.text) == visible(shown_text(elements, n))
        }),
    decreases n,
{
    if n > 0 {
        lemma_state_text(elements, setting, (n - 1) as nat);
        let before = array_state(elements, setting, (n - 1) as nat);
        let after = array_state(elements, setting, n);
        match elements[n - 1] {
            ElementView::Adjust(x) => {
                if after.runs != before.runs {
                    lemma_parts_pushed(before.runs, crate::extractor::form_text::open_part(before));
                    assert(visible(after.text) =~= Seq::empty());
                    assert(visible(parts_text(after.runs)) + visible(after.text) =~= visible(
                        parts_text(before.runs),
                    ) + visible(before.text));
                } else if after.text != before.text {
                    assert(after.text.drop_last() =~= before.text);
                }
            },
            ElementView::Shown { painted, width, estimate, decoded } => {
                if let Some((text, _)) = decoded {
                    lemma_visible_sum(before.text, text);
                    lemma_visible_sum(shown_text(elements, (n - 1) as nat), text);
                    assert(visible(parts_text(before.runs)) + (visible(before.text) + visible(text)) =~= (visible(
                        parts_text(before.runs),
                    ) + visible(before.text)) + visible(text));
                }
            },
        }
    } else {
        assert(visible(parts_text(empty_array().runs)) + visible(empty_array().text) =~= Seq::empty());
    }
}

proof fn lemma_blank_is_invisible(s: Seq<char>)
    requires
        trimmed(s).len() == 0,
    ensures
        visible(s) == Seq::<char>::empty(),
{
    crate::markdown::cleaning::law_trimming_keeps_the_visible(s);
    assert(trimmed(s) =~= Seq::empty());
}

/// A show array loses no character of its texts and invents none but spaces:
/// its parts say, one behind the other, what its texts say.
pub proof fn law_arrays_say_what_their_texts_say(elements: Seq<ElementView>, setting: ArraySetting)
    requires
        !setting.hidden,
    ensures
        visible(parts_text(final_parts(array_state(elements, setting, elements.len()), false))) == visible(
            shown_text(elements, elements.len()),
        ),
{
    lemma_state_text(elements, setting, elements.len());
    let state = array_state(elements, setting, elements.len());
    if trimmed(state.text).len() > 0 {
        lemma_parts_pushed(state.runs, crate::extractor::form_text::open_part(state));
    } else {
        lemma_blank_is_invisible(state.text);
        assert(visible(parts_text(state.runs)) + visible(state.text) =~= visible(parts_text(state.runs)));
    }
}

/// How far an adjustment sets texts apart: not at all, as words, as columns.
pub open spec fn separation(before: ArrayState, after: ArrayState) -> int {
    if after.runs.len() > before.runs.len() {
        2
    } else if after.text != before.text {
        1
    } else {
        0
    }
}

/// The thresholds are positive, and a column is not narrower than a space.
pub proof fn law_columns_are_wider_than_spaces(setting: ArraySetting)
    requires
        space_threshold(setting.metrics).spec_finite(),
        space_threshold(setting.metrics).spec_times(Single { bits: COLUMN_SPACES_BITS }).spec_finite(),
    ensures
        ({
            let space = space_threshold(setting.metrics);
            &&& (Single { bits: 0 }).spec_less(space)
            &&& space.spec_at_most(space.spec_times(Single { bits: COLUMN_SPACES_BITS }))
        }),
{
    let space = space_threshold(setting.metrics);
    let one = Single { bits: ONE_BITS };
    law_products_are_ordered(one, Single { bits: COLUMN_SPACES_BITS }, space);
    law_one_and_zero_multiply(space);
}

/// A wider gap sets texts apart no less than a narrower one, and an adjustment
/// that goes back never does.
pub proof fn law_wider_gaps_separate_no_less(state: ArrayState, setting: ArraySetting, wide: Single, narrow: Single)
    requires
        wide.spec_at_most(narrow),
        space_threshold(setting.metrics).spec_finite(),
        space_threshold(setting.metrics).spec_times(Single { bits: COLUMN_SPACES_BITS }).spec_finite(),
    ensures
        separation(state, adjusted(state, narrow, setting)) <= separation(state, adjusted(state, wide, setting)),
        (Single { bits: 0 }).spec_at_most(narrow) ==> separation(state, adjusted(state, narrow, setting)) == 0,
        separation(state, adjusted(state, narrow, setting)) == 1 ==> adjusted(state, narrow, setting).text
            == state.text.push(' '),
{
    law_columns_are_wider_than_spaces(setting);
    assert(state.text.push(' ').len() != state.text.len());
}

/// An adjustment of whole thousands moves the pen back by as many times the
/// font size.
pub proof fn law_adjustments_count_in_thousandths_of_the_size(n: Single, size: Single, q: int, s: int, k: nat)
    requires
        whole(n, 1000 * q),
        fraction(size, s, k),
        fits(q),
        fits(q * s),
        k <= 149,
    ensures
        fraction(displacement(n, size), -(q * s), k),
{
    lemma_thousand();
    law_fractions_negate_exactly(n, 1000 * q, 0);
    assert(-(1000 * q) == (-q) * 1000);
    law_fractions_divide_exactly(n.spec_negated(), Single { bits: THOUSAND_BITS }, -q, 1000, 0, 0);
    let part = n.spec_negated().spec_over(Single { bits: THOUSAND_BITS });
    assert((-q) * s == -(q * s)) by (nonlinear_arith);
    law_fractions_multiply_exactly(part, size, -q, s, 0, k);
}

proof fn lemma_thousand()
    ensures
        whole(Single { bits: THOUSAND_BITS }, 1000),
{
    vstd::arithmetic::power2::lemma2_to64();
    let f = crate::ieee::single_format();
    crate::ieee::lemma_format_bounds(f);
    let m: nat = 0x447a_0000;
    vstd::arithmetic::div_mod::lemma_fundamental_div_mod_converse(0x447a_0000, 0x80_0000, 136, 0x7a_0000);
    assert(f.scale(m) == 135);
    assert(f.significand(m) == 0xfa_0000);
    vstd::arithmetic::power2::lemma_pow2_adds(14, 135);
    assert(0xfa_0000 == 1000 * 0x4000);
    assert(f.units(m) == 1000 * vstd::arithmetic::power2::pow2(149)) by (nonlinear_arith)
        requires
            f.units(m) == 0xfa_0000 * vstd::arithmetic::power2::pow2(135),
            vstd::arithmetic::power2::pow2(149) == 0x4000 * vstd::arithmetic::power2::pow2(135),
    ;
    assert(vstd::arithmetic::power2::pow2(0) == 1);
}

/// A part starts where its first glyph is painted: behind the adjustments ahead
/// of it. It ends where the pen stands behind its last glyph, and the pen goes
/// on from there.
pub proof fn law_parts_start_at_their_first_glyph(
    state: ArrayState,
    setting: ArraySetting,
    n: Single,
    width: Single,
    estimate: Single,
    text: Seq<char>,
)
    requires
        setting.metrics is Some,
        !setting.hidden,
        !state.painted,
        state.text.len() == 0,
        trimmed(text).len() > 0,
    ensures
        ({
            let moved = adjusted(state, n, setting);
            let after = shown(moved, true, Some(width), estimate, Some((text, false)), setting);
            let part = final_parts(after, false).last();
            &&& part.text == text
            &&& part.start == state.total.spec_plus(displacement(n, setting.font_size))
            &&& part.end == part.start.spec_plus(width)
            &&& after.total == part.end
            &&& final_parts(after, false).len() == state.runs.len() + 1
        }),
{
    assert(state.text + text =~= text);
}

/// A part whose font has no metrics is never given an advance against its
/// estimate.
pub proof fn law_estimates_keep_their_direction(start: Single, end: Single, estimate: Single)
    requires
        !estimate.spec_nan(),
        !estimate.spec_zero(),
    ensures
        fallback_advance(start, end, estimate, false) matches Some(x) && ((Single { bits: 0 }).spec_less(estimate)
            ==> (Single { bits: 0 }).spec_less(x)) && !x.spec_zero(),
        fallback_advance(start, end, estimate, true) == Some(end.spec_minus(start)),
{
}

/// The least and the greatest of four numbers.
pub open spec fn least(a: int, b: int, c: int, d: int) -> int {
    let x = if a < b {
        a
    } else {
        b
    };
    let y = if c < d {
        c
    } else {
        d
    };
    if x < y {
        x
    } else {
        y
    }
}

pub open spec fn greatest(a: int, b: int, c: int, d: int) -> int {
    -least(-a, -b, -c, -d)
}

/// The box of an image is the closest one around the four corners of the unit
/// square, wherever the transformation takes them.
pub proof fn law_images_fill_the_unit_square(ctm: Matrix, m: Affine, k: nat)
    requires
        exactly(ctm, m, k, k),
        fits(m.a + m.e),
        fits(m.c + m.e),
        fits(m.a + m.c),
        fits(m.across(1, 1)),
        fits(m.b + m.f),
        fits(m.d + m.f),
        fits(m.b + m.d),
        fits(m.up(1, 1)),
        fits(m.e),
        fits(m.f),
        k <= 149,
        fits(
            greatest(m.across(0, 0), m.across(1, 0), m.across(0, 1), m.across(1, 1)) - least(
                m.across(0, 0),
                m.across(1, 0),
                m.across(0, 1),
                m.across(1, 1),
            ),
        ),
        fits(
            greatest(m.up(0, 0), m.up(1, 0), m.up(0, 1), m.up(1, 1)) - least(
                m.up(0, 0),
                m.up(1, 0),
                m.up(0, 1),
                m.up(1, 1),
            ),
        ),
    ensures
        ({
            let left = least(m.across(0, 0), m.across(1, 0), m.across(0, 1), m.across(1, 1));
            let right = greatest(m.across(0, 0), m.across(1, 0), m.across(0, 1), m.across(1, 1));
            let bottom = least(m.up(0, 0), m.up(1, 0), m.up(0, 1), m.up(1, 1));
            let top = greatest(m.up(0, 0), m.up(1, 0), m.up(0, 1), m.up(1, 1));
            &&& fraction(unit_box(ctm).x, left, k)
            &&& fraction(unit_box(ctm).y, bottom, k)
            &&& fraction(unit_box(ctm).width, right - left, k)
            &&& fraction(unit_box(ctm).height, top - bottom, k)
        }),
{
    assert(m.across(0, 0) == m.e && m.across(1, 0) == m.a + m.e && m.across(0, 1) == m.c + m.e && m.across(1, 1) == m.a
        + m.c + m.e);
    assert(m.up(0, 0) == m.f && m.up(1, 0) == m.b + m.f && m.up(0, 1) == m.d + m.f && m.up(1, 1) == m.b + m.d + m.f);
    lemma_corners(ctm.a, ctm.c, ctm.e, m.a, m.c, m.e, k);
    lemma_corners(ctm.b, ctm.d, ctm.f, m.b, m.d, m.f, k);
}

proof fn lemma_corners(across: Single, up: Single, origin: Single, a: int, c: int, e: int, k: nat)
    requires
        fraction(across, a, k),
        fraction(up, c, k),
        fraction(origin, e, k),
        fits(a + e),
        fits(c + e),
        fits(a + c),
        fits(a + c + e),
        fits(greatest(e, a + e, c + e, a + c + e) - least(e, a + e, c + e, a + c + e)),
        k <= 149,
    ensures
        ({
            let low = crate::extractor::form_run::low_corner(across, up, origin);
            let high = crate::extractor::form_run::high_corner(across, up, origin);
            let left = least(e, a + e, c + e, a + c + e);
            let right = greatest(e, a + e, c + e, a + c + e);
            &&& fraction(low, left, k)
            &&& fraction(high, right, k)
            &&& fraction(high.spec_minus(low), right - left, k)
        }),
{
    let first = across.spec_plus(origin);
    let second = up.spec_plus(origin);
    let third = across.spec_plus(up).spec_plus(origin);
    law_fractions_add_exactly(across, origin, a, e, k);
    law_fractions_add_exactly(up, origin, c, e, k);
    law_fractions_add_exactly(across, up, a, c, k);
    law_fractions_add_exactly(across.spec_plus(up), origin, a + c, e, k);
    law_fractions_compare(origin, first, e, a + e, k);
    let l1 = if e < a + e {
        e
    } else {
        a + e
    };
    let h1 = if e < a + e {
        a + e
    } else {
        e
    };
    law_fractions_compare(origin.spec_min(first), second, l1, c + e, k);
    law_fractions_compare(origin.spec_max(first), second, h1, c + e, k);
    let l2 = if l1 < c + e {
        l1
    } else {
        c + e
    };
    let h2 = if h1 < c + e {
        c + e
    } else {
        h1
    };
    law_fractions_compare(origin.spec_min(first).spec_min(second), third, l2, a + c + e, k);
    law_fractions_compare(origin.spec_max(first).spec_max(second), third, h2, a + c + e, k);
    law_fractions_subtract_exactly(
        crate::extractor::form_run::high_corner(across, up, origin),
        crate::extractor::form_run::low_corner(across, up, origin),
        greatest(e, a + e, c + e, a + c + e),
        least(e, a + e, c + e, a + c + e),
        k,
    );
}

/// An image is told by its name, keeps its box and is no text.
pub proof fn law_images_are_told_by_their_name(name: Seq<char>, other: Seq<char>, place: ImageBox, page: u32)
    ensures
        image_text(name) == image_text(other) ==> name == other,
        image_item(name, place, page).item_type == ItemKind::Image,
        image_item(name, place, page).x == place.x,
        image_item(name, place, page).y == place.y,
        image_item(name, place, page).width == place.width,
        image_item(name, place, page).height == place.height,
        image_item(name, place, page).page == page,
{
    reveal_strlit("[Image: ");
    reveal_strlit("]");
    if image_text(name) == image_text(other) {
        assert(image_text(name).len() == name.len() + 9);
        assert(image_text(other).len() == other.len() + 9);
        assert(name =~= image_text(name).subrange(8, 8 + name.len() as int));
        assert(other =~= image_text(other).subrange(8, 8 + other.len() as int));
    }
}

/// Every run of a show array becomes one item behind those before it, with its
/// text and its box, and what was there stays.
pub proof fn law_every_run_becomes_one_item(
    before: ExtractedView,
    runs: Seq<PlacedRun>,
    face: FontFace,
    walk: WalkView,
    setting: ShowSetting,
    backward_jump: bool,
    n: nat,
)
    requires
        n <= runs.len(),
    ensures
        ({
            let items = with_parts(before, runs, face, walk, setting, backward_jump, n).extracted.items;
            &&& items.len() == before.items.len() + n
            &&& forall|i: int| 0 <= i < before.items.len() ==> #[trigger] items[i] == before.items[i]
            &&& forall|i: int|
                0 <= i < n ==> {
                    let item = #[trigger] items[before.items.len() + i];
                    &&& item.text == runs[i].expanded@
                    &&& item.x == runs[i].x && item.y == runs[i].y
                    &&& item.width == runs[i].width && item.height == runs[i].height
                    &&& item.rotation == runs[i].rotation
                    &&& item.page == setting.page && item.font_size == setting.rendered_size
                    &&& item.font_tag == walk.graphics.font && item.font == face.item_font@
                    &&& face.bold ==> item.is_bold
                    &&& item.is_italic == face.italic
                }
        }),
    decreases n,
{
    if n > 0 {
        law_every_run_becomes_one_item(before, runs, face, walk, setting, backward_jump, (n - 1) as nat);
        let items = with_parts(before, runs, face, walk, setting, backward_jump, n).extracted.items;
        let old_items = with_parts(before, runs, face, walk, setting, backward_jump, (n - 1) as nat).extracted.items;
        assert(items == old_items.push(run_item(runs[n - 1], face, walk, setting)));
        assert forall|i: int| 0 <= i < n implies ({
            let item = #[trigger] items[before.items.len() + i];
            &&& item.text == runs[i].expanded@
            &&& item.x == runs[i].x && item.y == runs[i].y
            &&& item.width == runs[i].width && item.height == runs[i].height
            &&& item.rotation == runs[i].rotation
            &&& item.page == setting.page && item.font_size == setting.rendered_size
            &&& item.font_tag == walk.graphics.font && item.font == face.item_font@
            &&& face.bold ==> item.is_bold
            &&& item.is_italic == face.italic
        }) by {
            if i < n - 1 {
                assert(items[before.items.len() + i] == old_items[before.items.len() + i]);
            }
        }
    }
}

/// Only runs that may be stored right to left count as evidence for the order
/// of storage, and each names its own item.
pub proof fn law_candidates_name_their_runs(
    before: ExtractedView,
    runs: Seq<PlacedRun>,
    face: FontFace,
    walk: WalkView,
    setting: ShowSetting,
    backward_jump: bool,
    n: nat,
    c: int,
)
    requires
        n <= runs.len(),
        before.items.len() + n <= usize::MAX,
        before.rtl_visual_candidates.len() <= c,
        c < with_parts(before, runs, face, walk, setting, backward_jump, n).extracted.rtl_visual_candidates.len(),
    ensures
        ({
            let after = with_parts(before, runs, face, walk, setting, backward_jump, n).extracted;
            let i = after.rtl_visual_candidates[c] - before.items.len();
            &&& 0 <= i < n
            &&& runs[i].rtl_candidate
            &&& !backward_jump
        }),
    decreases n,
{
    if n > 0 {
        law_every_run_becomes_one_item(before, runs, face, walk, setting, backward_jump, (n - 1) as nat);
        let old_state = with_parts(before, runs, face, walk, setting, backward_jump, (n - 1) as nat).extracted;
        if c < old_state.rtl_visual_candidates.len() {
            law_candidates_name_their_runs(before, runs, face, walk, setting, backward_jump, (n - 1) as nat, c);
        }
    }
}

/// A shown text becomes one item, one baseline angle and at most one vote on
/// the order of storage; a mirrored line votes for logical order and any other
/// names the item.
pub proof fn law_shown_text_counts_once(
    before: ExtractedView,
    run: PlacedRun,
    face: FontFace,
    walk: WalkView,
    setting: ShowSetting,
    combined: Matrix,
    angle: Single,
)
    requires
        before.items.len() < usize::MAX,
    ensures
        ({
            let after = with_text(before, run, face, walk, setting, combined, angle);
            &&& after.items.len() == before.items.len() + 1
            &&& after.items.drop_last() == before.items
            &&& after.items.last().text == run.expanded@
            &&& after.items.last().x == run.x && after.items.last().y == run.y
            &&& after.run_rotations == before.run_rotations.push(angle)
            &&& !run.rtl_candidate ==> after.rtl_visual_candidates == before.rtl_visual_candidates
                && after.rtl_logical_ops == before.rtl_logical_ops
            &&& after.rtl_visual_candidates != before.rtl_visual_candidates ==> after.rtl_visual_candidates
                == before.rtl_visual_candidates.push((after.items.len() - 1) as usize) && after.rtl_logical_ops
                == before.rtl_logical_ops
            &&& after.skipped_invisible == before.skipped_invisible
        }),
{
    let after = with_text(before, run, face, walk, setting, combined, angle);
    assert(after.items.drop_last() =~= before.items);
}

} // verus!
