//! What the judgement of a picture owes to its pixels and regions.

use crate::fractions::{
    fits, fraction, law_bits_hold_a_fraction, law_fractions_are_ordered, law_fractions_divide_exactly,
    law_fractions_extend, law_fractions_multiply_exactly, law_fractions_subtract_exactly, law_integers_are_whole,
    law_quotients_are_ordered, law_zero_and_one_are_whole, whole,
};
use crate::single::{order_key, Single, ONE_BITS};
use crate::sorting::{in_order, law_sorted_is_an_ordered_permutation, stably_sorted};
use crate::vision::detection::{calls_for_escalation, longest_side, standard_downscale};
use crate::vision::image_analysis::{
    blank_row, content_row, document_like, luminance, region_tally, row_tally, sample_step, share, PixelRegion, Tally,
    BLANK_ROW_WHITE_BITS, ROW_DARK_MAXIMUM_BITS, ROW_DARK_MINIMUM_BITS, WHITE_MINIMUM_BITS,
};
use crate::vision::oar::{
    height_at, height_keys, highest_y, indices, lowest_y, spec_median_detection_height, spec_polygon_height,
    DETECTION_LIMIT_STANDARD, MAX_BITS, MIN_BITS,
};
use crate::vision::ocr::ImagePoint;
use crate::vision::render::RenderedView;
use vstd::arithmetic::power2::{lemma2_to64, pow2};
use vstd::prelude::*;

verus! {

/// A gray of three equal channels is as bright as each of them; any colour lies
/// between its darkest and its brightest channel, and a gray picture is as
/// bright as its bytes.
pub proof fn law_brightness_lies_between_the_channels(page: RenderedView, x: int, y: int, low: int, high: int)
    requires
        0 <= page.offset(x, y),
        page.offset(x, y) + page.format.channels() <= page.pixels.len(),
        low <= page.pixels[page.offset(x, y)] <= high,
        !(page.format is Gray8) ==> low <= page.pixels[page.offset(x, y) + 1] <= high && low
            <= page.pixels[page.offset(x, y) + 2] <= high,
    ensures
        low <= luminance(page, x, y) <= high,
{
}

/// Green weighs most in the brightness of a pixel, then red, then blue: a pixel
/// of one full channel is bright by six, three and one tenths of it.
pub proof fn law_channels_weigh_in_tenths(page: RenderedView, x: int, y: int, v: int)
    requires
        !(page.format is Gray8),
        0 <= page.offset(x, y),
        page.offset(x, y) + 3 <= page.pixels.len(),
    ensures
        ({
            let red = page.pixels[page.offset(x, y)] as int;
            let green = page.pixels[page.offset(x, y) + 1] as int;
            let blue = page.pixels[page.offset(x, y) + 2] as int;
            &&& red == 10 * v && green == 0 && blue == 0 ==> luminance(page, x, y) == 3 * v
            &&& red == 0 && green == 10 * v && blue == 0 ==> luminance(page, x, y) == 6 * v
            &&& red == 0 && green == 0 && blue == 10 * v ==> luminance(page, x, y) == v
        }),
{
}

/// Every pixel of the row that the step reaches is counted once: as white from
/// 235 on, as dark up to 110, and as neither in between.
pub proof fn law_rows_count_every_sample_once(page: RenderedView, y: int, x: int, x1: int, step: int)
    requires
        step >= 1,
        x <= x1,
    ensures
        ({
            let row = row_tally(page, y, x, x1, step);
            &&& (row.sampled - 1) * step < x1 - x <= row.sampled * step
            &&& row.white + row.dark <= row.sampled
            &&& (forall|i: int| x <= i < x1 ==> #[trigger] luminance(page, i, y) >= 235) ==> row.white == row.sampled
            &&& (forall|i: int| x <= i < x1 ==> #[trigger] luminance(page, i, y) < 235) ==> row.white == 0
            &&& (forall|i: int| x <= i < x1 ==> #[trigger] luminance(page, i, y) <= 110) ==> row.dark == row.sampled
            &&& (forall|i: int| x <= i < x1 ==> #[trigger] luminance(page, i, y) > 110) ==> row.dark == 0
        }),
    decreases x1 - x,
{
    if x < x1 {
        let row = row_tally(page, y, x, x1, step);
        if x + step <= x1 {
            law_rows_count_every_sample_once(page, y, x + step, x1, step);
            let rest = row_tally(page, y, x + step, x1, step);
            assert(row.sampled == rest.sampled + 1);
            assert((rest.sampled + 1) * step == rest.sampled * step + step) by (nonlinear_arith);
            assert((rest.sampled + 1 - 1) * step == (rest.sampled - 1) * step + step) by (nonlinear_arith);
        } else {
            assert(row_tally(page, y, x + step, x1, step).sampled == 0);
            assert(row.sampled == 1);
        }
        assert(luminance(page, x, y) == luminance(page, x, y));
    } else {
        assert(row_tally(page, y, x, x1, step).sampled == 0);
        assert(0 * step == 0 && (0 - 1) * step < 0) by (nonlinear_arith)
            requires
                step >= 1,
        ;
    }
}

/// A share is ordered as the fraction that it stands for.
proof fn lemma_share(part: nat, total: nat, n: int, k: nat, c: Single)
    requires
        fits(part as int),
        fits(total as int),
        total > 0,
        n > 0,
        fits(n),
        fits(n * total),
        k <= 100,
        fraction(c, n, k),
    ensures
        part * pow2(k) <= n * total ==> share(part, total).spec_at_most(c),
        n * total <= part * pow2(k) ==> c.spec_at_most(share(part, total)),
{
    law_integers_are_whole(part as i64);
    law_integers_are_whole(total as i64);
    let p = Single::spec_from_natural(part);
    let w = Single::spec_from_natural(total);
    let q = w.spec_times(c);
    let zero = Single { bits: 0 };
    assert(total * n == n * total) by (nonlinear_arith);
    law_fractions_multiply_exactly(w, c, total as int, n, 0, k);
    law_fractions_extend(p, part as int, 0, k);
    law_fractions_are_ordered(p, q, (part * pow2(k)) as int, n * total, k);
    law_fractions_are_ordered(q, p, n * total, (part * pow2(k)) as int, k);
    law_zero_and_one_are_whole();
    law_fractions_are_ordered(zero, w, 0, total as int, 0);
    law_fractions_divide_exactly(q, w, n, total as int, k, 0);
    law_fractions_are_ordered(q.spec_over(w), c, n, n, k);
    if part * pow2(k) <= n * total {
        law_quotients_are_ordered(p, q, w);
    }
    if n * total <= part * pow2(k) {
        law_quotients_are_ordered(q, p, w);
    }
}

/// A row holds text where between a sixty-fourth and a half of it is dark, and
/// does not where less than a hundred-and-twenty-eighth or more than three
/// quarters are.
pub proof fn law_rows_of_text_are_partly_dark(row: Tally)
    requires
        row.sampled > 0,
        fits(3 * row.sampled as int),
        fits(row.dark as int),
    ensures
        row.sampled <= 64 * row.dark && 2 * row.dark <= row.sampled ==> content_row(row),
        128 * row.dark <= row.sampled ==> !content_row(row),
        4 * row.dark >= 3 * row.sampled ==> !content_row(row),
{
    lemma2_to64();
    let low = Single { bits: ROW_DARK_MINIMUM_BITS };
    let high = Single { bits: ROW_DARK_MAXIMUM_BITS };
    law_bits_hold_a_fraction(low, 120, 0xa3_d70a, 0, 30);
    law_bits_hold_a_fraction(high, 126, 0xa6_6666, 0, 24);
    let sixty_fourth = Single { bits: 0x3c80_0000 };
    let half = Single { bits: 0x3f00_0000 };
    let less = Single { bits: 0x3c00_0000 };
    let more = Single { bits: 0x3f40_0000 };
    law_bits_hold_a_fraction(sixty_fourth, 121, 1, 23, 6);
    law_bits_hold_a_fraction(half, 126, 1, 23, 1);
    law_bits_hold_a_fraction(less, 120, 1, 23, 7);
    law_bits_hold_a_fraction(more, 126, 3, 22, 2);
    lemma_share(row.dark, row.sampled, 1, 6, sixty_fourth);
    lemma_share(row.dark, row.sampled, 1, 1, half);
    lemma_share(row.dark, row.sampled, 1, 7, less);
    lemma_share(row.dark, row.sampled, 3, 2, more);
}

/// A row is blank where nothing in it is dark and fifteen sixteenths are white,
/// and is not where a dark pixel stands in it or less than seven eighths are
/// white.
pub proof fn law_blank_rows_are_white(row: Tally)
    requires
        row.sampled > 0,
        fits(15 * row.sampled as int),
        fits(row.white as int),
        fits(row.dark as int),
    ensures
        row.dark == 0 && 16 * row.white >= 15 * row.sampled ==> blank_row(row),
        row.dark > 0 ==> !blank_row(row),
        8 * row.white <= 7 * row.sampled ==> !blank_row(row),
{
    lemma2_to64();
    law_bits_hold_a_fraction(Single { bits: BLANK_ROW_WHITE_BITS }, 126, 0xe6_6666, 0, 24);
    let enough = Single { bits: 0x3f70_0000 };
    let less = Single { bits: 0x3f60_0000 };
    law_bits_hold_a_fraction(enough, 126, 15, 20, 4);
    law_bits_hold_a_fraction(less, 126, 7, 21, 3);
    lemma_share(row.white, row.sampled, 15, 4, enough);
    lemma_share(row.white, row.sampled, 7, 3, less);
    law_rows_of_text_are_partly_dark(row);
}

/// No row is both text and blank, and no row counts twice.
proof fn lemma_region_rows(page: RenderedView, region: PixelRegion, y: int, step: int)
    requires
        step >= 1,
    ensures
        ({
            let found = region_tally(page, region, y, step);
            &&& found.pixels.white + found.pixels.dark <= found.pixels.sampled
            &&& (forall|x: int, v: int|
                region.x0 <= x < region.x1 && y <= v < region.y1 ==> #[trigger] luminance(page, x, v) > 110)
                ==> found.pixels.dark == 0
            &&& (forall|x: int, v: int|
                region.x0 <= x < region.x1 && y <= v < region.y1 ==> #[trigger] luminance(page, x, v) < 235)
                ==> found.pixels.white == 0
        }),
    decreases
        if y < region.y1 {
            region.y1 - y
        } else {
            0
        },
{
    if y < region.y1 {
        if region.x0 <= region.x1 {
            law_rows_count_every_sample_once(page, y, region.x0 as int, region.x1 as int, step);
        }
        lemma_region_rows(page, region, y + step, step);
    }
}

/// A picture without a dark pixel, or without a white one, is no document, and
/// neither is one of four pixels or less on a side.
pub proof fn law_documents_are_dark_on_white(page: RenderedView, region: PixelRegion, step: nat)
    requires
        step == sample_step(region),
        step >= 1,
        region_tally(page, region, region.y0 as int, step as int).pixels.sampled < 0x100_0000,
    ensures
        (forall|x: int, v: int|
            region.x0 <= x < region.x1 && region.y0 <= v < region.y1 ==> #[trigger] luminance(page, x, v) > 110)
            ==> !document_like(page, region),
        (forall|x: int, v: int|
            region.x0 <= x < region.x1 && region.y0 <= v < region.y1 ==> #[trigger] luminance(page, x, v) < 235)
            ==> !document_like(page, region),
        region.x1 <= region.x0 + 4 || region.y1 <= region.y0 + 4 ==> !document_like(page, region),
{
    lemma_region_rows(page, region, region.y0 as int, step as int);
    let found = region_tally(page, region, region.y0 as int, step as int);
    if found.pixels.sampled > 0 {
        lemma2_to64();
        let low = Single { bits: crate::vision::image_analysis::DARK_MINIMUM_BITS };
        let white = Single { bits: WHITE_MINIMUM_BITS };
        let little = Single { bits: 0x3a80_0000 };
        law_bits_hold_a_fraction(little, 117, 1, 23, 10);
        lemma_share(found.pixels.dark, found.pixels.sampled, 1, 10, little);
        lemma_share(found.pixels.white, found.pixels.sampled, 1, 10, little);
        law_bits_hold_a_fraction(low, 118, 0x83_126f, 0, 32);
        law_bits_hold_a_fraction(white, 125, 0xe6_6666, 0, 25);
    }
}

proof fn lemma_extreme_heights(points: Seq<ImagePoint>, ys: Seq<int>, n: nat) -> (r: (int, int))
    requires
        0 < n <= points.len(),
        ys.len() == points.len(),
        forall|i: int| 0 <= i < points.len() ==> whole((#[trigger] points[i]).y, ys[i]) && fits(ys[i]),
    ensures
        0 <= r.0 < n && 0 <= r.1 < n,
        lowest_y(points, n, Single { bits: MAX_BITS }) == points[r.0].y,
        highest_y(points, n, Single { bits: MIN_BITS }) == points[r.1].y,
        forall|i: int| 0 <= i < n ==> ys[r.0] <= #[trigger] ys[i] <= ys[r.1],
    decreases n,
{
    let last = n - 1;
    let y = points[last].y;
    if n == 1 {
        assert(whole(points[0].y, ys[0]));
        lemma_within_the_largest(y, ys[0]);
        assert(lowest_y(points, 0, Single { bits: MAX_BITS }) == (Single { bits: MAX_BITS }));
        assert(highest_y(points, 0, Single { bits: MIN_BITS }) == (Single { bits: MIN_BITS }));
        (0, 0)
    } else {
        let (low, high) = lemma_extreme_heights(points, ys, (n - 1) as nat);
        assert(whole(points[last].y, ys[last]));
        law_fractions_are_ordered(y, points[low].y, ys[last], ys[low], 0);
        law_fractions_are_ordered(points[high].y, y, ys[high], ys[last], 0);
        let below = if ys[last] < ys[low] {
            last
        } else {
            low
        };
        let above = if ys[last] > ys[high] {
            last
        } else {
            high
        };
        (below, above)
    }
}

proof fn lemma_within_the_largest(y: Single, n: int)
    requires
        whole(y, n),
        fits(n),
    ensures
        y.spec_less(Single { bits: MAX_BITS }),
        (Single { bits: MIN_BITS }).spec_less(y),
{
    lemma2_to64();
    let bound = Single { bits: 0x4b7f_ffff };
    law_bits_hold_a_fraction(bound, 150, 0xff_ffff, 0, 0);
    law_fractions_are_ordered(y, bound, n, 0xff_ffff, 0);
    crate::fractions::law_fractions_negate_exactly(bound, 0xff_ffff, 0);
    law_fractions_are_ordered(bound.spec_negated(), y, -0xff_ffff, n, 0);
}

/// The height of a region is the distance from its highest point to its lowest.
pub proof fn law_regions_are_as_high_as_their_points(points: Seq<ImagePoint>, ys: Seq<int>) -> (r: (int, int))
    requires
        points.len() > 0,
        ys.len() == points.len(),
        forall|i: int| 0 <= i < points.len() ==> whole((#[trigger] points[i]).y, ys[i]) && fits(ys[i]),
        forall|i: int, j: int| 0 <= i < points.len() && 0 <= j < points.len() ==> fits(#[trigger] ys[i] - #[trigger] ys[j]),
    ensures
        0 <= r.0 < points.len() && 0 <= r.1 < points.len(),
        forall|i: int| 0 <= i < points.len() ==> ys[r.0] <= #[trigger] ys[i] <= ys[r.1],
        whole(spec_polygon_height(points), ys[r.1] - ys[r.0]),
{
    let (low, high) = lemma_extreme_heights(points, ys, points.len());
    assert(whole(points[low].y, ys[low]) && whole(points[high].y, ys[high]));
    law_fractions_are_ordered(points[low].y, points[high].y, ys[low], ys[high], 0);
    assert(fits(ys[high] - ys[low]));
    law_fractions_subtract_exactly(points[high].y, points[low].y, ys[high], ys[low], 0);
    law_zero_and_one_are_whole();
    (low, high)
}

/// The picture is scaled down so that its longer side meets the limit, and is
/// never scaled up.
pub proof fn law_pictures_are_scaled_to_the_limit(width: u32, height: u32, times: nat, k: nat)
    requires
        width > 0 || height > 0,
        k <= 12,
        times == pow2(k),
        fits(longest_side(width, height) as int),
    ensures
        longest_side(width, height) == DETECTION_LIMIT_STANDARD * times ==> fraction(
            standard_downscale(width, height),
            1,
            k,
        ),
        width <= DETECTION_LIMIT_STANDARD && height <= DETECTION_LIMIT_STANDARD ==> standard_downscale(width, height)
            == (Single { bits: ONE_BITS }),
{
    let side = longest_side(width, height);
    let one = Single { bits: ONE_BITS };
    law_integers_are_whole(side as i64);
    law_integers_are_whole(DETECTION_LIMIT_STANDARD as i64);
    let s = Single::spec_from_natural(side as nat);
    let limit = Single::spec_from_natural(DETECTION_LIMIT_STANDARD as nat);
    law_zero_and_one_are_whole();
    lemma2_to64();
    law_fractions_are_ordered(Single { bits: 0 }, s, 0, side as int, 0);
    if side == DETECTION_LIMIT_STANDARD * times {
        law_fractions_extend(limit, DETECTION_LIMIT_STANDARD as int, 0, k);
        law_fractions_divide_exactly(limit, s, 1, side as int, k, 0);
        let q = limit.spec_over(s);
        law_fractions_extend(one, 1, 0, k);
        vstd::arithmetic::power2::lemma_pow2_pos(k);
        law_fractions_are_ordered(one, q, pow2(k) as int, 1, k);
    }
    if width <= DETECTION_LIMIT_STANDARD && height <= DETECTION_LIMIT_STANDARD {
        law_fractions_are_ordered(s, limit, side as int, DETECTION_LIMIT_STANDARD as int, 0);
        law_quotients_are_ordered(s, limit, s);
        law_fractions_divide_exactly(s, s, 1, side as int, 0, 0);
        law_fractions_are_ordered(s.spec_over(s), one, 1, 1, 0);
        let q = limit.spec_over(s);
        lemma_one_at_most(q);
    }
}

proof fn lemma_one_at_most(q: Single)
    requires
        (Single { bits: ONE_BITS }).spec_at_most(q),
    ensures
        q.spec_min(Single { bits: ONE_BITS }) == (Single { bits: ONE_BITS }),
{
    if !(Single { bits: ONE_BITS }).spec_less(q) {
        assert(order_key(q.bits) == order_key(ONE_BITS));
        assert(q.bits == ONE_BITS);
    }
}

/// A picture that fits the limit is never looked at more closely.
pub proof fn law_small_pictures_are_never_escalated(regions: Seq<Seq<ImagePoint>>, width: u32, height: u32)
    requires
        0 < width <= DETECTION_LIMIT_STANDARD,
        0 < height <= DETECTION_LIMIT_STANDARD,
    ensures
        !calls_for_escalation(regions, width, height),
{
    lemma2_to64();
    law_pictures_are_scaled_to_the_limit(width, height, 1, 0);
}

/// The heights ascend with their rank.
pub proof fn law_ranks_ascend(heights: Seq<Single>, r: int, s: int)
    requires
        0 <= r <= s < heights.len(),
        heights.len() <= usize::MAX,
        forall|i: int| 0 <= i < heights.len() ==> !(#[trigger] heights[i]).spec_nan(),
    ensures
        height_at(heights, r).spec_at_most(height_at(heights, s)),
{
    let all = indices(heights.len());
    let keys = height_keys(heights);
    law_sorted_is_an_ordered_permutation(all, keys);
    let sorted = stably_sorted(all, keys);
    assert(in_order(sorted, keys));
    assert forall|i: int| 0 <= i < sorted.len() implies (#[trigger] sorted[i]) < heights.len() by {
        broadcast use vstd::seq_lib::group_to_multiset_ensures;

        assert(sorted.to_multiset().count(sorted[i]) > 0);
        assert(all.to_multiset().count(sorted[i]) > 0);
        assert(all.contains(sorted[i]));
        let j = choose|j: int| 0 <= j < all.len() && all[j] == sorted[i];
        assert(all[j] == j);
    }
    let a = sorted[r] as int;
    let b = sorted[s] as int;
    assert(keys[a].0 == order_key(heights[a].bits));
    assert(keys[b].0 == order_key(heights[b].bits));
}

/// The median stands in the middle: as many heights rank below it as above it,
/// and of an even number it is half the sum of the two in the middle.
pub proof fn law_the_median_stands_in_the_middle(heights: Seq<Single>, r: int, a: int, b: int, k: nat)
    requires
        0 <= r < heights.len(),
        k <= 149 - 1,
        fraction(height_at(heights, r), a, k),
        fits(a),
        heights.len() == 2 * r + 2 ==> fraction(height_at(heights, r + 1), b, k),
        fits(a + b),
    ensures
        heights.len() == 2 * r + 1 ==> fraction(spec_median_detection_height(heights, Single { bits: ONE_BITS }), a, k),
        heights.len() == 2 * r + 2 ==> fraction(
            spec_median_detection_height(heights, Single { bits: ONE_BITS }),
            a + b,
            k + 1,
        ),
{
    lemma2_to64();
    law_zero_and_one_are_whole();
    let one = Single { bits: ONE_BITS };
    if heights.len() == 2 * r + 1 {
        law_fractions_multiply_exactly(height_at(heights, r), one, a, 1, k, 0);
    }
    if heights.len() == 2 * r + 2 {
        let two = Single { bits: crate::vision::oar::TWO_BITS };
        law_bits_hold_a_fraction(two, 128, 2, 22, 0);
        let sum = height_at(heights, r).spec_plus(height_at(heights, r + 1));
        crate::fractions::law_fractions_add_exactly(height_at(heights, r), height_at(heights, r + 1), a, b, k);
        law_fractions_extend(sum, a + b, k, 1);
        law_fractions_divide_exactly(sum, two, a + b, 2, k + 1, 0);
        law_fractions_multiply_exactly(sum.spec_over(two), one, a + b, 1, k + 1, 0);
    }
}

} // verus!
