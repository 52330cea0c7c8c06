//! Cheap bitmap signals used to decide whether OCR work is warranted.

use crate::single::Single;
use crate::types::PdfRect;
use crate::vision::render::{law_pixels_lie_in_the_buffer, pixel_bounds, RenderPixelFormat, RenderedPage, RenderedView};
use vstd::prelude::*;

verus! {

/// How many pixels of a region are sampled at the finest.
pub const SAMPLE_BUDGET: u64 = 150_000;

/// `0.01`
pub const ROW_DARK_MINIMUM_BITS: u32 = 0x3c23_d70a;

/// `0.65`
pub const ROW_DARK_MAXIMUM_BITS: u32 = 0x3f26_6666;

/// `0.9`
pub const BLANK_ROW_WHITE_BITS: u32 = 0x3f66_6666;

/// `0.45`
pub const WHITE_MINIMUM_BITS: u32 = 0x3ee6_6666;

/// `0.002`
pub const DARK_MINIMUM_BITS: u32 = 0x3b03_126f;

/// `0.35`
pub const DARK_MAXIMUM_BITS: u32 = 0x3eb3_3333;

/// A rectangle of pixels: columns `x0..x1` of the rows `y0..y1`.
pub struct PixelRegion {
    pub x0: u32,
    pub y0: u32,
    pub x1: u32,
    pub y1: u32,
}

/// The pixels that a page rectangle touches.
pub open spec fn touched(page: RenderedView, region: PdfRect) -> PixelRegion {
    let (x, y, width, height) = pixel_bounds(page, region);
    PixelRegion {
        x0: x.spec_floor_within(page.width as nat) as u32,
        y0: y.spec_floor_within(page.height as nat) as u32,
        x1: x.spec_plus(width).spec_ceiling_within(page.width as nat) as u32,
        y1: y.spec_plus(height).spec_ceiling_within(page.height as nat) as u32,
    }
}

/// Whether no smaller step has a square that reaches the number.
pub open spec fn is_step(n: nat, step: nat) -> bool {
    step >= 1 && step * step >= n && forall|s: nat| #![trigger s * s] 1 <= s < step ==> s * s < n
}

/// Pixels between two samples: the least step that keeps a region within the
/// sample budget.
pub open spec fn sample_step(region: PixelRegion) -> nat {
    let product = (region.x1 - region.x0) * (region.y1 - region.y0);
    let pixels = if product <= usize::MAX {
        product
    } else {
        usize::MAX as int
    };
    let share = pixels / SAMPLE_BUDGET as int;
    let wanted: nat = if share >= 1 {
        share as nat
    } else {
        1
    };
    choose|step: nat| is_step(wanted, step)
}

/// The brightness of a pixel, from 0 to 255.
pub open spec fn luminance(page: RenderedView, x: int, y: int) -> int {
    let at = page.offset(x, y);
    match page.format {
        RenderPixelFormat::Gray8 => page.pixels[at] as int,
        _ => (page.pixels[at] * 3 + page.pixels[at + 1] * 6 + page.pixels[at + 2]) / 10,
    }
}

/// How many pixels were looked at, and how many of them were white or dark.
#[derive(Clone, Copy)]
pub struct Tally {
    pub sampled: nat,
    pub white: nat,
    pub dark: nat,
}

pub open spec fn no_pixels() -> Tally {
    Tally { sampled: 0, white: 0, dark: 0 }
}

pub open spec fn together(a: Tally, b: Tally) -> Tally {
    Tally { sampled: a.sampled + b.sampled, white: a.white + b.white, dark: a.dark + b.dark }
}

/// The tally of one pixel.
pub open spec fn pixel_tally(page: RenderedView, x: int, y: int) -> Tally {
    let l = luminance(page, x, y);
    Tally {
        sampled: 1,
        white: if l >= 235 {
            1
        } else {
            0
        },
        dark: if l <= 110 {
            1
        } else {
            0
        },
    }
}

/// The tally of a row, from a column on.
pub open spec fn row_tally(page: RenderedView, y: int, x: int, x1: int, step: int) -> Tally
    decreases
        if x < x1 {
            x1 - x
        } else {
            0
        },
{
    if x >= x1 || step < 1 {
        no_pixels()
    } else {
        together(pixel_tally(page, x, y), row_tally(page, y, x + step, x1, step))
    }
}

/// A share of samples.
pub open spec fn share(part: nat, whole: nat) -> Single {
    Single::spec_from_natural(part).spec_over(Single::spec_from_natural(whole))
}

/// The number lies between two limits, both included.
pub open spec fn between(low: u32, value: Single, high: u32) -> bool {
    (Single { bits: low }).spec_at_most(value) && value.spec_at_most(Single { bits: high })
}

/// A row that looks like a line of text.
pub open spec fn content_row(row: Tally) -> bool {
    row.sampled > 0 && between(ROW_DARK_MINIMUM_BITS, share(row.dark, row.sampled), ROW_DARK_MAXIMUM_BITS)
}

/// A row that looks like the gap between two lines.
pub open spec fn blank_row(row: Tally) -> bool {
    row.sampled > 0 && !content_row(row) && row.dark == 0 && (Single { bits: BLANK_ROW_WHITE_BITS }).spec_at_most(
        share(row.white, row.sampled),
    )
}

/// The tally of the sampled rows of a region, with the number of rows of text
/// and of gaps.
pub struct RegionTally {
    pub pixels: Tally,
    pub content_rows: nat,
    pub blank_rows: nat,
}

pub open spec fn region_tally(page: RenderedView, region: PixelRegion, y: int, step: int) -> RegionTally
    decreases
        if y < region.y1 {
            region.y1 - y
        } else {
            0
        },
{
    if y >= region.y1 || step < 1 {
        RegionTally { pixels: no_pixels(), content_rows: 0, blank_rows: 0 }
    } else {
        let row = row_tally(page, y, region.x0 as int, region.x1 as int, step);
        let rest = region_tally(page, region, y + step, step);
        RegionTally {
            pixels: together(row, rest.pixels),
            content_rows: rest.content_rows + if content_row(row) {
                1nat
            } else {
                0nat
            },
            blank_rows: rest.blank_rows + if blank_row(row) {
                1nat
            } else {
                0nat
            },
        }
    }
}

/// A region with a document-like mix of white background, dark ink, rows of
/// text and gaps between them.
pub open spec fn document_like(page: RenderedView, region: PixelRegion) -> bool {
    &&& region.x1 > region.x0 + 4
    &&& region.y1 > region.y0 + 4
    &&& {
        let found = region_tally(page, region, region.y0 as int, sample_step(region) as int);
        &&& found.pixels.sampled > 0
        &&& (Single { bits: WHITE_MINIMUM_BITS }).spec_at_most(share(found.pixels.white, found.pixels.sampled))
        &&& between(DARK_MINIMUM_BITS, share(found.pixels.dark, found.pixels.sampled), DARK_MAXIMUM_BITS)
        &&& found.content_rows >= 3
        &&& found.blank_rows >= 2
    }
}

proof fn lemma_step_is_unique(n: nat, a: nat, b: nat)
    requires
        is_step(n, a),
        is_step(n, b),
    ensures
        a == b,
{
    if a < b {
        assert(a * a < n);
    }
    if b < a {
        assert(b * b < n);
    }
}

/// The least number whose square reaches another.
fn step_for(n: u64) -> (r: u64)
    requires
        1 <= n < 0x1_0000_0000_0000,
    ensures
        is_step(n as nat, r as nat),
        r <= 0x100_0000,
{
    let mut step: u64 = 1;
    while step * step < n
        invariant
            1 <= step <= 0x100_0000,
            step * step <= 0x1_0000_0000_0000,
            n < 0x1_0000_0000_0000,
            forall|s: nat| #![trigger s * s] 1 <= s < step ==> s * s < n,
        decreases 0x100_0000 - step,
    {
        assert(step < 0x100_0000) by (nonlinear_arith)
            requires
                step * step < n,
                n < 0x1_0000_0000_0000,
                step <= 0x100_0000,
        ;
        step += 1;
        assert(step * step <= 0x1_0000_0000_0000) by (nonlinear_arith)
            requires
                1 <= step <= 0x100_0000,
        ;
    }
    step
}

fn step_of(region: &PixelRegion) -> (r: u64)
    requires
        region.x0 <= region.x1,
        region.y0 <= region.y1,
    ensures
        r == sample_step(*region),
        1 <= r <= 0x100_0000,
{
    let across: u64 = (region.x1 - region.x0) as u64;
    let down: u64 = (region.y1 - region.y0) as u64;
    assert(across * down <= 0xffff_fffe_0000_0001) by (nonlinear_arith)
        requires
            across <= 0xffff_ffff,
            down <= 0xffff_ffff,
    ;
    let product: u64 = across * down;
    let pixels: u64 = if product <= usize::MAX as u64 {
        product
    } else {
        usize::MAX as u64
    };
    let portion: u64 = pixels / SAMPLE_BUDGET;
    let wanted: u64 = if portion >= 1 {
        portion
    } else {
        1
    };
    let step = step_for(wanted);
    proof {
        let chosen = choose|s: nat| is_step(wanted as nat, s);
        assert(is_step(wanted as nat, step as nat));
        lemma_step_is_unique(wanted as nat, chosen, step as nat);
    }
    step
}

fn luminance_at(page: &RenderedPage, x: u32, y: u32) -> (r: u32)
    requires
        x < page@.width,
        y < page@.height,
    ensures
        r == luminance(page@, x as int, y as int),
{
    let format = page.format();
    let stride = page.stride();
    let channels = format.bytes_per_pixel();
    let height = page.height();
    let pixels = page.pixels();
    let length: usize = pixels.len();
    proof {
        law_pixels_lie_in_the_buffer(page@, x as int, y as int);
        assert(y * stride >= 0 && x * channels >= 0) by (nonlinear_arith);
    }
    let row: usize = y as usize * stride;
    let at: usize = row + x as usize * channels;
    match format {
        RenderPixelFormat::Gray8 => pixels[at] as u32,
        _ => {
            let red: u32 = pixels[at] as u32;
            let green: u32 = pixels[at + 1] as u32;
            let blue: u32 = pixels[at + 2] as u32;
            (red * 3 + green * 6 + blue) / 10
        },
    }
}

/// The tally of a row as the counters `(sampled, white, dark)`.
fn tally_row(page: &RenderedPage, y: u32, x0: u32, x1: u32, step: u64) -> (r: (u64, u64, u64))
    requires
        y < page@.height,
        x1 <= page@.width,
        1 <= step <= 0x100_0000,
    ensures
        (Tally { sampled: r.0 as nat, white: r.1 as nat, dark: r.2 as nat }) == row_tally(
            page@,
            y as int,
            x0 as int,
            x1 as int,
            step as int,
        ),
        r.0 <= x1,
        r.1 <= r.0,
        r.2 <= r.0,
{
    let mut sampled: u64 = 0;
    let mut white: u64 = 0;
    let mut dark: u64 = 0;
    let mut x: u64 = x0 as u64;
    let ghost whole = row_tally(page@, y as int, x0 as int, x1 as int, step as int);
    assert(together(no_pixels(), whole) == whole);
    while x < x1 as u64
        invariant
            y < page@.height,
            x1 <= page@.width,
            1 <= step <= 0x100_0000,
            whole == together(
                Tally { sampled: sampled as nat, white: white as nat, dark: dark as nat },
                row_tally(page@, y as int, x as int, x1 as int, step as int),
            ),
            sampled <= x,
            x < x1 ==> sampled < x1,
            sampled <= x1,
            white <= sampled,
            dark <= sampled,
        decreases
            if x < x1 {
                x1 - x
            } else {
                0
            },
    {
        let l = luminance_at(page, x as u32, y);
        sampled += 1;
        if l >= 235 {
            white += 1;
        }
        if l <= 110 {
            dark += 1;
        }
        x += step;
    }
    (sampled, white, dark)
}

fn ratio(part: u64, whole: u64) -> (r: Single)
    ensures
        r == share(part as nat, whole as nat),
{
    Single::from_natural(part).over(Single::from_natural(whole))
}

fn is_between(low: u32, value: Single, high: u32) -> (r: bool)
    ensures
        r == between(low, value, high),
{
    Single { bits: low }.at_most(value) && value.at_most(Single { bits: high })
}

/// Returns whether a PDF-space region has a document-like mix of white
/// background, dark foreground ink, content rows, and blank separators.
pub fn region_has_document_like_ink(page: &RenderedPage, region: &PdfRect) -> (r: bool)
    ensures
        r == document_like(page@, touched(page@, *region)),
{
    let (x, y, width, height) = page.pdf_rect_to_pixel(region);
    let across = page.width();
    let down = page.height();
    let bounds = PixelRegion {
        x0: x.floor_within(across),
        y0: y.floor_within(down),
        x1: x.plus(width).ceiling_within(across),
        y1: y.plus(height).ceiling_within(down),
    };
    assert(bounds == touched(page@, *region));
    if bounds.x1 as u64 <= bounds.x0 as u64 + 4 || bounds.y1 as u64 <= bounds.y0 as u64 + 4 {
        return false;
    }
    let step = step_of(&bounds);
    let mut sampled: u64 = 0;
    let mut near_white: u64 = 0;
    let mut dark: u64 = 0;
    let mut content_rows: u64 = 0;
    let mut blank_rows: u64 = 0;
    let mut sample_y: u64 = bounds.y0 as u64;
    let ghost whole = region_tally(page@, bounds, bounds.y0 as int, step as int);
    while sample_y < bounds.y1 as u64
        invariant
            bounds.y1 <= page@.height,
            bounds.x1 <= page@.width,
            1 <= step <= 0x100_0000,
            whole.pixels == together(
                Tally { sampled: sampled as nat, white: near_white as nat, dark: dark as nat },
                region_tally(page@, bounds, sample_y as int, step as int).pixels,
            ),
            whole.content_rows == content_rows + region_tally(page@, bounds, sample_y as int, step as int).content_rows,
            whole.blank_rows == blank_rows + region_tally(page@, bounds, sample_y as int, step as int).blank_rows,
            content_rows <= sample_y,
            blank_rows <= sample_y,
            sampled <= sample_y * 0xffff_ffff,
            sample_y <= 0x1_0100_0000,
            near_white <= sampled,
            dark <= sampled,
        decreases
            if sample_y < bounds.y1 {
                bounds.y1 - sample_y
            } else {
                0
            },
    {
        let (row_sampled, row_white, row_dark) = tally_row(page, sample_y as u32, bounds.x0, bounds.x1, step);
        let ghost row = Tally { sampled: row_sampled as nat, white: row_white as nat, dark: row_dark as nat };
        proof {
            assert(sampled + row_sampled <= (sample_y + 1) * 0xffff_ffff);
            assert((sample_y + 1) * 0xffff_ffff <= 0xffff_ffff * 0xffff_ffff) by (nonlinear_arith)
                requires
                    sample_y < 0xffff_ffff,
            ;
            assert((sample_y + 1) * 0xffff_ffff <= (sample_y + step) * 0xffff_ffff) by (nonlinear_arith)
                requires
                    step >= 1,
            ;
        }
        sampled += row_sampled;
        near_white += row_white;
        dark += row_dark;
        if row_sampled > 0 {
            let dark_ratio = ratio(row_dark, row_sampled);
            let white_ratio = ratio(row_white, row_sampled);
            if is_between(ROW_DARK_MINIMUM_BITS, dark_ratio, ROW_DARK_MAXIMUM_BITS) {
                content_rows += 1;
            } else if row_dark == 0 && (Single { bits: BLANK_ROW_WHITE_BITS }).at_most(white_ratio) {
                blank_rows += 1;
            }
        }
        sample_y += step;
    }
    if sampled == 0 {
        return false;
    }
    let white_ratio = ratio(near_white, sampled);
    let dark_ratio = ratio(dark, sampled);
    Single { bits: WHITE_MINIMUM_BITS }.at_most(white_ratio) && is_between(
        DARK_MINIMUM_BITS,
        dark_ratio,
        DARK_MAXIMUM_BITS,
    ) && content_rows >= 3 && blank_rows >= 2
}

/// Every region has a sample step, and it is the least that keeps the region
/// within the sample budget.
pub proof fn law_the_sample_step_is_the_least(region: PixelRegion)
    requires
        region.x0 <= region.x1,
        region.y0 <= region.y1,
        (region.x1 - region.x0) * (region.y1 - region.y0) <= usize::MAX,
    ensures
        ({
            let pixels = (region.x1 - region.x0) * (region.y1 - region.y0);
            let step = sample_step(region);
            &&& step >= 1
            &&& step * step >= pixels / SAMPLE_BUDGET as int
            &&& step > 1 ==> (step - 1) * (step - 1) < pixels / SAMPLE_BUDGET as int
        }),
{
    let pixels = (region.x1 - region.x0) * (region.y1 - region.y0);
    assert(pixels >= 0) by (nonlinear_arith)
        requires
            pixels == (region.x1 - region.x0) * (region.y1 - region.y0),
            region.x0 <= region.x1,
            region.y0 <= region.y1,
    ;
    let portion = pixels / SAMPLE_BUDGET as int;
    let wanted: nat = if portion >= 1 {
        portion as nat
    } else {
        1
    };
    lemma_some_step(wanted, 1);
    let step = sample_step(region);
    assert(is_step(wanted, step));
    if step > 1 {
        let less = (step - 1) as nat;
        assert(less * less < wanted);
        assert(less * less >= 1) by (nonlinear_arith)
            requires
                less >= 1,
        ;
    }
}

proof fn lemma_some_step(n: nat, from: nat)
    requires
        n >= 1,
        from >= 1,
        from <= n,
        forall|s: nat| #![trigger s * s] 1 <= s < from ==> s * s < n,
    ensures
        exists|step: nat| is_step(n, step),
    decreases n - from,
{
    if from * from >= n {
        assert(is_step(n, from));
    } else {
        assert(from < n) by (nonlinear_arith)
            requires
                from * from < n,
                from >= 1,
        ;
        lemma_some_step(n, from + 1);
    }
}

} // verus!
