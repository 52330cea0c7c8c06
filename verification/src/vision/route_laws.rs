//! What routes and coordinate maps owe to the pages they stand for.

use crate::double::Double;
use crate::double_laws::{
    fits_double, law_naturals_are_whole_doubles, law_whole_doubles_add, law_whole_doubles_divide,
    law_whole_doubles_multiply, law_whole_doubles_negate, law_whole_doubles_subtract, whole_double,
};
use crate::single::Single;
use crate::vision::ocr::OcrMode;
use crate::vision::render::{
    corner_map, determinant, greatest_double, greatest_of, inverse_map, least_double, least_of, Affine,
};
use crate::vision::routing::{first_invalid, routed};
use vstd::prelude::*;

verus! {

/// Off routes no page. What is routed automatically would be routed by force
/// too, and is all of it where every page is recommended.
pub proof fn law_force_routes_what_auto_routes(
    page_count: u32,
    recommended: Seq<u32>,
    selected: Option<Seq<u32>>,
    page: u32,
)
    ensures
        !routed(OcrMode::Off, page_count, recommended, selected, page),
        routed(OcrMode::Auto, page_count, recommended, selected, page) ==> routed(
            OcrMode::Force,
            page_count,
            recommended,
            selected,
            page,
        ),
        recommended.contains(page) && routed(OcrMode::Force, page_count, recommended, selected, page) ==> routed(
            OcrMode::Auto,
            page_count,
            recommended,
            selected,
            page,
        ),
        selected is None && 1 <= page <= page_count ==> routed(OcrMode::Force, page_count, recommended, selected, page),
{
}

/// The first page outside the document is the one that is refused.
pub proof fn law_the_first_invalid_page_is_refused(pages: Seq<u32>, page_count: u32, at: int)
    requires
        0 <= at < pages.len(),
        !(1 <= pages[at] <= page_count),
        forall|i: int| 0 <= i < at ==> 1 <= #[trigger] pages[i] <= page_count,
    ensures
        first_invalid(pages, page_count) == Some(pages[at]),
    decreases pages.len(),
{
    let rest = pages.drop_last();
    if at < pages.len() - 1 {
        assert forall|i: int| 0 <= i < at implies 1 <= #[trigger] rest[i] <= page_count by {
            assert(rest[i] == pages[i]);
        }
        assert(rest[at] == pages[at]);
        law_the_first_invalid_page_is_refused(rest, page_count, at);
    } else {
        lemma_none_invalid(rest, page_count);
    }
}

proof fn lemma_none_invalid(pages: Seq<u32>, page_count: u32)
    requires
        forall|i: int| 0 <= i < pages.len() ==> 1 <= #[trigger] pages[i] <= page_count,
    ensures
        first_invalid(pages, page_count) is None,
    decreases pages.len(),
{
    if pages.len() > 0 {
        let rest = pages.drop_last();
        assert forall|i: int| 0 <= i < rest.len() implies 1 <= #[trigger] rest[i] <= page_count by {
            assert(rest[i] == pages[i]);
        }
        lemma_none_invalid(rest, page_count);
        assert(1 <= pages[pages.len() - 1] <= page_count);
    }
}

/// A map with whole entries.
pub struct WholeMap {
    pub a: int,
    pub b: int,
    pub c: int,
    pub d: int,
    pub e: int,
    pub f: int,
}

impl WholeMap {
    /// The entries of the map are these.
    pub open spec fn holds(self, m: Affine) -> bool {
        &&& whole_double(m.a, self.a) && whole_double(m.b, self.b) && whole_double(m.c, self.c)
        &&& whole_double(m.d, self.d) && whole_double(m.e, self.e) && whole_double(m.f, self.f)
    }

    /// All that comes up where the point is mapped has its place.
    pub open spec fn reaches(self, x: int, y: int) -> bool {
        &&& fits_double(self.a * x) && fits_double(self.b * y) && fits_double(self.a * x + self.b * y)
        &&& fits_double(self.c * x) && fits_double(self.d * y) && fits_double(self.c * x + self.d * y)
        &&& fits_double(self.a * x + self.b * y + self.e) && fits_double(self.c * x + self.d * y + self.f)
    }
}

/// A map sends a point to `(ax + by + e, cx + dy + f)`.
pub proof fn law_maps_are_affine(m: Affine, w: WholeMap, x: Double, y: Double, i: int, j: int)
    requires
        w.holds(m),
        w.reaches(i, j),
        whole_double(x, i),
        whole_double(y, j),
    ensures
        whole_double(m.image(x, y).0, w.a * i + w.b * j + w.e),
        whole_double(m.image(x, y).1, w.c * i + w.d * j + w.f),
{
    law_whole_doubles_multiply(m.a, x, w.a, i);
    law_whole_doubles_multiply(m.b, y, w.b, j);
    law_whole_doubles_multiply(m.c, x, w.c, i);
    law_whole_doubles_multiply(m.d, y, w.d, j);
    law_whole_doubles_add(m.a.spec_times(x), m.b.spec_times(y), w.a * i, w.b * j);
    law_whole_doubles_add(m.c.spec_times(x), m.d.spec_times(y), w.c * i, w.d * j);
    law_whole_doubles_add(m.a.spec_times(x).spec_plus(m.b.spec_times(y)), m.e, w.a * i + w.b * j, w.e);
    law_whole_doubles_add(m.c.spec_times(x).spec_plus(m.d.spec_times(y)), m.f, w.c * i + w.d * j, w.f);
}

/// The map of three corners sends the first pixel to the first of them, and a
/// step along either side of the bitmap by that side's share of the way to the
/// corner at its end.
pub proof fn law_corners_set_the_map(
    width: u32,
    height: u32,
    origin: (Double, Double),
    x_axis: (Double, Double),
    y_axis: (Double, Double),
    w: WholeMap,
)
    requires
        width > 0,
        height > 0,
        whole_double(origin.0, w.e),
        whole_double(origin.1, w.f),
        whole_double(x_axis.0, w.e + w.a * width),
        whole_double(x_axis.1, w.f + w.c * width),
        whole_double(y_axis.0, w.e + w.b * height),
        whole_double(y_axis.1, w.f + w.d * height),
        fits_double(w.a) && fits_double(w.b) && fits_double(w.c) && fits_double(w.d),
        fits_double(w.a * width) && fits_double(w.c * width),
        fits_double(w.b * height) && fits_double(w.d * height),
    ensures
        w.holds(corner_map(width, height, origin, x_axis, y_axis)),
{
    law_naturals_are_whole_doubles(width as nat);
    law_naturals_are_whole_doubles(height as nat);
    let across = Double::spec_from_natural(width as nat);
    let down = Double::spec_from_natural(height as nat);
    law_whole_doubles_subtract(x_axis.0, origin.0, w.e + w.a * width, w.e);
    law_whole_doubles_subtract(x_axis.1, origin.1, w.f + w.c * width, w.f);
    law_whole_doubles_subtract(y_axis.0, origin.0, w.e + w.b * height, w.e);
    law_whole_doubles_subtract(y_axis.1, origin.1, w.f + w.d * height, w.f);
    law_whole_doubles_divide(x_axis.0.spec_minus(origin.0), across, w.a, width as int);
    law_whole_doubles_divide(x_axis.1.spec_minus(origin.1), across, w.c, width as int);
    law_whole_doubles_divide(y_axis.0.spec_minus(origin.0), down, w.b, height as int);
    law_whole_doubles_divide(y_axis.1.spec_minus(origin.1), down, w.d, height as int);
}

/// The map back is whole too, with these entries.
proof fn lemma_inverse(m: Affine, w: WholeMap, det: int, back: WholeMap)
    requires
        w.holds(m),
        det == w.a * w.d - w.b * w.c,
        det != 0,
        fits_double(w.a * w.d) && fits_double(w.b * w.c) && fits_double(det),
        w.d == back.a * det,
        -w.b == back.b * det,
        -w.c == back.c * det,
        w.a == back.d * det,
        back.e == -(back.a * w.e + back.b * w.f),
        back.f == -(back.c * w.e + back.d * w.f),
        fits_double(back.a) && fits_double(back.b) && fits_double(back.c) && fits_double(back.d),
        fits_double(back.a * w.e) && fits_double(back.b * w.f) && fits_double(back.c * w.e) && fits_double(back.d * w.f),
        fits_double(back.e) && fits_double(back.f),
    ensures
        back.holds(inverse_map(m)),
{
    law_whole_doubles_multiply(m.a, m.d, w.a, w.d);
    law_whole_doubles_multiply(m.b, m.c, w.b, w.c);
    law_whole_doubles_subtract(m.a.spec_times(m.d), m.b.spec_times(m.c), w.a * w.d, w.b * w.c);
    let dd = determinant(m);
    law_whole_doubles_negate(m.b, w.b);
    law_whole_doubles_negate(m.c, w.c);
    law_whole_doubles_divide(m.d, dd, back.a, det);
    law_whole_doubles_divide(m.b.spec_negated(), dd, back.b, det);
    law_whole_doubles_divide(m.c.spec_negated(), dd, back.c, det);
    law_whole_doubles_divide(m.a, dd, back.d, det);
    let r = inverse_map(m);
    law_whole_doubles_multiply(r.a, m.e, back.a, w.e);
    law_whole_doubles_multiply(r.b, m.f, back.b, w.f);
    law_whole_doubles_multiply(r.c, m.e, back.c, w.e);
    law_whole_doubles_multiply(r.d, m.f, back.d, w.f);
    law_whole_doubles_add(r.a.spec_times(m.e), r.b.spec_times(m.f), back.a * w.e, back.b * w.f);
    law_whole_doubles_add(r.c.spec_times(m.e), r.d.spec_times(m.f), back.c * w.e, back.d * w.f);
    law_whole_doubles_negate(r.a.spec_times(m.e).spec_plus(r.b.spec_times(m.f)), back.a * w.e + back.b * w.f);
    law_whole_doubles_negate(r.c.spec_times(m.e).spec_plus(r.d.spec_times(m.f)), back.c * w.e + back.d * w.f);
}

/// The map back undoes the map: a point that is mapped and mapped back is where
/// it was.
pub proof fn law_the_map_back_undoes_the_map(
    m: Affine,
    w: WholeMap,
    det: int,
    back: WholeMap,
    x: Double,
    y: Double,
    i: int,
    j: int,
)
    requires
        w.holds(m),
        det == w.a * w.d - w.b * w.c,
        det != 0,
        fits_double(w.a * w.d) && fits_double(w.b * w.c) && fits_double(det),
        w.d == back.a * det,
        -w.b == back.b * det,
        -w.c == back.c * det,
        w.a == back.d * det,
        back.e == -(back.a * w.e + back.b * w.f),
        back.f == -(back.c * w.e + back.d * w.f),
        fits_double(back.a) && fits_double(back.b) && fits_double(back.c) && fits_double(back.d),
        fits_double(back.a * w.e) && fits_double(back.b * w.f) && fits_double(back.c * w.e) && fits_double(back.d * w.f),
        fits_double(back.e) && fits_double(back.f),
        whole_double(x, i),
        whole_double(y, j),
        fits_double(i),
        fits_double(j),
        w.reaches(i, j),
        back.reaches(w.a * i + w.b * j + w.e, w.c * i + w.d * j + w.f),
    ensures
        ({
            let there = m.image(x, y);
            let again = inverse_map(m).image(there.0, there.1);
            whole_double(again.0, i) && whole_double(again.1, j)
        }),
{
    lemma_inverse(m, w, det, back);
    law_maps_are_affine(m, w, x, y, i, j);
    let there = m.image(x, y);
    let u = w.a * i + w.b * j + w.e;
    let v = w.c * i + w.d * j + w.f;
    law_maps_are_affine(inverse_map(m), back, there.0, there.1, u, v);
    lemma_undone(w.a, w.b, w.c, w.d, det, back.a, back.b, back.c, back.d);
    lemma_composed(back.a, back.b, w, i, j);
    lemma_composed(back.c, back.d, w, i, j);
    assert(1 * i == i && 0 * j == 0 && 0 * i == 0 && 1 * j == j);
}

/// Two terms of one map behind another.
proof fn lemma_composed(p: int, q: int, w: WholeMap, i: int, j: int)
    ensures
        p * (w.a * i + w.b * j + w.e) + q * (w.c * i + w.d * j + w.f) - (p * w.e + q * w.f) == (p * w.a + q * w.c) * i + (p
            * w.b + q * w.d) * j,
{
    lemma_three_terms(p, w.a * i, w.b * j, w.e);
    lemma_three_terms(q, w.c * i, w.d * j, w.f);
    assert(p * (w.a * i) == (p * w.a) * i) by (nonlinear_arith);
    assert(p * (w.b * j) == (p * w.b) * j) by (nonlinear_arith);
    assert(q * (w.c * i) == (q * w.c) * i) by (nonlinear_arith);
    assert(q * (w.d * j) == (q * w.d) * j) by (nonlinear_arith);
    assert((p * w.a + q * w.c) * i == (p * w.a) * i + (q * w.c) * i) by (nonlinear_arith);
    assert((p * w.b + q * w.d) * j == (p * w.b) * j + (q * w.d) * j) by (nonlinear_arith);
}

proof fn lemma_three_terms(p: int, x: int, y: int, z: int)
    ensures
        p * (x + y + z) == p * x + p * y + p * z,
{
    assert(p * (x + y + z) == p * x + p * y + p * z) by (nonlinear_arith);
}

/// The product of a matrix and its inverse is the identity.
proof fn lemma_undone(a: int, b: int, c: int, d: int, det: int, p: int, q: int, r: int, s: int)
    requires
        det == a * d - b * c,
        det != 0,
        d == p * det,
        -b == q * det,
        -c == r * det,
        a == s * det,
    ensures
        p * a + q * c == 1,
        p * b + q * d == 0,
        r * a + s * c == 0,
        r * b + s * d == 1,
{
    assert(det * (p * a + q * c) == (p * det) * a + (q * det) * c) by (nonlinear_arith);
    assert(d * a + (-b) * c == a * d - b * c) by (nonlinear_arith);
    assert(det * (p * b + q * d) == (p * det) * b + (q * det) * d) by (nonlinear_arith);
    assert(d * b + (-b) * d == 0) by (nonlinear_arith);
    assert(det * (r * a + s * c) == (r * det) * a + (s * det) * c) by (nonlinear_arith);
    assert((-c) * a + a * c == 0) by (nonlinear_arith);
    assert(det * (r * b + s * d) == (r * det) * b + (s * det) * d) by (nonlinear_arith);
    assert((-c) * b + a * d == a * d - b * c) by (nonlinear_arith);
    lemma_cancel(det, p * a + q * c, 1);
    lemma_cancel(det, p * b + q * d, 0);
    lemma_cancel(det, r * a + s * c, 0);
    lemma_cancel(det, r * b + s * d, 1);
}

proof fn lemma_cancel(det: int, x: int, y: int)
    requires
        det != 0,
        det * x == det * y,
    ensures
        x == y,
{
    assert(x == y) by (nonlinear_arith)
        requires
            det != 0,
            det * x == det * y,
    ;
}

/// The bounds of four numbers enclose them closely.
pub proof fn law_bounds_enclose_closely(a: Single, b: Single, c: Single, d: Single)
    requires
        a.spec_finite(),
        b.spec_finite(),
        c.spec_finite(),
        d.spec_finite(),
    ensures
        ({
            let low = least_of(a, b, c, d);
            let high = greatest_of(a, b, c, d);
            &&& low.spec_at_most(a) && low.spec_at_most(b) && low.spec_at_most(c) && low.spec_at_most(d)
            &&& a.spec_at_most(high) && b.spec_at_most(high) && c.spec_at_most(high) && d.spec_at_most(high)
            &&& low == a || low == b || low == c || low == d
            &&& high == a || high == b || high == c || high == d
        }),
{
}

/// The bounds of four numbers enclose them closely, in double precision too.
pub proof fn law_double_bounds_enclose_closely(a: Double, b: Double, c: Double, d: Double)
    requires
        a.spec_finite(),
        b.spec_finite(),
        c.spec_finite(),
        d.spec_finite(),
    ensures
        ({
            let low = least_double(a, b, c, d);
            let high = greatest_double(a, b, c, d);
            &&& low.spec_at_most(a) && low.spec_at_most(b) && low.spec_at_most(c) && low.spec_at_most(d)
            &&& a.spec_at_most(high) && b.spec_at_most(high) && c.spec_at_most(high) && d.spec_at_most(high)
            &&& low == a || low == b || low == c || low == d
            &&& high == a || high == b || high == c || high == d
        }),
{
}

} // verus!
