//! Renderer-neutral page bitmap and coordinate types.

use crate::double::{Double, INFINITY_BITS as DOUBLE_INFINITY_BITS};
use crate::numbers::{decimal, push_decimal};
use crate::single::{Single, INFINITY_BITS};
use crate::text::{push_text, text_of};
use crate::types::PdfRect;
use vstd::prelude::*;

verus! {

/// `150.0`
pub const DEFAULT_RENDER_DPI_BITS: u32 = 0x4316_0000;

/// Default maximum size of one rendered page: 256 MiB.
pub const DEFAULT_MAX_OUTPUT_BYTES: u64 = 268_435_456;

/// The pattern of negative infinity in single precision.
pub const NEGATIVE_INFINITY_BITS: u32 = 0xff80_0000;

/// The pattern of negative infinity in double precision.
pub const DOUBLE_NEGATIVE_INFINITY_BITS: u64 = 0xfff0_0000_0000_0000;

/// Pixel layout of a rendered page.
#[derive(Clone, Copy, Debug, PartialEq, Eq, Structural)]
pub enum RenderPixelFormat {
    /// Three bytes per pixel in red, green, blue order. This is the default
    /// because OCR preprocessors conventionally consume RGB images.
    Rgb8,
    /// Four bytes per pixel in red, green, blue, alpha order.
    Rgba8,
    /// One luminance byte per pixel.
    Gray8,
}

impl Default for RenderPixelFormat {
    fn default() -> (r: Self)
        ensures
            r == RenderPixelFormat::Rgb8,
    {
        RenderPixelFormat::Rgb8
    }
}

impl RenderPixelFormat {
    pub open spec fn channels(self) -> nat {
        match self {
            RenderPixelFormat::Rgb8 => 3,
            RenderPixelFormat::Rgba8 => 4,
            RenderPixelFormat::Gray8 => 1,
        }
    }

    /// Number of bytes used by one pixel.
    pub fn bytes_per_pixel(self) -> (r: usize)
        ensures
            r == self.channels(),
    {
        match self {
            RenderPixelFormat::Rgb8 => 3,
            RenderPixelFormat::Rgba8 => 4,
            RenderPixelFormat::Gray8 => 1,
        }
    }
}

/// Configuration for pages rendered as input to a local vision pipeline.
#[derive(Clone, Copy, Debug, PartialEq, Eq, Structural)]
pub struct RenderOptions {
    /// Output resolution. Defaults to 150 DPI.
    pub dpi: Single,
    /// Pixel layout. Defaults to three-channel RGB.
    pub pixel_format: RenderPixelFormat,
    /// Whether PDF annotations are drawn.
    pub annotations: bool,
    /// Whether visible static AcroForm field appearances are drawn.
    pub form_fields: bool,
    /// Maximum allocation for each rendered page.
    pub max_output_bytes_per_page: u64,
}

/// The rendering options that are in force where nothing is set.
pub open spec fn default_render_options() -> RenderOptions {
    RenderOptions {
        dpi: Single { bits: DEFAULT_RENDER_DPI_BITS },
        pixel_format: RenderPixelFormat::Rgb8,
        annotations: true,
        form_fields: true,
        max_output_bytes_per_page: DEFAULT_MAX_OUTPUT_BYTES,
    }
}

impl Default for RenderOptions {
    fn default() -> (r: Self)
        ensures
            r == default_render_options(),
    {
        RenderOptions {
            dpi: Single { bits: DEFAULT_RENDER_DPI_BITS },
            pixel_format: RenderPixelFormat::Rgb8,
            annotations: true,
            form_fields: true,
            max_output_bytes_per_page: DEFAULT_MAX_OUTPUT_BYTES,
        }
    }
}

impl RenderOptions {
    /// Creates local-rendering options with OCR-oriented defaults.
    pub fn new() -> (r: Self)
        ensures
            r == default_render_options(),
    {
        RenderOptions::default()
    }

    /// Sets the output resolution in dots per inch.
    pub fn dpi(self, dpi: Single) -> (r: Self)
        ensures
            r == (RenderOptions { dpi, ..self }),
    {
        RenderOptions { dpi, ..self }
    }

    /// Sets the output pixel layout.
    pub fn pixel_format(self, pixel_format: RenderPixelFormat) -> (r: Self)
        ensures
            r == (RenderOptions { pixel_format, ..self }),
    {
        RenderOptions { pixel_format, ..self }
    }

    /// Toggles annotation rendering.
    pub fn annotations(self, annotations: bool) -> (r: Self)
        ensures
            r == (RenderOptions { annotations, ..self }),
    {
        RenderOptions { annotations, ..self }
    }

    /// Toggles visible static form-field rendering.
    pub fn form_fields(self, form_fields: bool) -> (r: Self)
        ensures
            r == (RenderOptions { form_fields, ..self }),
    {
        RenderOptions { form_fields, ..self }
    }

    /// Sets the maximum allocation for each rendered page.
    pub fn max_output_bytes_per_page(self, bytes: u64) -> (r: Self)
        ensures
            r == (RenderOptions { max_output_bytes_per_page: bytes, ..self }),
    {
        RenderOptions { max_output_bytes_per_page: bytes, ..self }
    }
}

/// A point in PDF page space, measured in points from the bottom-left.
#[derive(Clone, Copy, Debug, PartialEq, Eq, Structural)]
pub struct PagePoint {
    /// Horizontal position in PDF points.
    pub x: Single,
    /// Vertical position in PDF points, increasing upward.
    pub y: Single,
}

/// An affine map of the plane: `(x, y)` goes to
/// `(a * x + b * y + e, c * x + d * y + f)`.
#[derive(Clone, Copy, Debug, PartialEq, Eq, Structural)]
pub struct Affine {
    pub a: Double,
    pub b: Double,
    pub c: Double,
    pub d: Double,
    pub e: Double,
    pub f: Double,
}

impl Affine {
    pub open spec fn spec_finite(self) -> bool {
        self.a.spec_finite() && self.b.spec_finite() && self.c.spec_finite() && self.d.spec_finite()
            && self.e.spec_finite() && self.f.spec_finite()
    }

    /// The image of a point.
    pub open spec fn image(self, x: Double, y: Double) -> (Double, Double) {
        (
            self.a.spec_times(x).spec_plus(self.b.spec_times(y)).spec_plus(self.e),
            self.c.spec_times(x).spec_plus(self.d.spec_times(y)).spec_plus(self.f),
        )
    }

    fn is_finite(&self) -> (r: bool)
        ensures
            r == self.spec_finite(),
    {
        self.a.is_finite() && self.b.is_finite() && self.c.is_finite() && self.d.is_finite() && self.e.is_finite()
            && self.f.is_finite()
    }

    fn apply(&self, x: Double, y: Double) -> (r: (Double, Double))
        ensures
            r == self.image(x, y),
    {
        (self.a.times(x).plus(self.b.times(y)).plus(self.e), self.c.times(x).plus(self.d.times(y)).plus(self.f))
    }
}

/// The map that takes the bitmap corners `(0, 0)`, `(width, 0)` and
/// `(0, height)` to the three points.
pub open spec fn corner_map(
    width: u32,
    height: u32,
    origin: (Double, Double),
    x_axis: (Double, Double),
    y_axis: (Double, Double),
) -> Affine {
    let w = Double::spec_from_natural(width as nat);
    let h = Double::spec_from_natural(height as nat);
    Affine {
        a: x_axis.0.spec_minus(origin.0).spec_over(w),
        b: y_axis.0.spec_minus(origin.0).spec_over(h),
        c: x_axis.1.spec_minus(origin.1).spec_over(w),
        d: y_axis.1.spec_minus(origin.1).spec_over(h),
        e: origin.0,
        f: origin.1,
    }
}

/// The determinant of a map.
pub open spec fn determinant(m: Affine) -> Double {
    m.a.spec_times(m.d).spec_minus(m.b.spec_times(m.c))
}

/// The inverse of a map, computed by its determinant.
pub open spec fn inverse_map(m: Affine) -> Affine {
    let det = determinant(m);
    let a = m.d.spec_over(det);
    let b = m.b.spec_negated().spec_over(det);
    let c = m.c.spec_negated().spec_over(det);
    let d = m.a.spec_over(det);
    Affine {
        a,
        b,
        c,
        d,
        e: a.spec_times(m.e).spec_plus(b.spec_times(m.f)).spec_negated(),
        f: c.spec_times(m.e).spec_plus(d.spec_times(m.f)).spec_negated(),
    }
}

/// The coordinates of a point are finite.
pub open spec fn finite_point(p: (Double, Double)) -> bool {
    p.0.spec_finite() && p.1.spec_finite()
}

/// A map with finite coefficients, a usable determinant and a finite inverse.
pub open spec fn invertible(m: Affine) -> bool {
    &&& m.spec_finite()
    &&& !determinant(m).spec_zero()
    &&& determinant(m).spec_finite()
    &&& inverse_map(m).spec_finite()
}

/// Affine transform between top-left pixel space and PDF page space.
///
/// Renderers create this from the page-space images of the bitmap corners.
/// Keeping the coefficients here makes [`RenderedPage`] neutral to the
/// renderer that produced it.
#[derive(Clone, Copy, Debug)]
pub struct PageTransform {
    forward: Affine,
    inverse: Affine,
    pixel_width: u32,
    pixel_height: u32,
}

impl PageTransform {
    /// The map from pixels to the page.
    pub closed spec fn map(self) -> Affine {
        self.forward
    }

    /// The map from the page to pixels.
    pub closed spec fn back(self) -> Affine {
        self.inverse
    }

    pub closed spec fn spec_width(self) -> u32 {
        self.pixel_width
    }

    pub closed spec fn spec_height(self) -> u32 {
        self.pixel_height
    }

    /// What holds of every transform: it describes a bitmap that is not empty,
    /// and it is invertible.
    pub open spec fn wf(self) -> bool {
        self.spec_width() > 0 && self.spec_height() > 0 && invertible(self.map()) && self.back() == inverse_map(
            self.map(),
        )
    }

    #[verifier::type_invariant]
    spec fn holds(self) -> bool {
        self.wf()
    }

    /// Builds a transform from the PDF-space images of device corners
    /// `(0, 0)`, `(pixel_width, 0)`, and `(0, pixel_height)`.
    pub fn from_corners(
        pixel_width: u32,
        pixel_height: u32,
        origin: (Double, Double),
        x_axis: (Double, Double),
        y_axis: (Double, Double),
    ) -> (r: Option<Self>)
        ensures
            r is Some == (pixel_width > 0 && pixel_height > 0 && finite_point(origin) && finite_point(x_axis)
                && finite_point(y_axis) && invertible(corner_map(pixel_width, pixel_height, origin, x_axis, y_axis))),
            r matches Some(t) ==> {
                &&& t.wf()
                &&& t.spec_width() == pixel_width
                &&& t.spec_height() == pixel_height
                &&& t.map() == corner_map(pixel_width, pixel_height, origin, x_axis, y_axis)
            },
    {
        if pixel_width == 0 || pixel_height == 0 {
            return None;
        }
        if !origin.0.is_finite() || !origin.1.is_finite() || !x_axis.0.is_finite() || !x_axis.1.is_finite()
            || !y_axis.0.is_finite() || !y_axis.1.is_finite() {
            return None;
        }
        let width = Double::from_natural(pixel_width as u64);
        let height = Double::from_natural(pixel_height as u64);
        let a = x_axis.0.minus(origin.0).over(width);
        let c = x_axis.1.minus(origin.1).over(width);
        let b = y_axis.0.minus(origin.0).over(height);
        let d = y_axis.1.minus(origin.1).over(height);
        let (e, f) = origin;
        let forward = Affine { a, b, c, d, e, f };
        if !forward.is_finite() {
            return None;
        }
        let det = a.times(d).minus(b.times(c));
        if det.is_zero() || !det.is_finite() {
            return None;
        }
        let inverse_a = d.over(det);
        let inverse_b = b.negated().over(det);
        let inverse_c = c.negated().over(det);
        let inverse_d = a.over(det);
        let inverse_e = inverse_a.times(e).plus(inverse_b.times(f)).negated();
        let inverse_f = inverse_c.times(e).plus(inverse_d.times(f)).negated();
        let inverse = Affine { a: inverse_a, b: inverse_b, c: inverse_c, d: inverse_d, e: inverse_e, f: inverse_f };
        if !inverse.is_finite() {
            return None;
        }
        Some(PageTransform { forward, inverse, pixel_width, pixel_height })
    }

    /// Width of the bitmap this transform describes.
    pub fn pixel_width(&self) -> (r: u32)
        ensures
            r == self.spec_width(),
            self.wf(),
    {
        proof {
            use_type_invariant(*self);
        }
        self.pixel_width
    }

    /// Height of the bitmap this transform describes.
    pub fn pixel_height(&self) -> (r: u32)
        ensures
            r == self.spec_height(),
            self.wf(),
    {
        proof {
            use_type_invariant(*self);
        }
        self.pixel_height
    }

    /// Where a bitmap point lies on the page.
    pub open spec fn page_point(self, x: Double, y: Double) -> PagePoint {
        let p = self.map().image(x, y);
        PagePoint { x: p.0.spec_narrowed(), y: p.1.spec_narrowed() }
    }

    /// Converts a bitmap point to PDF page space.
    pub fn pixel_to_page(&self, x: Double, y: Double) -> (r: PagePoint)
        ensures
            r == self.page_point(x, y),
    {
        let p = self.forward.apply(x, y);
        PagePoint { x: p.0.narrowed(), y: p.1.narrowed() }
    }

    /// Converts a PDF page-space point to bitmap coordinates.
    pub fn page_to_pixel(&self, x: Double, y: Double) -> (r: (Double, Double))
        ensures
            r == self.back().image(x, y),
    {
        self.inverse.apply(x, y)
    }
}

/// Invalid renderer output rejected by [`RenderedPage::new`].
#[derive(Clone, Copy, Debug, PartialEq, Eq, Structural)]
pub enum RenderBufferError {
    /// Page numbers are 1-indexed.
    InvalidPageNumber,
    /// Bitmap dimensions must be non-zero.
    InvalidDimensions,
    /// Page dimensions must be positive finite numbers.
    InvalidPageDimensions,
    /// Transform dimensions must match the bitmap dimensions.
    TransformDimensions,
    /// Renderer did not provide an invertible finite coordinate transform.
    InvalidTransform,
    /// The stride cannot hold one active row of pixels.
    InvalidStride {
        /// Supplied bytes per row.
        stride: usize,
        /// Minimum bytes required for one row.
        minimum: usize,
    },
    /// Pixel buffer size is inconsistent with height and stride.
    InvalidBufferLength {
        /// Actual byte count.
        actual: usize,
        /// Required byte count.
        expected: usize,
    },
    /// Dimension arithmetic overflowed the host address space.
    SizeOverflow,
}

impl RenderBufferError {
    /// The text of the error.
    pub open spec fn spec_message(self) -> Seq<char> {
        match self {
            RenderBufferError::InvalidPageNumber => "rendered page number must be at least 1"@,
            RenderBufferError::InvalidDimensions => "rendered bitmap dimensions must be non-zero"@,
            RenderBufferError::InvalidPageDimensions => "rendered PDF page dimensions must be positive and finite"@,
            RenderBufferError::TransformDimensions =>
                "coordinate transform dimensions do not match the rendered bitmap"@,
            RenderBufferError::InvalidTransform => "renderer returned an invalid coordinate transform"@,
            RenderBufferError::InvalidStride { stride, minimum } => "pixel stride "@ + decimal(stride as nat)
                + " is shorter than the active row size "@ + decimal(minimum as nat),
            RenderBufferError::InvalidBufferLength { actual, expected } => "pixel buffer has "@ + decimal(
                actual as nat,
            ) + " bytes; expected "@ + decimal(expected as nat),
            RenderBufferError::SizeOverflow => "rendered bitmap dimensions overflow the host address space"@,
        }
    }

    pub fn message(&self) -> (r: String)
        ensures
            r@ == self.spec_message(),
    {
        let mut out: Vec<char> = Vec::new();
        match self {
            RenderBufferError::InvalidPageNumber => {
                push_text(&mut out, "rendered page number must be at least 1");
            },
            RenderBufferError::InvalidDimensions => {
                push_text(&mut out, "rendered bitmap dimensions must be non-zero");
            },
            RenderBufferError::InvalidPageDimensions => {
                push_text(&mut out, "rendered PDF page dimensions must be positive and finite");
            },
            RenderBufferError::TransformDimensions => {
                push_text(&mut out, "coordinate transform dimensions do not match the rendered bitmap");
            },
            RenderBufferError::InvalidTransform => {
                push_text(&mut out, "renderer returned an invalid coordinate transform");
            },
            RenderBufferError::InvalidStride { stride, minimum } => {
                push_text(&mut out, "pixel stride ");
                push_decimal(&mut out, *stride as u128);
                push_text(&mut out, " is shorter than the active row size ");
                push_decimal(&mut out, *minimum as u128);
            },
            RenderBufferError::InvalidBufferLength { actual, expected } => {
                push_text(&mut out, "pixel buffer has ");
                push_decimal(&mut out, *actual as u128);
                push_text(&mut out, " bytes; expected ");
                push_decimal(&mut out, *expected as u128);
            },
            RenderBufferError::SizeOverflow => {
                push_text(&mut out, "rendered bitmap dimensions overflow the host address space");
            },
        }
        assert(out@ =~= self.spec_message());
        text_of(&out)
    }
}

/// What a rendered page is made of.
pub struct RenderedView {
    pub page: u32,
    pub page_width: Single,
    pub page_height: Single,
    pub width: u32,
    pub height: u32,
    pub stride: usize,
    pub format: RenderPixelFormat,
    pub pixels: Seq<u8>,
    pub transform: PageTransform,
}

impl RenderedView {
    /// Bytes of one active row.
    pub open spec fn row_bytes(self) -> nat {
        self.width as nat * self.format.channels()
    }

    /// The page size is made of positive finite numbers.
    pub open spec fn sized(self) -> bool {
        &&& !self.page_width.spec_at_most(Single { bits: 0 })
        &&& !self.page_height.spec_at_most(Single { bits: 0 })
        &&& self.page_width.spec_finite()
        &&& self.page_height.spec_finite()
    }

    /// The first thing wrong with the parts of a page, if anything is.
    pub open spec fn fault(self) -> Option<RenderBufferError> {
        if self.page == 0 {
            Some(RenderBufferError::InvalidPageNumber)
        } else if self.width == 0 || self.height == 0 {
            Some(RenderBufferError::InvalidDimensions)
        } else if !self.sized() {
            Some(RenderBufferError::InvalidPageDimensions)
        } else if self.transform.spec_width() != self.width || self.transform.spec_height() != self.height {
            Some(RenderBufferError::TransformDimensions)
        } else if self.row_bytes() > usize::MAX {
            Some(RenderBufferError::SizeOverflow)
        } else if self.stride < self.row_bytes() {
            Some(RenderBufferError::InvalidStride { stride: self.stride, minimum: self.row_bytes() as usize })
        } else if self.stride * self.height > usize::MAX {
            Some(RenderBufferError::SizeOverflow)
        } else if self.pixels.len() != self.stride * self.height {
            Some(
                RenderBufferError::InvalidBufferLength {
                    actual: self.pixels.len() as usize,
                    expected: (self.stride * self.height) as usize,
                },
            )
        } else {
            None
        }
    }

    /// What holds of every rendered page.
    pub open spec fn wf(self) -> bool {
        self.fault() is None
    }

    /// Where the bytes of a pixel start.
    pub open spec fn offset(self, x: int, y: int) -> int {
        y * self.stride + x * self.format.channels()
    }
}

/// One rendered page with owned pixels and its pixel-to-PDF transform.
///
/// The value contains no live renderer, page, or document handles. It can be
/// moved to an OCR worker and retained after rendering returns.
#[derive(Debug)]
pub struct RenderedPage {
    page: u32,
    page_width: Single,
    page_height: Single,
    width: u32,
    height: u32,
    stride: usize,
    format: RenderPixelFormat,
    pixels: Vec<u8>,
    transform: PageTransform,
}

impl View for RenderedPage {
    type V = RenderedView;

    closed spec fn view(&self) -> RenderedView {
        RenderedView {
            page: self.page,
            page_width: self.page_width,
            page_height: self.page_height,
            width: self.width,
            height: self.height,
            stride: self.stride,
            format: self.format,
            pixels: self.pixels@,
            transform: self.transform,
        }
    }
}

/// The least of four numbers, NaNs left aside.
pub open spec fn least_of(a: Single, b: Single, c: Single, d: Single) -> Single {
    (Single { bits: INFINITY_BITS }).spec_min(a).spec_min(b).spec_min(c).spec_min(d)
}

/// The greatest of four numbers, NaNs left aside.
pub open spec fn greatest_of(a: Single, b: Single, c: Single, d: Single) -> Single {
    (Single { bits: NEGATIVE_INFINITY_BITS }).spec_max(a).spec_max(b).spec_max(c).spec_max(d)
}

fn least(a: Single, b: Single, c: Single, d: Single) -> (r: Single)
    ensures
        r == least_of(a, b, c, d),
{
    Single { bits: INFINITY_BITS }.min(a).min(b).min(c).min(d)
}

fn greatest(a: Single, b: Single, c: Single, d: Single) -> (r: Single)
    ensures
        r == greatest_of(a, b, c, d),
{
    Single { bits: NEGATIVE_INFINITY_BITS }.max(a).max(b).max(c).max(d)
}

/// The least of four double-precision numbers, NaNs left aside.
pub open spec fn least_double(a: Double, b: Double, c: Double, d: Double) -> Double {
    (Double { bits: DOUBLE_INFINITY_BITS }).spec_min(a).spec_min(b).spec_min(c).spec_min(d)
}

/// The greatest of four double-precision numbers, NaNs left aside.
pub open spec fn greatest_double(a: Double, b: Double, c: Double, d: Double) -> Double {
    (Double { bits: DOUBLE_NEGATIVE_INFINITY_BITS }).spec_max(a).spec_max(b).spec_max(c).spec_max(d)
}

/// The bounds on the page of a bitmap rectangle: the smallest upright
/// rectangle around the images of its four corners.
pub open spec fn page_bounds(page: RenderedView, x: Double, y: Double, width: Double, height: Double) -> PdfRect {
    let right = x.spec_plus(width);
    let below = y.spec_plus(height);
    let a = page.transform.page_point(x, y);
    let b = page.transform.page_point(right, y);
    let c = page.transform.page_point(x, below);
    let d = page.transform.page_point(right, below);
    let left = least_of(a.x, b.x, c.x, d.x);
    let bottom = least_of(a.y, b.y, c.y, d.y);
    PdfRect {
        x: left,
        y: bottom,
        width: greatest_of(a.x, b.x, c.x, d.x).spec_minus(left),
        height: greatest_of(a.y, b.y, c.y, d.y).spec_minus(bottom),
        page: page.page,
    }
}

/// The bounds in the bitmap of a page rectangle: left, top, width, height.
pub open spec fn pixel_bounds(page: RenderedView, rect: PdfRect) -> (Double, Double, Double, Double) {
    let left = Double::spec_widened(rect.x);
    let right = Double::spec_widened(rect.x.spec_plus(rect.width));
    let bottom = Double::spec_widened(rect.y);
    let top = Double::spec_widened(rect.y.spec_plus(rect.height));
    let a = page.transform.back().image(left, bottom);
    let b = page.transform.back().image(right, bottom);
    let c = page.transform.back().image(left, top);
    let d = page.transform.back().image(right, top);
    let x = least_double(a.0, b.0, c.0, d.0);
    let y = least_double(a.1, b.1, c.1, d.1);
    (
        x,
        y,
        greatest_double(a.0, b.0, c.0, d.0).spec_minus(x),
        greatest_double(a.1, b.1, c.1, d.1).spec_minus(y),
    )
}

impl RenderedPage {
    #[verifier::type_invariant]
    spec fn holds(self) -> bool {
        self@.wf()
    }

    /// Creates a renderer-neutral owned page after validating its buffer.
    pub fn new(
        page: u32,
        page_width: Single,
        page_height: Single,
        width: u32,
        height: u32,
        stride: usize,
        format: RenderPixelFormat,
        pixels: Vec<u8>,
        transform: PageTransform,
    ) -> (r: Result<Self, RenderBufferError>)
        ensures
            ({
                let parts = RenderedView {
                    page,
                    page_width,
                    page_height,
                    width,
                    height,
                    stride,
                    format,
                    pixels: pixels@,
                    transform,
                };
                match r {
                    Ok(built) => parts.fault() is None && built@ == parts,
                    Err(error) => parts.fault() == Some(error),
                }
            }),
    {
        if page == 0 {
            return Err(RenderBufferError::InvalidPageNumber);
        }
        if width == 0 || height == 0 {
            return Err(RenderBufferError::InvalidDimensions);
        }
        if page_width.at_most(Single::zero()) || page_height.at_most(Single::zero()) || !page_width.is_finite()
            || !page_height.is_finite() {
            return Err(RenderBufferError::InvalidPageDimensions);
        }
        if transform.pixel_width() != width || transform.pixel_height() != height {
            return Err(RenderBufferError::TransformDimensions);
        }
        let row_bytes: usize = match (width as usize).checked_mul(format.bytes_per_pixel()) {
            Some(bytes) => bytes,
            None => {
                return Err(RenderBufferError::SizeOverflow);
            },
        };
        if stride < row_bytes {
            return Err(RenderBufferError::InvalidStride { stride, minimum: row_bytes });
        }
        let expected: usize = match stride.checked_mul(height as usize) {
            Some(bytes) => bytes,
            None => {
                return Err(RenderBufferError::SizeOverflow);
            },
        };
        if pixels.len() != expected {
            return Err(RenderBufferError::InvalidBufferLength { actual: pixels.len(), expected });
        }
        Ok(RenderedPage { page, page_width, page_height, width, height, stride, format, pixels, transform })
    }

    /// 1-indexed page number.
    pub fn page(&self) -> (r: u32)
        ensures
            r == self@.page,
            self@.wf(),
    {
        proof {
            use_type_invariant(self);
        }
        self.page
    }

    /// Page width in PDF points after applying the page's rotation.
    pub fn page_width(&self) -> (r: Single)
        ensures
            r == self@.page_width,
    {
        self.page_width
    }

    /// Page height in PDF points after applying the page's rotation.
    pub fn page_height(&self) -> (r: Single)
        ensures
            r == self@.page_height,
    {
        self.page_height
    }

    /// Bitmap width in pixels.
    pub fn width(&self) -> (r: u32)
        ensures
            r == self@.width,
            self@.wf(),
    {
        proof {
            use_type_invariant(self);
        }
        self.width
    }

    /// Bitmap height in pixels.
    pub fn height(&self) -> (r: u32)
        ensures
            r == self@.height,
            self@.wf(),
    {
        proof {
            use_type_invariant(self);
        }
        self.height
    }

    /// Number of bytes between adjacent bitmap rows.
    pub fn stride(&self) -> (r: usize)
        ensures
            r == self@.stride,
    {
        self.stride
    }

    /// Pixel layout of the bitmap bytes.
    pub fn format(&self) -> (r: RenderPixelFormat)
        ensures
            r == self@.format,
    {
        self.format
    }

    /// Owned bitmap bytes, with rows ordered top-to-bottom.
    pub fn pixels(&self) -> (r: &Vec<u8>)
        ensures
            r@ == self@.pixels,
    {
        &self.pixels
    }

    /// Consumes the page and returns its pixel buffer.
    pub fn into_pixels(self) -> (r: Vec<u8>)
        ensures
            r@ == self@.pixels,
    {
        self.pixels
    }

    /// Coordinate transform associated with the rendered page.
    pub fn transform(&self) -> (r: PageTransform)
        ensures
            r == self@.transform,
    {
        self.transform
    }

    /// Converts a bitmap point (top-left origin, y-down) to PDF page space
    /// (bottom-left origin, y-up).
    pub fn pixel_to_page(&self, x: Double, y: Double) -> (r: PagePoint)
        ensures
            r == self@.transform.page_point(x, y),
    {
        self.transform.pixel_to_page(x, y)
    }

    /// Converts a bitmap rectangle to a PDF-space rectangle. The returned page
    /// number remains 1-indexed.
    pub fn pixel_rect_to_pdf_rect(&self, x: Double, y: Double, width: Double, height: Double) -> (r: PdfRect)
        ensures
            r == page_bounds(self@, x, y, width, height),
    {
        let right = x.plus(width);
        let below = y.plus(height);
        let a = self.transform.pixel_to_page(x, y);
        let b = self.transform.pixel_to_page(right, y);
        let c = self.transform.pixel_to_page(x, below);
        let d = self.transform.pixel_to_page(right, below);
        let left = least(a.x, b.x, c.x, d.x);
        let bottom = least(a.y, b.y, c.y, d.y);
        PdfRect {
            x: left,
            y: bottom,
            width: greatest(a.x, b.x, c.x, d.x).minus(left),
            height: greatest(a.y, b.y, c.y, d.y).minus(bottom),
            page: self.page,
        }
    }

    /// Converts a PDF-space rectangle to bitmap coordinates
    /// `(x, y, width, height)` with a top-left origin.
    pub fn pdf_rect_to_pixel(&self, rect: &PdfRect) -> (r: (Double, Double, Double, Double))
        ensures
            r == pixel_bounds(self@, *rect),
    {
        let left = Double::widened(rect.x);
        let right = Double::widened(rect.x.plus(rect.width));
        let bottom = Double::widened(rect.y);
        let top = Double::widened(rect.y.plus(rect.height));
        let a = self.transform.page_to_pixel(left, bottom);
        let b = self.transform.page_to_pixel(right, bottom);
        let c = self.transform.page_to_pixel(left, top);
        let d = self.transform.page_to_pixel(right, top);
        let x = Double { bits: DOUBLE_INFINITY_BITS }.min(a.0).min(b.0).min(c.0).min(d.0);
        let y = Double { bits: DOUBLE_INFINITY_BITS }.min(a.1).min(b.1).min(c.1).min(d.1);
        let right_most = Double { bits: DOUBLE_NEGATIVE_INFINITY_BITS }.max(a.0).max(b.0).max(c.0).max(d.0);
        let lowest = Double { bits: DOUBLE_NEGATIVE_INFINITY_BITS }.max(a.1).max(b.1).max(c.1).max(d.1);
        (x, y, right_most.minus(x), lowest.minus(y))
    }
}

/// Every pixel of a rendered page lies in its row, and every row in the buffer.
pub proof fn law_pixels_lie_in_the_buffer(page: RenderedView, x: int, y: int)
    requires
        page.wf(),
        0 <= x < page.width,
        0 <= y < page.height,
    ensures
        y * page.stride <= page.offset(x, y),
        page.offset(x, y) + page.format.channels() <= (y + 1) * page.stride <= page.pixels.len(),
{
    let channels = page.format.channels() as int;
    let stride = page.stride as int;
    let width = page.width as int;
    let height = page.height as int;
    assert(0 <= x * channels && x * channels + channels <= width * channels) by (nonlinear_arith)
        requires
            0 <= x < width,
            channels >= 0,
    ;
    assert((y + 1) * stride == y * stride + stride) by (nonlinear_arith);
    assert((y + 1) * stride <= stride * height) by (nonlinear_arith)
        requires
            0 <= y < height,
            stride >= 0,
    ;
}

/// The bytes of two pixels of a rendered page do not overlap.
pub proof fn law_pixels_do_not_overlap(page: RenderedView, x: int, y: int, other_x: int, other_y: int)
    requires
        page.wf(),
        0 <= x < page.width,
        0 <= other_x < page.width,
        0 <= y < page.height,
        0 <= other_y < page.height,
        x != other_x || y != other_y,
    ensures
        page.offset(x, y) + page.format.channels() <= page.offset(other_x, other_y) || page.offset(other_x, other_y)
            + page.format.channels() <= page.offset(x, y),
{
    law_pixels_lie_in_the_buffer(page, x, y);
    law_pixels_lie_in_the_buffer(page, other_x, other_y);
    let stride = page.stride as int;
    let channels = page.format.channels() as int;
    if y < other_y {
        assert((y + 1) * stride <= other_y * stride) by (nonlinear_arith)
            requires
                y < other_y,
                stride >= 0,
        ;
    } else if other_y < y {
        assert((other_y + 1) * stride <= y * stride) by (nonlinear_arith)
            requires
                other_y < y,
                stride >= 0,
        ;
    } else if x < other_x {
        assert(x * channels + channels <= other_x * channels) by (nonlinear_arith)
            requires
                x < other_x,
                channels >= 0,
        ;
    } else {
        assert(other_x * channels + channels <= x * channels) by (nonlinear_arith)
            requires
                other_x < x,
                channels >= 0,
        ;
    }
}

} // verus!
