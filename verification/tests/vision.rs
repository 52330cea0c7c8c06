use pdf_inspector::double::Double;
use pdf_inspector::single::Single;
use pdf_inspector::types::PdfRect;
use pdf_inspector::vision::detection::{
    after_escalated, after_standard, first_step, page_regions, DetectionStep,
};
use pdf_inspector::vision::download::{
    default_onnx_runtime_library, onnx_runtime_library_path, response_limit, HttpModelDownloadError,
};
use pdf_inspector::vision::image_analysis::region_has_document_like_ink;
use pdf_inspector::vision::oar::{
    intra_threads_per_pipeline, median_detection_height, ocr_session_config, pipeline_concurrency, polygon_height,
    regions_in_reading_order, rendered_page_to_rgb, required_model, should_escalate_detection, validate_options,
    ModelArtifactKind, ModelPaths, OarOcrError,
};
use pdf_inspector::vision::ocr::{
    ImagePoint, ImageQuad, ModelIdentity, OcrEngine, OcrMode, OcrOptions, OcrPage, OcrSpan, PageRenderer,
};
use pdf_inspector::vision::regions::{assemble_page, bounding_box_to_quad, RegionReading};
use pdf_inspector::vision::render::{
    PageTransform, RenderBufferError, RenderOptions, RenderPixelFormat, RenderedPage,
};
use pdf_inspector::vision::routing::{
    assemble_run, route_ocr_pages, run_ocr_pages, saturated_ms, OcrRoutingError, OcrRunError, OcrStage, PageSource,
};

use oar_ocr::processors::{BoundingBox, Point};

fn f(x: f32) -> Single {
    Single { bits: x.to_bits() }
}

fn d(x: f64) -> Double {
    Double { bits: x.to_bits() }
}

fn value(x: Single) -> f32 {
    f32::from_bits(x.bits)
}

fn wide(x: Double) -> f64 {
    f64::from_bits(x.bits)
}

fn corners(
    width: u32,
    height: u32,
    origin: (f64, f64),
    x_axis: (f64, f64),
    y_axis: (f64, f64),
) -> Option<PageTransform> {
    PageTransform::from_corners(
        width,
        height,
        (d(origin.0), d(origin.1)),
        (d(x_axis.0), d(x_axis.1)),
        (d(y_axis.0), d(y_axis.1)),
    )
}

fn transform() -> PageTransform {
    corners(400, 200, (0.0, 100.0), (200.0, 100.0), (0.0, 0.0)).unwrap()
}

#[test]
fn transform_maps_both_directions_at_non_identity_scale() {
    let transform = transform();
    let point = transform.pixel_to_page(d(100.0), d(50.0));
    assert!((value(point.x) - 50.0).abs() < 1e-6);
    assert!((value(point.y) - 75.0).abs() < 1e-6);
    let pixel = transform.page_to_pixel(d(f64::from(value(point.x))), d(f64::from(value(point.y))));
    assert!((wide(pixel.0) - 100.0).abs() < 1e-6);
    assert!((wide(pixel.1) - 50.0).abs() < 1e-6);
}

#[test]
fn rendered_page_accepts_padding_and_validates_length() {
    let page = RenderedPage::new(
        1,
        f(200.0),
        f(100.0),
        400,
        200,
        1_204,
        RenderPixelFormat::Rgb8,
        vec![0; 1_204 * 200],
        transform(),
    )
    .unwrap();
    assert_eq!(page.stride(), 1_204);

    assert!(matches!(
        RenderedPage::new(
            1,
            f(200.0),
            f(100.0),
            400,
            200,
            1_204,
            RenderPixelFormat::Rgb8,
            vec![0; 5],
            transform(),
        ),
        Err(RenderBufferError::InvalidBufferLength { .. })
    ));
}

#[test]
fn rotated_transform_round_trips_rectangles() {
    let transform = corners(100, 200, (0.0, 0.0), (0.0, 100.0), (200.0, 0.0)).unwrap();
    let page = RenderedPage::new(
        1,
        f(200.0),
        f(100.0),
        100,
        200,
        300,
        RenderPixelFormat::Rgb8,
        vec![0; 300 * 200],
        transform,
    )
    .unwrap();
    let pdf = page.pixel_rect_to_pdf_rect(d(10.0), d(20.0), d(30.0), d(40.0));
    let pixel = page.pdf_rect_to_pixel(&pdf);
    assert!((wide(pixel.0) - 10.0).abs() < 1e-5);
    assert!((wide(pixel.1) - 20.0).abs() < 1e-5);
    assert!((wide(pixel.2) - 30.0).abs() < 1e-5);
    assert!((wide(pixel.3) - 40.0).abs() < 1e-5);
}

#[test]
fn skewed_transform_bounds_all_rectangle_corners() {
    let transform = corners(100, 100, (0.0, 100.0), (100.0, 125.0), (25.0, 0.0)).unwrap();
    let page = RenderedPage::new(
        1,
        f(125.0),
        f(125.0),
        100,
        100,
        300,
        RenderPixelFormat::Rgb8,
        vec![0; 30_000],
        transform,
    )
    .unwrap();

    let pdf = page.pixel_rect_to_pdf_rect(d(10.0), d(20.0), d(30.0), d(40.0));
    assert!((value(pdf.x) - 15.0).abs() < 1e-5);
    assert!((value(pdf.y) - 42.5).abs() < 1e-5);
    assert!((value(pdf.width) - 40.0).abs() < 1e-5);
    assert!((value(pdf.height) - 47.5).abs() < 1e-5);

    let pixels = page.pdf_rect_to_pixel(&pdf);
    assert!(wide(pixels.0) <= 10.0 && wide(pixels.1) <= 20.0);
    assert!(wide(pixels.0) + wide(pixels.2) >= 40.0 && wide(pixels.1) + wide(pixels.3) >= 60.0);
}

#[test]
fn transforms_need_an_area_and_finite_corners() {
    assert!(corners(0, 200, (0.0, 100.0), (200.0, 100.0), (0.0, 0.0)).is_none());
    assert!(corners(400, 0, (0.0, 100.0), (200.0, 100.0), (0.0, 0.0)).is_none());
    assert!(corners(400, 200, (f64::NAN, 100.0), (200.0, 100.0), (0.0, 0.0)).is_none());
    assert!(corners(400, 200, (0.0, f64::INFINITY), (200.0, 100.0), (0.0, 0.0)).is_none());
    assert!(corners(400, 200, (1.0, 1.0), (1.0, 1.0), (1.0, 1.0)).is_none());
    assert!(corners(1, 1, (f64::MAX, 0.0), (-f64::MAX, 0.0), (0.0, 1.0)).is_none());
}

#[test]
fn every_fault_of_a_rendered_page_is_told_apart() {
    let new = |page, w: f32, h: f32, width, height, stride, length| {
        RenderedPage::new(
            page,
            f(w),
            f(h),
            width,
            height,
            stride,
            RenderPixelFormat::Gray8,
            vec![0; length],
            corners(2, 2, (0.0, 2.0), (2.0, 2.0), (0.0, 0.0)).unwrap(),
        )
        .unwrap_err()
    };
    assert_eq!(new(0, 2.0, 2.0, 2, 2, 2, 4), RenderBufferError::InvalidPageNumber);
    assert_eq!(new(1, 2.0, 2.0, 0, 2, 2, 4), RenderBufferError::InvalidDimensions);
    assert_eq!(new(1, 0.0, 2.0, 2, 2, 2, 4), RenderBufferError::InvalidPageDimensions);
    assert_eq!(new(1, 2.0, f32::NAN, 2, 2, 2, 4), RenderBufferError::InvalidPageDimensions);
    assert_eq!(new(1, 2.0, 2.0, 3, 2, 3, 6), RenderBufferError::TransformDimensions);
    assert_eq!(
        new(1, 2.0, 2.0, 2, 2, 1, 2),
        RenderBufferError::InvalidStride { stride: 1, minimum: 2 }
    );
    assert_eq!(new(1, 2.0, 2.0, 2, 2, usize::MAX, 4), RenderBufferError::SizeOverflow);
    assert_eq!(
        new(1, 2.0, 2.0, 2, 2, 2, 5),
        RenderBufferError::InvalidBufferLength { actual: 5, expected: 4 }
    );
    assert_eq!(
        new(1, 2.0, 2.0, 2, 2, 2, 5).message(),
        "pixel buffer has 5 bytes; expected 4"
    );
    assert_eq!(
        new(1, 2.0, 2.0, 2, 2, 1, 2).message(),
        "pixel stride 1 is shorter than the active row size 2"
    );
    assert_eq!(
        RenderBufferError::InvalidTransform.message(),
        "renderer returned an invalid coordinate transform"
    );
}

#[test]
fn rendered_pages_give_back_their_parts() {
    let page = RenderedPage::new(
        3,
        f(2.0),
        f(4.0),
        2,
        2,
        3,
        RenderPixelFormat::Gray8,
        vec![1, 2, 99, 3, 4, 99],
        corners(2, 2, (0.0, 2.0), (2.0, 2.0), (0.0, 0.0)).unwrap(),
    )
    .unwrap();
    assert_eq!(page.page(), 3);
    assert_eq!((page.width(), page.height()), (2, 2));
    assert_eq!((value(page.page_width()), value(page.page_height())), (2.0, 4.0));
    assert_eq!(page.format(), RenderPixelFormat::Gray8);
    assert_eq!(page.pixels(), &vec![1, 2, 99, 3, 4, 99]);
    assert_eq!(page.transform().pixel_width(), 2);
    assert_eq!(page.transform().pixel_height(), 2);
    let corner = page.pixel_to_page(d(0.0), d(0.0));
    assert_eq!((value(corner.x), value(corner.y)), (0.0, 2.0));
    assert_eq!(page.into_pixels(), vec![1, 2, 99, 3, 4, 99]);
}

#[test]
fn render_options_start_from_ocr_defaults() {
    let options = RenderOptions::new();
    assert_eq!(value(options.dpi), 150.0);
    assert_eq!(options.pixel_format, RenderPixelFormat::Rgb8);
    assert!(options.annotations && options.form_fields);
    assert_eq!(options.max_output_bytes_per_page, 256 * 1024 * 1024);
    let changed = options
        .dpi(f(300.0))
        .pixel_format(RenderPixelFormat::Gray8)
        .annotations(false)
        .form_fields(false)
        .max_output_bytes_per_page(7);
    assert_eq!(value(changed.dpi), 300.0);
    assert_eq!(changed.pixel_format, RenderPixelFormat::Gray8);
    assert!(!changed.annotations && !changed.form_fields);
    assert_eq!(changed.max_output_bytes_per_page, 7);
    assert_eq!(RenderPixelFormat::default(), RenderPixelFormat::Rgb8);
    assert_eq!(RenderPixelFormat::Rgb8.bytes_per_pixel(), 3);
    assert_eq!(RenderPixelFormat::Rgba8.bytes_per_pixel(), 4);
    assert_eq!(RenderPixelFormat::Gray8.bytes_per_pixel(), 1);
}

fn rendered_gray_page(pixels: Vec<u8>) -> RenderedPage {
    RenderedPage::new(
        1,
        f(20.0),
        f(20.0),
        20,
        20,
        20,
        RenderPixelFormat::Gray8,
        pixels,
        corners(20, 20, (0.0, 20.0), (20.0, 20.0), (0.0, 0.0)).unwrap(),
    )
    .unwrap()
}

#[test]
fn requires_document_like_ink_rows() {
    let region = PdfRect { x: f(0.0), y: f(0.0), width: f(20.0), height: f(20.0), page: 1 };
    let mut document = vec![255; 400];
    for y in [4usize, 10, 16] {
        for x in 4usize..16 {
            document[y * 20 + x] = 0;
        }
    }
    assert!(region_has_document_like_ink(&rendered_gray_page(document), &region));
    assert!(!region_has_document_like_ink(&rendered_gray_page(vec![128; 400]), &region));
}

#[test]
fn ink_is_looked_for_in_the_region_alone() {
    let mut document = vec![255; 400];
    for y in [4usize, 10, 16] {
        for x in 4usize..16 {
            document[y * 20 + x] = 0;
        }
    }
    let page = rendered_gray_page(document);
    let narrow = PdfRect { x: f(0.0), y: f(0.0), width: f(4.0), height: f(20.0), page: 1 };
    assert!(!region_has_document_like_ink(&page, &narrow));
    let beside = PdfRect { x: f(100.0), y: f(0.0), width: f(20.0), height: f(20.0), page: 1 };
    assert!(!region_has_document_like_ink(&page, &beside));
    let nowhere = PdfRect { x: f(f32::NAN), y: f(0.0), width: f(20.0), height: f(20.0), page: 1 };
    assert!(!region_has_document_like_ink(&page, &nowhere));
}

#[test]
fn ink_is_weighed_by_luminance() {
    // Green counts twice as much as red, and blue hardly counts.
    let mut pixels = vec![255u8; 20 * 20 * 3];
    for y in [4usize, 10, 16] {
        for x in 4usize..16 {
            let at = (y * 20 + x) * 3;
            pixels[at] = 0;
            pixels[at + 1] = 0;
        }
    }
    let page = |pixels| {
        RenderedPage::new(
            1,
            f(20.0),
            f(20.0),
            20,
            20,
            60,
            RenderPixelFormat::Rgb8,
            pixels,
            corners(20, 20, (0.0, 20.0), (20.0, 20.0), (0.0, 0.0)).unwrap(),
        )
        .unwrap()
    };
    let region = PdfRect { x: f(0.0), y: f(0.0), width: f(20.0), height: f(20.0), page: 1 };
    assert!(region_has_document_like_ink(&page(pixels), &region));
    let mut bluish = vec![255u8; 20 * 20 * 3];
    for y in [4usize, 10, 16] {
        for x in 4usize..16 {
            bluish[(y * 20 + x) * 3 + 2] = 0;
        }
    }
    assert!(!region_has_document_like_ink(&page(bluish), &region));
}

#[test]
fn off_auto_and_force_route_expected_pages() {
    assert_eq!(
        route_ocr_pages(OcrMode::Off, 0, &vec![99], Some(&vec![0])).unwrap(),
        Vec::<u32>::new()
    );
    assert_eq!(
        route_ocr_pages(OcrMode::Auto, 5, &vec![5, 3, 3, 1], Some(&vec![2, 3, 5])).unwrap(),
        vec![3, 5]
    );
    assert_eq!(
        route_ocr_pages(OcrMode::Force, 4, &vec![], None).unwrap(),
        vec![1, 2, 3, 4]
    );
    assert_eq!(
        route_ocr_pages(OcrMode::Force, 4, &vec![], Some(&vec![4, 2, 2])).unwrap(),
        vec![2, 4]
    );
}

#[test]
fn routing_rejects_invalid_page_numbers() {
    assert!(matches!(
        route_ocr_pages(OcrMode::Auto, 2, &vec![0], None),
        Err(OcrRoutingError::InvalidPage { page: 0, .. })
    ));
    assert!(matches!(
        route_ocr_pages(OcrMode::Force, 2, &vec![], Some(&vec![3])),
        Err(OcrRoutingError::InvalidPage { page: 3, .. })
    ));
}

#[test]
fn routing_reports_the_first_invalid_page_and_its_list() {
    let error = route_ocr_pages(OcrMode::Auto, 4, &vec![1, 7, 9], Some(&vec![0])).unwrap_err();
    assert_eq!(
        error,
        OcrRoutingError::InvalidPage { source_name: PageSource::Recommended, page: 7, page_count: 4 }
    );
    assert_eq!(error.message(), "recommended OCR page 7 is outside the valid range 1..=4");
    let error = route_ocr_pages(OcrMode::Auto, 4, &vec![1], Some(&vec![0])).unwrap_err();
    assert_eq!(error.message(), "selected OCR page 0 is outside the valid range 1..=4");
    // Force does not look at the recommendations.
    assert_eq!(route_ocr_pages(OcrMode::Force, 1, &vec![9], None).unwrap(), vec![1]);
    assert_eq!(route_ocr_pages(OcrMode::Auto, 4, &vec![4, 2], None).unwrap(), vec![2, 4]);
}

struct FakeRenderer {
    offset: u32,
}

impl PageRenderer for FakeRenderer {
    fn render_pages(
        &self,
        _pdf_bytes: &Vec<u8>,
        pages: &Vec<u32>,
        _password: Option<&str>,
        _options: &RenderOptions,
    ) -> Result<Vec<RenderedPage>, String> {
        pages
            .iter()
            .map(|page| rendered_page(page + self.offset).map_err(|_| "fake failure".to_string()))
            .collect()
    }
}

struct FakeEngine {
    fails: bool,
    drops: bool,
}

impl OcrEngine for FakeEngine {
    fn recognize(&self, pages: &Vec<RenderedPage>, _options: &OcrOptions) -> Result<Vec<OcrPage>, String> {
        if self.fails {
            return Err("fake failure".to_string());
        }
        let skipped = if self.drops { 1 } else { 0 };
        Ok(pages.iter().skip(skipped).map(|page| recognized_page(page.page())).collect())
    }
}

fn recognized_page(page: u32) -> OcrPage {
    OcrPage {
        page_number: page,
        spans: vec![OcrSpan {
            text: format!("page {page}"),
            polygon: ImageQuad::new([
                ImagePoint::new(f(0.0), f(0.0)),
                ImagePoint::new(f(1.0), f(0.0)),
                ImagePoint::new(f(1.0), f(1.0)),
                ImagePoint::new(f(0.0), f(1.0)),
            ]),
            confidence: f(0.9),
            orientation_degrees: None,
        }],
        mean_confidence: Some(f(0.9)),
        model: ModelIdentity::new("fake", "v1"),
        processing_time_ms: 1,
        warnings: Vec::new(),
    }
}

fn rendered_page(page: u32) -> Result<RenderedPage, RenderBufferError> {
    RenderedPage::new(
        page,
        f(1.0),
        f(1.0),
        1,
        1,
        3,
        RenderPixelFormat::Rgb8,
        vec![255; 3],
        corners(1, 1, (0.0, 1.0), (1.0, 1.0), (0.0, 0.0)).unwrap(),
    )
}

#[test]
fn run_retains_render_transforms_and_input_order() {
    let options = OcrOptions::new().mode(OcrMode::Auto);
    let run = run_ocr_pages(
        &FakeRenderer { offset: 0 },
        &FakeEngine { fails: false, drops: false },
        &b"pdf".to_vec(),
        &vec![2, 4],
        None,
        &RenderOptions::new(),
        &options,
    )
    .unwrap();
    assert_eq!(
        run.pages.iter().map(|page| page.rendered.page()).collect::<Vec<_>>(),
        vec![2, 4]
    );
    assert_eq!(run.pages[1].ocr.spans[0].text, "page 4");
    assert_eq!(value(run.pages[1].rendered.pixel_to_page(d(0.0), d(0.0)).y), 1.0);
}

#[test]
fn empty_route_is_a_noop_even_when_ocr_is_off() {
    let run = run_ocr_pages(
        &FakeRenderer { offset: 0 },
        &FakeEngine { fails: false, drops: false },
        &b"pdf".to_vec(),
        &vec![],
        None,
        &RenderOptions::new(),
        &OcrOptions::new(),
    )
    .unwrap();
    assert!(run.pages.is_empty());
    assert_eq!(run.render_time_ms, 0);
    assert_eq!(run.ocr_time_ms, 0);
}

#[test]
fn every_failure_of_a_run_is_told_apart() {
    let run = |offset, fails, drops, mode| {
        run_ocr_pages(
            &FakeRenderer { offset },
            &FakeEngine { fails, drops },
            &b"pdf".to_vec(),
            &vec![2, 4],
            Some("secret"),
            &RenderOptions::new(),
            &OcrOptions::new().mode(mode),
        )
        .unwrap_err()
    };
    let disabled = run(0, false, false, OcrMode::Off);
    assert!(matches!(disabled, OcrRunError::OcrDisabled));
    assert_eq!(disabled.message(), "cannot process routed pages while OCR mode is Off");
    let moved = run(1, false, false, OcrMode::Force);
    assert!(matches!(moved, OcrRunError::PageOrderMismatch { stage: OcrStage::Renderer, .. }));
    assert_eq!(moved.message(), "renderer returned pages [3, 5]; expected [2, 4]");
    let dropped = run(0, false, true, OcrMode::Force);
    assert_eq!(dropped.message(), "OCR engine returned pages [4]; expected [2, 4]");
    let failed = run(0, true, false, OcrMode::Force);
    assert_eq!(failed.message(), "OCR inference failed: fake failure");
    // The page number wraps to 0, which no page has.
    let unrendered = run(u32::MAX - 3, false, false, OcrMode::Force);
    assert_eq!(unrendered.message(), "page rendering failed: fake failure");
}

#[test]
fn runs_are_assembled_from_what_both_stages_returned() {
    let run = assemble_run(
        &vec![1, 3],
        vec![rendered_page(1).unwrap(), rendered_page(3).unwrap()],
        vec![recognized_page(1), recognized_page(3)],
        5,
        7,
    )
    .unwrap();
    assert_eq!((run.render_time_ms, run.ocr_time_ms), (5, 7));
    assert_eq!(run.pages[0].rendered.page(), 1);
    assert_eq!(run.pages[0].ocr.spans[0].text, "page 1");
    assert_eq!(run.pages[1].rendered.page(), 3);
    assert_eq!(saturated_ms(12), 12);
    assert_eq!(saturated_ms(u128::MAX), u64::MAX);
}

#[test]
fn cpu_session_budget_is_bounded_for_small_ocr_models() {
    for cores in [1usize, 2, 4, 8, 16, 128] {
        let concurrency = pipeline_concurrency(cores);
        let config = ocr_session_config(intra_threads_per_pipeline(concurrency, cores));
        assert!((1..=4).contains(&config.intra_threads));
        assert_eq!(config.inter_threads, 1);
        assert_eq!(config.parallel_execution, false);
    }
    // Zero requests are clamped so a session always has a thread.
    assert_eq!(ocr_session_config(0).intra_threads, 1);
}

fn page(format: RenderPixelFormat, stride: usize, pixels: Vec<u8>) -> RenderedPage {
    let transform = corners(2, 2, (0.0, 2.0), (2.0, 2.0), (0.0, 0.0)).unwrap();
    RenderedPage::new(1, f(2.0), f(2.0), 2, 2, stride, format, pixels, transform).unwrap()
}

#[test]
fn converts_padded_rgb_without_exposing_padding() {
    let page = page(
        RenderPixelFormat::Rgb8,
        8,
        vec![1, 2, 3, 4, 5, 6, 99, 99, 7, 8, 9, 10, 11, 12, 99, 99],
    );
    let image = rendered_page_to_rgb(&page).unwrap();
    assert_eq!(image.bytes, vec![1, 2, 3, 4, 5, 6, 7, 8, 9, 10, 11, 12]);
    assert_eq!((image.width, image.height), (2, 2));
}

#[test]
fn converts_rgba_and_gray_to_rgb() {
    let rgba = page(
        RenderPixelFormat::Rgba8,
        8,
        vec![1, 2, 3, 44, 4, 5, 6, 55, 7, 8, 9, 66, 10, 11, 12, 77],
    );
    assert_eq!(
        rendered_page_to_rgb(&rgba).unwrap().bytes,
        vec![1, 2, 3, 4, 5, 6, 7, 8, 9, 10, 11, 12]
    );

    let gray = page(RenderPixelFormat::Gray8, 2, vec![1, 2, 3, 4]);
    assert_eq!(
        rendered_page_to_rgb(&gray).unwrap().bytes,
        vec![1, 1, 1, 2, 2, 2, 3, 3, 3, 4, 4, 4]
    );
}

fn polygon(points: &[(f32, f32)]) -> Vec<ImagePoint> {
    points.iter().map(|point| ImagePoint::new(f(point.0), f(point.1))).collect()
}

fn point(x: f32, y: f32) -> ImagePoint {
    ImagePoint::new(f(x), f(y))
}

#[test]
fn preserves_quads_and_clamps_them_to_the_bitmap() {
    let bbox = polygon(&[(-1.0, 2.0), (11.0, 2.0), (11.0, 9.0), (-1.0, 9.0)]);
    let quad = bounding_box_to_quad(&bbox, 10, 8).unwrap();
    assert_eq!(quad.points[0], point(0.0, 2.0));
    assert_eq!(quad.points[2], point(10.0, 8.0));
}

#[test]
fn reduces_polygons_to_a_stable_axis_aligned_quad() {
    let bbox = polygon(&[(2.0, 1.0), (7.0, 2.0), (8.0, 6.0), (5.0, 9.0), (1.0, 5.0)]);
    let quad = bounding_box_to_quad(&bbox, 10, 10).unwrap();
    assert_eq!(quad.points[0], point(1.0, 1.0));
    assert_eq!(quad.points[2], point(8.0, 9.0));
}

#[test]
fn normalizes_unordered_or_partially_invalid_quads() {
    let unordered = polygon(&[(1.0, 1.0), (8.0, 8.0), (8.0, 1.0), (1.0, 8.0)]);
    let quad = bounding_box_to_quad(&unordered, 10, 10).unwrap();
    assert_eq!(quad.points[0], point(1.0, 1.0));
    assert_eq!(quad.points[1], point(8.0, 1.0));
    assert_eq!(quad.points[2], point(8.0, 8.0));

    let partially_invalid = polygon(&[
        (8.0, 8.0),
        (f32::NAN, 4.0),
        (1.0, 8.0),
        (8.0, 1.0),
        (1.0, 1.0),
    ]);
    let quad = bounding_box_to_quad(&partially_invalid, 10, 10).unwrap();
    assert_eq!(quad.points[0], point(1.0, 1.0));
    assert_eq!(quad.points[1], point(8.0, 1.0));
    assert_eq!(quad.points[2], point(8.0, 8.0));
}

#[test]
fn polygons_without_extent_have_no_quad() {
    assert!(bounding_box_to_quad(&polygon(&[(1.0, 1.0), (2.0, 2.0)]), 10, 10).is_none());
    assert!(bounding_box_to_quad(&polygon(&[(1.0, 1.0), (1.0, 2.0), (1.0, 3.0)]), 10, 10).is_none());
    assert!(bounding_box_to_quad(&polygon(&[(20.0, 1.0), (30.0, 2.0), (40.0, 3.0)]), 10, 10).is_none());
}

#[test]
fn refuses_disabled_or_invalid_options_before_inference() {
    assert!(matches!(
        validate_options(&OcrOptions::new()),
        Err(OarOcrError::OcrDisabled)
    ));
    for value in [-0.1, 1.1, f32::NAN, f32::INFINITY] {
        let options = OcrOptions::new().mode(OcrMode::Force).minimum_confidence(f(value));
        assert!(matches!(
            validate_options(&options),
            Err(OarOcrError::InvalidMinimumConfidence { .. })
        ));
    }
    assert!(validate_options(&OcrOptions::new().mode(OcrMode::Auto).minimum_confidence(f(1.0))).is_ok());
}

#[test]
fn escalation_fires_for_dense_fine_print_pages() {
    assert!(should_escalate_detection(f(14.2), 186, f(0.55)));
    assert!(should_escalate_detection(f(13.1), 286, f(0.55)));
    assert!(should_escalate_detection(f(12.3), 158, f(0.55)));
    assert!(should_escalate_detection(f(12.0), 144, f(0.55)));
}

#[test]
fn escalation_skips_ordinary_pages() {
    // Academic prose: too few regions (and tall enough).
    assert!(!should_escalate_detection(f(14.5), 47, f(0.58)));
    // Engineering drawing: many regions but tall enough text.
    assert!(!should_escalate_detection(f(15.7), 205, f(0.58)));
    // Typewriter scan: tall text, few regions.
    assert!(!should_escalate_detection(f(17.5), 77, f(0.55)));
    // Page not downscaled at all: escalation cannot add pixels.
    assert!(!should_escalate_detection(f(9.0), 300, f(1.0)));
}

#[test]
fn median_detection_height_scales_and_handles_empty() {
    let heights = vec![f(30.0), f(10.0), f(20.0)];
    assert_eq!(value(median_detection_height(&heights, f(0.5))), 10.0);
    // Even counts average the two middle values instead of picking the
    // upper one, so borderline pages don't skew away from escalation.
    let even = vec![f(10.0), f(12.0), f(14.0), f(30.0)];
    assert_eq!(value(median_detection_height(&even, f(1.0))), 13.0);
    let empty: Vec<Single> = Vec::new();
    assert_eq!(value(median_detection_height(&empty, f(0.5))), f32::MAX);
}

#[test]
fn concurrency_derivations_stay_in_bounds() {
    for cores in [1usize, 3, 4, 8, 12, 64] {
        let concurrency = pipeline_concurrency(cores);
        assert!((1..=3).contains(&concurrency));
        assert!(intra_threads_per_pipeline(2, cores) == 2);
        assert!((1..=4).contains(&intra_threads_per_pipeline(1, cores)));
    }
    assert_eq!(pipeline_concurrency(8), 2);
    assert_eq!(pipeline_concurrency(100), 3);
}

fn bounding_box(x: f32, y: f32, width: f32, height: f32) -> BoundingBox {
    BoundingBox::new(vec![
        Point::new(x, y),
        Point::new(x + width, y),
        Point::new(x + width, y + height),
        Point::new(x, y + height),
    ])
}

#[test]
fn regions_are_read_from_top_to_bottom_and_left_to_right() {
    let regions = vec![
        bounding_box(50.0, 103.0, 10.0, 10.0),
        bounding_box(10.0, 200.0, 10.0, 10.0),
        bounding_box(10.0, 105.0, 10.0, 10.0),
    ];
    let (sorted, points) = regions_in_reading_order(&regions);
    assert_eq!(sorted.len(), 3);
    let starts: Vec<(f32, f32)> = points.iter().map(|p| (value(p[0].x), value(p[0].y))).collect();
    assert_eq!(starts, vec![(10.0, 105.0), (50.0, 103.0), (10.0, 200.0)]);
    assert_eq!(sorted[2].points[0].y, 200.0);
    assert_eq!(points[2].len(), 4);
    assert_eq!(value(polygon_height(&points[0])), 10.0);
    assert_eq!(value(polygon_height(&Vec::new())), 0.0);
}

#[test]
fn large_pages_go_straight_to_the_escalated_pass() {
    assert!(matches!(first_step::<String>(1920, 100), DetectionStep::Standard { last: false }));
    assert!(matches!(first_step::<String>(100, 1921), DetectionStep::Escalated { kept: None }));
    let direct = after_escalated::<String>(None, Some(Err("out of memory".to_string())));
    assert!(matches!(direct, DetectionStep::Standard { last: true }));
    let unbuilt = after_escalated::<String>(None, None);
    assert!(matches!(unbuilt, DetectionStep::Standard { last: false }));
    let done = after_escalated::<String>(None, Some(Ok(vec![bounding_box(0.0, 0.0, 1.0, 1.0)])));
    assert!(matches!(done, DetectionStep::Done { regions } if regions.len() == 1));
}

#[test]
fn dense_fine_print_is_looked_at_twice() {
    let dense: Vec<BoundingBox> = (0..90).map(|i| bounding_box(0.0, i as f32 * 20.0, 50.0, 12.0)).collect();
    // Not downscaled: nothing to gain.
    assert!(matches!(
        after_standard::<String>(false, 900, 900, Ok(dense.clone())),
        DetectionStep::Done { regions } if regions.len() == 90
    ));
    let second = after_standard::<String>(false, 1200, 1800, Ok(dense.clone()));
    let kept = match second {
        DetectionStep::Escalated { kept: Some(kept) } => kept,
        _ => panic!("a dense page calls for the escalated pass"),
    };
    assert_eq!(kept.len(), 90);
    // The escalated pass fails: the standard regions stay.
    assert!(matches!(
        after_escalated::<String>(Some(kept), Some(Err("out of memory".to_string()))),
        DetectionStep::Done { regions } if regions.len() == 90
    ));
    // The last pass is the last.
    assert!(matches!(
        after_standard::<String>(true, 1200, 1800, Ok(dense)),
        DetectionStep::Done { .. }
    ));
    assert!(matches!(
        after_standard::<String>(false, 1200, 1800, Err("broken".to_string())),
        DetectionStep::Failed { .. }
    ));
}

#[test]
fn a_detector_must_answer_for_its_page() {
    assert_eq!(
        page_regions(Vec::new(), 7).unwrap_err(),
        OarOcrError::MissingPageResult { page: 7 }
    );
    let regions = page_regions(vec![vec![bounding_box(0.0, 0.0, 1.0, 1.0)], Vec::new()], 7).unwrap();
    assert_eq!(regions.len(), 1);
}

#[test]
fn pages_are_assembled_from_their_regions() {
    let square = polygon(&[(1.0, 1.0), (5.0, 1.0), (5.0, 5.0), (1.0, 5.0)]);
    let read = |text: &str, confidence: f32| RegionReading::Recognized {
        text: Some(text.to_string()),
        confidence: Some(f(confidence)),
    };
    let readings = vec![
        read("sure", 1.5),
        RegionReading::NoCrop,
        read("  ", 0.9),
        read("doubtful", 0.2),
        read("likely", 0.5),
        read("broken", f32::NAN),
        RegionReading::Recognized { text: Some("half".to_string()), confidence: None },
    ];
    let regions = vec![
        square.clone(),
        square.clone(),
        square.clone(),
        square.clone(),
        square.clone(),
        square.clone(),
        square,
    ];
    let page = assemble_page(4, readings, &regions, 10, 10, f(0.3), &ModelIdentity::new("m", "r1"), 9);
    assert_eq!(page.page_number, 4);
    assert_eq!(page.spans.iter().map(|span| span.text.as_str()).collect::<Vec<_>>(), vec!["sure", "likely"]);
    assert_eq!(value(page.spans[0].confidence), 1.0);
    assert_eq!(page.mean_confidence.map(value), Some(0.75));
    assert_eq!(page.model.name, "m");
    assert_eq!(page.model.revision, "r1");
    assert_eq!(page.processing_time_ms, 9);
    assert_eq!(
        page.warnings,
        vec![
            "discarded 3 regions without usable recognition output".to_string(),
            "discarded 1 recognized regions with invalid geometry".to_string(),
        ]
    );
    let empty = assemble_page(4, Vec::new(), &Vec::new(), 10, 10, f(0.3), &ModelIdentity::new("m", "r1"), 9);
    assert!(empty.spans.is_empty() && empty.warnings.is_empty() && empty.mean_confidence.is_none());
}

#[test]
fn engines_need_every_model_file() {
    let models = ModelPaths {
        manifest_id: "pp".to_string(),
        revision: "r1".to_string(),
        files: vec![(ModelArtifactKind::TextDetection, "det.onnx".to_string())],
    };
    assert_eq!(required_model(&models, ModelArtifactKind::TextDetection).unwrap(), "det.onnx");
    assert_eq!(
        required_model(&models, ModelArtifactKind::CharacterDictionary).unwrap_err(),
        OarOcrError::MissingModelArtifact { kind: ModelArtifactKind::CharacterDictionary }
    );
}

#[test]
fn downloads_are_held_to_their_pinned_size() {
    assert_eq!(response_limit(100, None), Ok(101));
    assert_eq!(response_limit(100, Some(100)), Ok(101));
    assert_eq!(response_limit(u64::MAX, None), Ok(u64::MAX));
    let error = response_limit(100, Some(99)).unwrap_err();
    assert_eq!(error, HttpModelDownloadError::ContentLength { expected: 100, actual: 99 });
    assert_eq!(error.message(), "server declared 99 bytes; manifest requires 100");
}

#[test]
fn the_runtime_library_comes_from_the_environment_first() {
    assert_eq!(default_onnx_runtime_library("windows"), "onnxruntime.dll");
    assert_eq!(default_onnx_runtime_library("macos"), "libonnxruntime.dylib");
    assert_eq!(default_onnx_runtime_library("linux"), "libonnxruntime.so");
    assert_eq!(onnx_runtime_library_path(Some("/x/ort.so".to_string()), "linux"), "/x/ort.so");
    assert_eq!(onnx_runtime_library_path(Some(String::new()), "ios"), "libonnxruntime.dylib");
    assert_eq!(onnx_runtime_library_path(None, "linux"), "libonnxruntime.so");
}
