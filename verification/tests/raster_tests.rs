use wallpaper_carousel::compose::{Pixel, PixelBuffer};
use wallpaper_carousel::geometry::SafeArea;
use wallpaper_carousel::raster::{composite_text_on_image, rasterize_markup};

#[test]
fn rasterized_layer_has_requested_shape() {
    let sa = SafeArea { x: 0, y: 0, width: 64, height: 32 };
    let svg = wallpaper_carousel::layout::generate_text_svg(
        "Hi",
        Some("A"),
        None,
        64,
        32,
        &sa,
        4,
    );
    let fonts = fontdb::Database::new();
    let layer = rasterize_markup(&svg, 64, 32, fonts).expect("markup should parse");
    assert_eq!(layer.width, 64);
    assert_eq!(layer.height, 32);
    assert_eq!(layer.data.len(), 64 * 32);
}

#[test]
fn bad_markup_is_rejected() {
    let fonts = fontdb::Database::new();
    let r = rasterize_markup("this is not markup", 8, 8, fonts);
    assert!(r.is_err());
}

#[test]
fn zero_sized_canvas_is_unavailable() {
    let sa = SafeArea { x: 0, y: 0, width: 8, height: 8 };
    let svg = wallpaper_carousel::layout::generate_text_svg("x", None, None, 8, 8, &sa, 1);
    let fonts = fontdb::Database::new();
    let r = rasterize_markup(&svg, 0, 8, fonts);
    assert_eq!(r.unwrap_err(), wallpaper_carousel::raster::RenderError::CanvasUnavailable);
}

#[test]
fn composite_pipeline_keeps_dimensions() {
    let mut bg = PixelBuffer {
        width: 48,
        height: 24,
        data: vec![Pixel { r: 9, g: 9, b: 9, a: 255 }; 48 * 24],
    };
    let sa = SafeArea { x: 0, y: 0, width: 48, height: 24 };
    let fonts = fontdb::Database::new();
    composite_text_on_image(&mut bg, "Q", None, Some("b"), &sa, 2, fonts)
        .expect("pipeline should succeed");
    assert_eq!(bg.width, 48);
    assert_eq!(bg.height, 24);
    assert_eq!(bg.data.len(), 48 * 24);
    // The background's own alpha channel is never touched by blending.
    assert!(bg.data.iter().all(|p| p.a == 255));
}
