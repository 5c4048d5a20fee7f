use image::DynamicImage;
use wallpaper_carousel::resize::{dimensions, resize_fill, CropAnchor, ResizeError};

#[test]
fn output_matches_target_exactly() {
    let cases: Vec<(u32, u32, u32, u32)> = vec![
        (5, 3, 4, 4),
        (100, 10, 20, 20),
        (10, 100, 20, 20),
        (64, 64, 64, 64),
        (3, 5, 300, 7),
    ];
    for (iw, ih, tw, th) in cases {
        let img = DynamicImage::new_rgba8(iw, ih);
        let out = resize_fill(img, tw, th, CropAnchor::Center).unwrap();
        assert_eq!(dimensions(&out), (tw, th));
        let img2 = DynamicImage::new_rgba8(iw, ih);
        let out2 = resize_fill(img2, tw, th, CropAnchor::TopLeft).unwrap();
        assert_eq!(dimensions(&out2), (tw, th));
    }
}

#[test]
fn crop_anchors_pick_different_windows() {
    // A 4x2 image whose left half is red and right half is blue, scaled to
    // cover 2x2: top-left keeps the left edge, center crops the middle.
    let mut img = image::RgbaImage::new(4, 2);
    for y in 0..2 {
        for x in 0..4 {
            let c = if x < 2 { [255, 0, 0, 255] } else { [0, 0, 255, 255] };
            img.put_pixel(x, y, image::Rgba(c));
        }
    }
    let dynimg = DynamicImage::ImageRgba8(img);
    let top_left = resize_fill(dynimg.clone(), 2, 2, CropAnchor::TopLeft).unwrap();
    let centered = resize_fill(dynimg, 2, 2, CropAnchor::Center).unwrap();
    assert_eq!(dimensions(&top_left), (2, 2));
    assert_eq!(dimensions(&centered), (2, 2));
    // Top-left anchored output starts at the red edge.
    assert_eq!(top_left.to_rgba8().get_pixel(0, 0).0[0], 255);
}

#[test]
fn empty_source_is_rejected() {
    let img = DynamicImage::new_rgba8(0, 5);
    assert!(matches!(
        resize_fill(img, 4, 4, CropAnchor::Center),
        Err(ResizeError::EmptySource)
    ));
}

#[test]
fn overflowing_scale_is_rejected() {
    // A 100000x1 source covering a 100000-pixel-tall target would need a
    // scaled width of 10^10, past u32.
    let img = DynamicImage::new_rgba8(100000, 1);
    assert!(matches!(
        resize_fill(img, 10, 100000, CropAnchor::TopLeft),
        Err(ResizeError::ScaleOverflow)
    ));
}

#[test]
fn empty_target_is_rejected() {
    let img = DynamicImage::new_rgba8(5, 5);
    assert!(matches!(
        resize_fill(img, 0, 4, CropAnchor::Center),
        Err(ResizeError::EmptyTarget)
    ));
}
