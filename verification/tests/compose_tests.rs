use wallpaper_carousel::compose::{composite_text_layer, Pixel, PixelBuffer};

fn buffer(width: u32, height: u32, pixels: Vec<Pixel>) -> PixelBuffer {
    assert_eq!(pixels.len() as u64, width as u64 * height as u64);
    PixelBuffer { width, height, data: pixels }
}

fn px(r: u8, g: u8, b: u8, a: u8) -> Pixel {
    Pixel { r, g, b, a }
}

#[test]
fn transparent_layer_leaves_background_unchanged() {
    let mut bg = buffer(2, 2, vec![px(1, 2, 3, 4), px(5, 6, 7, 8), px(9, 10, 11, 12), px(
        13,
        14,
        15,
        16,
    )]);
    let before = bg.data.clone();
    let text = buffer(2, 2, vec![px(200, 200, 200, 0); 4]);
    composite_text_layer(&mut bg, &text);
    assert_eq!(bg.data, before);
}

#[test]
fn opaque_text_replaces_colour_but_keeps_background_alpha() {
    let mut bg = buffer(1, 1, vec![px(0, 0, 255, 77)]);
    let text = buffer(1, 1, vec![px(255, 0, 0, 255)]);
    composite_text_layer(&mut bg, &text);
    assert_eq!(bg.data[0], px(255, 0, 0, 77));
}

#[test]
fn half_alpha_blends_truncating() {
    let mut bg = buffer(1, 1, vec![px(100, 200, 250, 255)]);
    let text = buffer(1, 1, vec![px(200, 100, 50, 128)]);
    composite_text_layer(&mut bg, &text);
    // (200*128 + 100*127)/255 = 150, (100*128 + 200*127)/255 = 149,
    // (50*128 + 250*127)/255 = 149; alpha kept.
    assert_eq!(bg.data[0], px(150, 149, 149, 255));
}

#[test]
fn mixed_pixels_blend_independently() {
    let mut bg = buffer(2, 1, vec![px(10, 10, 10, 255), px(20, 20, 20, 255)]);
    let text = buffer(2, 1, vec![px(0, 0, 0, 0), px(255, 255, 255, 255)]);
    composite_text_layer(&mut bg, &text);
    assert_eq!(bg.data[0], px(10, 10, 10, 255));
    assert_eq!(bg.data[1], px(255, 255, 255, 255));
}

#[test]
fn buffer_from_rgba_bytes() {
    let bytes: Vec<u8> = vec![1, 2, 3, 4, 5, 6, 7, 8];
    let buf = PixelBuffer::from_rgba_bytes(2, 1, &bytes);
    assert_eq!(buf.width, 2);
    assert_eq!(buf.height, 1);
    assert_eq!(buf.data, vec![px(1, 2, 3, 4), px(5, 6, 7, 8)]);
}
