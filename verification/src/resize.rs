//! Fill resizing: scale a source image up or down so it just covers the
//! target rectangle, aspect ratio kept, then crop to the exact target size.
//! The crop anchor is an explicit choice: top-left keeps the upper-left
//! corner, center splits the overflow evenly.

use vstd::prelude::*;
use vstd::arithmetic::div_mod::{
    lemma_div_is_ordered, lemma_div_multiples_vanish, lemma_div_pos_is_pos, lemma_div_nonincreasing,
};
use vstd::arithmetic::mul::{lemma_mul_inequality, lemma_mul_is_commutative};

verus! {

/// Declares `image::DynamicImage` as an opaque type; only its dimensions,
/// through the two names below, matter to the contracts.
#[verifier::external_type_specification]
#[verifier::external_body]
pub struct ExDynamicImage(image::DynamicImage);

/// The width, in pixels, of an image value.
pub uninterp spec fn image_width(img: image::DynamicImage) -> int;

/// The height, in pixels, of an image value.
pub uninterp spec fn image_height(img: image::DynamicImage) -> int;

/// Relies on `image::DynamicImage::width`.
#[verifier::external_body]
fn width_of(img: &image::DynamicImage) -> (r: u32)
    ensures
        r as int == image_width(*img),
{
    img.width()
}

/// Relies on `image::DynamicImage::height`.
#[verifier::external_body]
fn height_of(img: &image::DynamicImage) -> (r: u32)
    ensures
        r as int == image_height(*img),
{
    img.height()
}

/// Relies on `image::DynamicImage::resize_exact` with the Lanczos filter:
/// the result has exactly the requested dimensions.
#[verifier::external_body]
fn resize_exact_lanczos(img: &image::DynamicImage, w: u32, h: u32) -> (r: image::DynamicImage)
    requires
        w >= 1,
        h >= 1,
    ensures
        image_width(r) == w as int,
        image_height(r) == h as int,
{
    img.resize_exact(w, h, image::imageops::FilterType::Lanczos3)
}

/// Relies on `image::DynamicImage::crop_imm`: with the window inside the
/// image, the cut-out has exactly the window's dimensions.
#[verifier::external_body]
fn crop_within(img: &image::DynamicImage, x: u32, y: u32, w: u32, h: u32) -> (r:
    image::DynamicImage)
    requires
        x + w <= image_width(*img),
        y + h <= image_height(*img),
    ensures
        image_width(r) == w as int,
        image_height(r) == h as int,
{
    img.crop_imm(x, y, w, h)
}

/// The dimensions of an image.
pub fn dimensions(img: &image::DynamicImage) -> (r: (u32, u32))
    ensures
        r.0 as int == image_width(*img),
        r.1 as int == image_height(*img),
{
    (width_of(img), height_of(img))
}

/// Where the crop window sits after scaling to cover.
#[derive(Clone, Copy, Debug, PartialEq, Eq, Structural)]
pub enum CropAnchor {
    /// Keep the top-left corner; crop away right and bottom overflow.
    TopLeft,
    /// Split the overflow evenly on the cropped axis.
    Center,
}

/// Why a fill resize was refused.
#[derive(Clone, Copy, Debug, PartialEq, Eq, Structural)]
pub enum ResizeError {
    /// The source image has a zero dimension.
    EmptySource,
    /// The requested target has a zero dimension.
    EmptyTarget,
    /// The cover scale would push a dimension past `u32::MAX`.
    ScaleOverflow,
}

/// The smallest aspect-keeping size at least as large as the target on both
/// axes, with the scaled edge truncated to whole pixels.
pub open spec fn cover_scaled_dims(iw: int, ih: int, tw: int, th: int) -> (int, int) {
    if iw * th > tw * ih {
        (th * iw / ih, th)
    } else {
        (tw, tw * ih / iw)
    }
}

/// A fill resize succeeds exactly when both the source and the target are
/// nonempty and the cover scale stays within `u32`.
pub open spec fn fill_fits(iw: int, ih: int, tw: int, th: int) -> bool {
    &&& iw >= 1
    &&& ih >= 1
    &&& tw >= 1
    &&& th >= 1
    &&& cover_scaled_dims(iw, ih, tw, th).0 <= u32::MAX
    &&& cover_scaled_dims(iw, ih, tw, th).1 <= u32::MAX
}

/// The cover scale reaches the target on both axes.
proof fn lemma_cover_reaches(iw: int, ih: int, tw: int, th: int)
    requires
        iw >= 1,
        ih >= 1,
        tw >= 1,
        th >= 1,
    ensures
        ({
            let (sw, sh) = cover_scaled_dims(iw, ih, tw, th);
            sw >= tw && sh >= th
        }),
{
    if iw * th > tw * ih {
        lemma_mul_is_commutative(tw, ih);
        lemma_mul_is_commutative(iw, th);
        lemma_div_is_ordered(tw * ih, th * iw, ih);
        lemma_div_multiples_vanish(tw, ih);
    } else {
        lemma_mul_is_commutative(iw, th);
        lemma_mul_is_commutative(tw, ih);
        lemma_div_is_ordered(th * iw, tw * ih, iw);
        lemma_div_multiples_vanish(th, iw);
    }
}

/// Scales the image to just cover the target, then crops to exactly the
/// target size, anchored as asked.  The result's dimensions always equal
/// the target's.
pub fn resize_fill(
    img: image::DynamicImage,
    target_width: u32,
    target_height: u32,
    anchor: CropAnchor,
) -> (r: Result<image::DynamicImage, ResizeError>)
    ensures
        ({
            let iw = image_width(img);
            let ih = image_height(img);
            let tw = target_width as int;
            let th = target_height as int;
            &&& (r matches Ok(out) ==> image_width(out) == tw && image_height(out) == th)
            &&& (r matches Ok(_) <==> fill_fits(iw, ih, tw, th))
            &&& (r == Result::<image::DynamicImage, ResizeError>::Err(ResizeError::EmptySource)
                <==> (iw == 0 || ih == 0))
            &&& (r == Result::<image::DynamicImage, ResizeError>::Err(ResizeError::EmptyTarget)
                <==> (iw >= 1 && ih >= 1 && (tw == 0 || th == 0)))
        }),
{
    let ghost iwg = image_width(img);
    let ghost ihg = image_height(img);
    let (iw32, ih32) = dimensions(&img);
    if iw32 == 0 || ih32 == 0 {
        return Result::Err(ResizeError::EmptySource);
    }
    if target_width == 0 || target_height == 0 {
        return Result::Err(ResizeError::EmptyTarget);
    }
    let iw = iw32 as u64;
    let ih = ih32 as u64;
    let tw = target_width as u64;
    let th = target_height as u64;
    proof {
        lemma_mul_inequality(iw as int, 0xFFFF_FFFF, th as int);
        lemma_mul_inequality(tw as int, 0xFFFF_FFFF, ih as int);
        lemma_mul_inequality(th as int, 0xFFFF_FFFF, iw as int);
        lemma_mul_inequality(tw as int, 0xFFFF_FFFF, ih as int);
        lemma_cover_reaches(iwg, ihg, tw as int, th as int);
    }
    let scaled_w: u64;
    let scaled_h: u64;
    if iw * th > tw * ih {
        scaled_w = th * iw / ih;
        scaled_h = th;
        proof {
            lemma_div_pos_is_pos(th as int * iw as int, ih as int);
        }
    } else {
        scaled_w = tw;
        scaled_h = tw * ih / iw;
        proof {
            lemma_div_pos_is_pos(tw as int * ih as int, iw as int);
        }
    }
    proof {
        assert((scaled_w as int, scaled_h as int) == cover_scaled_dims(
            iwg,
            ihg,
            target_width as int,
            target_height as int,
        ));
    }
    if scaled_w > 0xFFFF_FFFF || scaled_h > 0xFFFF_FFFF {
        return Result::Err(ResizeError::ScaleOverflow);
    }
    let sw = scaled_w as u32;
    let sh = scaled_h as u32;
    let resized = resize_exact_lanczos(&img, sw, sh);
    let (x_off, y_off): (u32, u32) = match anchor {
        CropAnchor::TopLeft => (0, 0),
        CropAnchor::Center => {
            proof {
                lemma_div_nonincreasing(sw as int - target_width as int, 2);
                lemma_div_pos_is_pos(sw as int - target_width as int, 2);
                lemma_div_nonincreasing(sh as int - target_height as int, 2);
                lemma_div_pos_is_pos(sh as int - target_height as int, 2);
            }
            ((sw - target_width) / 2, (sh - target_height) / 2)
        },
    };
    let out = crop_within(&resized, x_off, y_off, target_width, target_height);
    Result::Ok(out)
}

} // verus!
