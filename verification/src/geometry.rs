//! Multi-display safe-area geometry.
//!
//! A window system's "fill" mode scales an image so it exactly covers a
//! display, then center-crops the overflowing axis.  For each display this
//! module computes, in the source image's own coordinate space, the rectangle
//! that stays visible after that scale-and-crop; the safe area is the
//! intersection of those rectangles over every display.  All arithmetic is
//! exact: scale factors are rationals and pixel coordinates are produced by
//! truncating division.

use vstd::prelude::*;
use vstd::arithmetic::div_mod::{
    lemma_div_is_ordered, lemma_div_multiples_vanish, lemma_fundamental_div_mod,
    lemma_mod_division_less_than_divisor, lemma_div_pos_is_pos, lemma_div_nonincreasing,
};
use vstd::arithmetic::mul::{lemma_mul_inequality, lemma_mul_is_commutative, lemma_mul_nonnegative};
use vstd::math::{max, min};

verus! {

/// A rectangle in image space.  `width` and `height` may be zero when the
/// displays share no common visible region: degenerate, but valid.
#[derive(Clone, Debug)]
pub struct SafeArea {
    pub x: u32,
    pub y: u32,
    pub width: u32,
    pub height: u32,
}

impl SafeArea {
    /// The rectangle lies inside an `iw` by `ih` image.
    pub open spec fn inside(self, iw: int, ih: int) -> bool {
        &&& self.x + self.width <= iw
        &&& self.y + self.height <= ih
    }
}

/// The image is strictly wider, in aspect, than the display: filling the
/// display crops the image horizontally.  Ties (equal aspect) fall to the
/// vertical-crop branch, deterministically.
pub open spec fn crops_horizontally(iw: int, ih: int, dw: int, dh: int) -> bool {
    iw * dh > dw * ih
}

/// The part of an `iw` by `ih` image that stays visible on a `dw` by `dh`
/// display under fill scaling, as `(x_start, y_start, x_end, y_end)` in image
/// coordinates.  Mirrors the fill simulation: scale to cover, split the
/// overflow evenly on the cropped axis, and map the crop window back through
/// the (truncating) inverse scale.
pub open spec fn visible_rect(iw: int, ih: int, dw: int, dh: int) -> (int, int, int, int) {
    if crops_horizontally(iw, ih, dw, dh) {
        let sw = iw * dh / ih;
        let xo = (sw - dw) / 2;
        let xs = xo * iw / sw;
        (xs, 0, xs + dw * iw / sw, dh * iw / sw)
    } else {
        let sh = ih * dw / iw;
        let yo = (sh - dh) / 2;
        let ys = yo * iw / dw;
        (0, ys, iw, ys + dh * iw / dw)
    }
}

/// One display's worth of intersection: raise the running starts to this
/// display's visible starts, lower the running ends to its visible ends.
pub open spec fn clip_step(acc: (int, int, int, int), iw: int, ih: int, d: (u32, u32)) -> (int, int, int, int) {
    let r = visible_rect(iw, ih, d.0 as int, d.1 as int);
    (max(acc.0, r.0), max(acc.1, r.1), min(acc.2, r.2), min(acc.3, r.3))
}

/// The intersection of every display's visible rectangle, starting from the
/// full image, as `(x_start, y_start, x_end, y_end)`.  The ends may fall
/// below the starts when the displays disagree badly; the safe area then
/// saturates to zero size.
pub open spec fn clipped_rect(iw: int, ih: int, ds: Seq<(u32, u32)>) -> (int, int, int, int)
    decreases ds.len(),
{
    if ds.len() == 0 {
        (0, 0, iw, ih)
    } else {
        clip_step(clipped_rect(iw, ih, ds.drop_last()), iw, ih, ds.last())
    }
}

/// Every display has positive width and height.
pub open spec fn valid_displays(ds: Seq<(u32, u32)>) -> bool {
    forall|i: int| 0 <= i < ds.len() ==> (#[trigger] ds[i]).0 >= 1 && ds[i].1 >= 1
}

/// The expected shape of `calculate_safe_area`'s result: the starts of the
/// clipped rectangle, with the ends saturating against the starts.
pub open spec fn is_safe_area_of(r: SafeArea, iw: int, ih: int, ds: Seq<(u32, u32)>) -> bool {
    let (mnx, mny, mxx, mxy) = clipped_rect(iw, ih, ds);
    &&& r.x == mnx
    &&& r.y == mny
    &&& r.width == if mxx >= mnx { mxx - mnx } else { 0 }
    &&& r.height == if mxy >= mny { mxy - mny } else { 0 }
}

/// For a nonnegative dividend and positive divisor, the truncated quotient
/// times the divisor does not exceed the dividend.
proof fn lemma_div_mul_le(a: int, b: int)
    requires
        a >= 0,
        b >= 1,
    ensures
        (a / b) * b <= a,
        a / b >= 0,
{
    lemma_fundamental_div_mod(a, b);
    lemma_mod_division_less_than_divisor(a, b);
    lemma_div_pos_is_pos(a, b);
    lemma_mul_is_commutative(a / b, b);
}

/// `a <= c` bounds the scaled quotient: `a * m / c <= m`.
proof fn lemma_scaled_quotient_le(a: int, m: int, c: int)
    requires
        0 <= a <= c,
        c >= 1,
        m >= 0,
    ensures
        0 <= a * m / c <= m,
{
    lemma_mul_inequality(a, c, m);
    lemma_mul_nonnegative(a, m);
    lemma_div_is_ordered(a * m, c * m, c);
    lemma_div_multiples_vanish(m, c);
    lemma_div_pos_is_pos(a * m, c);
}

/// Facts used throughout about one display's fill simulation: the scaled
/// edge covers the display on the cropped axis, and the centering offset
/// stays within the scaled edge.
proof fn lemma_scale_covers(iw: int, ih: int, dw: int, dh: int)
    requires
        iw >= 1,
        ih >= 1,
        dw >= 1,
        dh >= 1,
    ensures
        crops_horizontally(iw, ih, dw, dh) ==> ({
            let sw = iw * dh / ih;
            &&& sw >= dw
            &&& 0 <= (sw - dw) / 2 <= sw
        }),
        !crops_horizontally(iw, ih, dw, dh) ==> ({
            let sh = ih * dw / iw;
            &&& sh >= dh
            &&& 0 <= (sh - dh) / 2 <= sh
        }),
{
    if crops_horizontally(iw, ih, dw, dh) {
        let sw = iw * dh / ih;
        lemma_mul_is_commutative(dw, ih);
        lemma_div_is_ordered(dw * ih, iw * dh, ih);
        lemma_div_multiples_vanish(dw, ih);
        assert(sw >= dw);
        lemma_div_is_ordered(sw - dw, sw, 2);
        lemma_div_nonincreasing(sw, 2);
        lemma_div_pos_is_pos(sw - dw, 2);
    } else {
        let sh = ih * dw / iw;
        lemma_mul_is_commutative(iw, dh);
        lemma_mul_is_commutative(dw, ih);
        lemma_div_is_ordered(dh * iw, ih * dw, iw);
        lemma_div_multiples_vanish(dh, iw);
        assert(sh >= dh);
        lemma_div_is_ordered(sh - dh, sh, 2);
        lemma_div_nonincreasing(sh, 2);
        lemma_div_pos_is_pos(sh - dh, 2);
    }
}

/// The visible rectangle of any positive display is well formed: starts are
/// at least zero and at most the image edge, and each start precedes its end.
proof fn lemma_visible_rect_bounds(iw: int, ih: int, dw: int, dh: int)
    requires
        iw >= 1,
        ih >= 1,
        dw >= 1,
        dh >= 1,
    ensures
        ({
            let (xs, ys, xe, ye) = visible_rect(iw, ih, dw, dh);
            &&& 0 <= xs <= xe
            &&& 0 <= ys <= ye
            &&& xs <= iw
            &&& ys <= ih
        }),
{
    lemma_scale_covers(iw, ih, dw, dh);
    if crops_horizontally(iw, ih, dw, dh) {
        let sw = iw * dh / ih;
        let xo = (sw - dw) / 2;
        lemma_scaled_quotient_le(xo, iw, sw);
        lemma_mul_nonnegative(dw, iw);
        lemma_mul_nonnegative(dh, iw);
        lemma_div_pos_is_pos(dw * iw, sw);
        lemma_div_pos_is_pos(dh * iw, sw);
    } else {
        let sh = ih * dw / iw;
        let yo = (sh - dh) / 2;
        // yo * iw / dw <= (sh * iw) / dw <= (ih * dw) / dw == ih,
        // since sh * iw <= ih * dw by the floor in sh's definition.
        lemma_mul_inequality(yo, sh, iw);
        lemma_mul_nonnegative(yo, iw);
        lemma_mul_nonnegative(dh, iw);
        lemma_mul_nonnegative(ih, dw);
        lemma_div_is_ordered(yo * iw, sh * iw, dw);
        lemma_div_mul_le(ih * dw, iw);
        lemma_div_is_ordered(sh * iw, ih * dw, dw);
        lemma_mul_is_commutative(ih, dw);
        lemma_div_multiples_vanish(ih, dw);
        lemma_div_pos_is_pos(yo * iw, dw);
        lemma_div_pos_is_pos(dh * iw, dw);
    }
}

/// The safe area never leaves the image: for any display set of positive
/// displays, the running intersection keeps its starts between zero and the
/// image edges and its ends at most the image edges, so the resulting
/// rectangle lies within the image with no negative coordinate.
pub proof fn lemma_clipped_rect_bounds(iw: int, ih: int, ds: Seq<(u32, u32)>)
    requires
        iw >= 1,
        ih >= 1,
        valid_displays(ds),
    ensures
        ({
            let (mnx, mny, mxx, mxy) = clipped_rect(iw, ih, ds);
            &&& 0 <= mnx <= iw
            &&& 0 <= mny <= ih
            &&& mxx <= iw
            &&& mxy <= ih
        }),
    decreases ds.len(),
{
    if ds.len() > 0 {
        assert(valid_displays(ds.drop_last()));
        lemma_clipped_rect_bounds(iw, ih, ds.drop_last());
        let d = ds.last();
        assert(ds[ds.len() - 1].0 >= 1 && ds[ds.len() - 1].1 >= 1);
        lemma_visible_rect_bounds(iw, ih, d.0 as int, d.1 as int);
    }
}

/// Computes the safe area: the sub-rectangle of an `img_width` by
/// `img_height` image that stays visible on every listed display under
/// independent fill scaling.  An empty display list yields the full image;
/// displays that share no common region yield a zero-size rectangle.
pub fn calculate_safe_area(img_width: u32, img_height: u32, displays: &[(u32, u32)]) -> (r: SafeArea)
    requires
        img_width >= 1,
        img_height >= 1,
        valid_displays(displays@),
    ensures
        is_safe_area_of(r, img_width as int, img_height as int, displays@),
        r.inside(img_width as int, img_height as int),
{
    let iw = img_width as u64;
    let ih = img_height as u64;
    let ghost iwi = img_width as int;
    let ghost ihi = img_height as int;
    let mut mnx: u32 = 0;
    let mut mny: u32 = 0;
    let mut mxx: u32 = img_width;
    let mut mxy: u32 = img_height;

    let n = displays.len();
    let mut i: usize = 0;
    while i < n
        invariant
            n == displays@.len(),
            0 <= i <= n,
            iw as int == img_width as int,
            ih as int == img_height as int,
            iwi == img_width as int,
            ihi == img_height as int,
            img_width >= 1,
            img_height >= 1,
            valid_displays(displays@),
            (mnx as int, mny as int, mxx as int, mxy as int)
                == clipped_rect(iwi, ihi, displays@.take(i as int)),
            mnx <= img_width,
            mny <= img_height,
            mxx <= img_width,
            mxy <= img_height,
        decreases n - i,
    {
        let (dw32, dh32) = displays[i];
        proof {
            assert((displays@[i as int]).0 >= 1 && (displays@[i as int]).1 >= 1);
        }
        let dw = dw32 as u64;
        let dh = dh32 as u64;
        let ghost dwi = dw32 as int;
        let ghost dhi = dh32 as int;
        let ghost rect = visible_rect(iwi, ihi, dwi, dhi);
        proof {
            lemma_scale_covers(iwi, ihi, dwi, dhi);
            lemma_visible_rect_bounds(iwi, ihi, dwi, dhi);
            // Products of two u32-bounded factors stay far below u64::MAX.
            lemma_mul_inequality(iw as int, 0xFFFF_FFFF, dh as int);
            lemma_mul_inequality(dw as int, 0xFFFF_FFFF, ih as int);
            lemma_mul_inequality(ih as int, 0xFFFF_FFFF, dw as int);
        }

        let xs: u32;
        let ys: u32;
        let xe: u64;
        let ye: u64;
        if iw * dh > dw * ih {
            let sw: u64 = iw * dh / ih;
            proof {
                assert(sw as int == iwi * dhi / ihi);
                assert(crops_horizontally(iwi, ihi, dwi, dhi));
                assert(sw as int >= dwi);
            }
            let xo: u64 = (sw - dw) / 2;
            proof {
                assert(xo as int == (iwi * dhi / ihi - dwi) / 2);
                // The u128 products of a u64 and a u32 factor stay below 2^128.
                lemma_mul_inequality(xo as int, 0xFFFF_FFFF_FFFF_FFFF, iw as int);
                lemma_mul_inequality(dw as int, 0xFFFF_FFFF, iw as int);
                lemma_mul_inequality(dh as int, 0xFFFF_FFFF, iw as int);
            }
            let xs128: u128 = (xo as u128) * (iw as u128) / (sw as u128);
            let span: u128 = (dw as u128) * (iw as u128) / (sw as u128);
            let ye128: u128 = (dh as u128) * (iw as u128) / (sw as u128);
            proof {
                assert(xs128 as int == rect.0);
                assert(span as int == rect.2 - rect.0);
                assert(ye128 as int == rect.3);
                assert(0 <= rect.0 <= iwi);
                assert(rect.2 - rect.0 <= iwi) by {
                    lemma_scaled_quotient_le(dwi, iwi, sw as int);
                }
            }
            xs = xs128 as u32;
            ys = 0;
            xe = xs128 as u64 + span as u64;
            // The vertical end can overshoot the image; anything past u32
            // loses to the running minimum anyway, so clamp it just above.
            ye = if ye128 > 0xFFFF_FFFF {
                0x1_0000_0000u64
            } else {
                ye128 as u64
            };
            proof {
                assert(rect.0 == xs as int && rect.1 == ys as int && rect.2 == xe as int);
                assert(min(mxy as int, rect.3) == min(mxy as int, ye as int));
            }
        } else {
            let sh: u64 = ih * dw / iw;
            proof {
                assert(sh as int == ihi * dwi / iwi);
                assert(!crops_horizontally(iwi, ihi, dwi, dhi));
                assert(sh as int >= dhi);
            }
            let yo: u64 = (sh - dh) / 2;
            proof {
                assert(yo as int == (ihi * dwi / iwi - dhi) / 2);
                lemma_mul_inequality(yo as int, 0xFFFF_FFFF_FFFF_FFFF, iw as int);
                lemma_mul_inequality(dh as int, 0xFFFF_FFFF, iw as int);
            }
            let ys128: u128 = (yo as u128) * (iw as u128) / (dw as u128);
            let span: u128 = (dh as u128) * (iw as u128) / (dw as u128);
            let ye128: u128 = ys128 + span;
            proof {
                assert(ys128 as int == rect.1);
                assert(ye128 as int == rect.3);
                assert(0 <= rect.1 <= ihi);
            }
            xs = 0;
            ys = ys128 as u32;
            xe = iw;
            // As above: a too-deep end never survives the running minimum.
            ye = if ye128 > 0xFFFF_FFFF {
                0x1_0000_0000u64
            } else {
                ye128 as u64
            };
            proof {
                assert(rect.0 == xs as int && rect.1 == ys as int && rect.2 == xe as int);
                assert(min(mxy as int, rect.3) == min(mxy as int, ye as int));
            }
        }

        if xs > mnx {
            mnx = xs;
        }
        if ys > mny {
            mny = ys;
        }
        if xe < mxx as u64 {
            mxx = xe as u32;
        }
        if ye < mxy as u64 {
            mxy = ye as u32;
        }
        proof {
            let prefix = displays@.take(i as int);
            let next = displays@.take(i as int + 1);
            assert(next.drop_last() =~= prefix);
            assert(next.last() == displays@[i as int]);
            assert((mnx as int, mny as int, mxx as int, mxy as int)
                == clip_step(clipped_rect(iwi, ihi, prefix), iwi, ihi, displays@[i as int]));
        }
        i = i + 1;
    }
    proof {
        assert(displays@.take(n as int) =~= displays@);
    }
    SafeArea {
        x: mnx,
        y: mny,
        width: if mxx >= mnx { mxx - mnx } else { 0 },
        height: if mxy >= mny { mxy - mny } else { 0 },
    }
}

/// Intersection is monotonically non-growing: listing one more display never
/// enlarges the clipped rectangle, on any axis.
pub proof fn lemma_safe_area_monotonic(iw: int, ih: int, ds: Seq<(u32, u32)>, d: (u32, u32))
    ensures
        ({
            let (mnx, mny, mxx, mxy) = clipped_rect(iw, ih, ds);
            let (nnx, nny, nxx, nxy) = clipped_rect(iw, ih, ds.push(d));
            &&& nnx >= mnx
            &&& nny >= mny
            &&& nxx <= mxx
            &&& nxy <= mxy
        }),
{
    assert(ds.push(d).drop_last() =~= ds);
    assert(ds.push(d).last() == d);
}

/// When every display has exactly the image's aspect ratio, nothing is
/// cropped anywhere: the safe area is the full image.
pub proof fn lemma_same_aspect_full_image(iw: int, ih: int, ds: Seq<(u32, u32)>)
    requires
        iw >= 1,
        ih >= 1,
        valid_displays(ds),
        forall|i: int| 0 <= i < ds.len() ==> (#[trigger] ds[i]).0 * ih == iw * ds[i].1,
    ensures
        clipped_rect(iw, ih, ds) == (0int, 0int, iw, ih),
    decreases ds.len(),
{
    if ds.len() > 0 {
        let rest = ds.drop_last();
        assert(valid_displays(rest));
        assert forall|i: int| 0 <= i < rest.len()
            implies (#[trigger] rest[i]).0 * ih == iw * rest[i].1 by {
            assert(rest[i] == ds[i]);
        }
        lemma_same_aspect_full_image(iw, ih, rest);
        let d = ds.last();
        let dw = d.0 as int;
        let dh = d.1 as int;
        assert(ds[ds.len() - 1].0 >= 1 && ds[ds.len() - 1].1 >= 1);
        assert(dw * ih == iw * dh);
        assert(!crops_horizontally(iw, ih, dw, dh));
        // The scaled height is exactly the display height, so the centering
        // offset vanishes and the visible band maps back to the whole image.
        let sh = ih * dw / iw;
        assert(sh == dh) by {
            lemma_div_multiples_vanish(dh, iw);
        }
        assert((sh - dh) / 2 == 0int);
        assert(0int * iw / dw == 0int) by {
            lemma_div_multiples_vanish(0, dw);
        }
        assert(dh * iw / dw == ih) by {
            lemma_mul_is_commutative(dh, iw);
            lemma_mul_is_commutative(dw, ih);
            lemma_div_multiples_vanish(ih, dw);
        }
        assert(visible_rect(iw, ih, dw, dh) == (0int, 0int, iw, ih));
    }
}

/// Builds the display list the geometry works on from a raw output query:
/// keeps the mode of every active output, in query order.
pub fn active_displays(outputs: &Vec<(u32, u32, bool)>) -> (r: Vec<(u32, u32)>)
    ensures
        r@ == outputs@.filter(|o: (u32, u32, bool)| o.2).map_values(|o: (u32, u32, bool)| (o.0, o.1)),
{
    let mut r: Vec<(u32, u32)> = Vec::new();
    let n = outputs.len();
    let mut i: usize = 0;
    while i < n
        invariant
            n == outputs@.len(),
            0 <= i <= n,
            r@ == outputs@.take(i as int).filter(|o: (u32, u32, bool)| o.2)
                .map_values(|o: (u32, u32, bool)| (o.0, o.1)),
        decreases n - i,
    {
        let (w, h, active) = outputs[i];
        let ghost prefix = outputs@.take(i as int);
        let ghost x = outputs@[i as int];
        proof {
            reveal(Seq::filter);
            assert(outputs@.take(i as int + 1) =~= prefix.push(x));
            assert(prefix.push(x).drop_last() =~= prefix);
        }
        if active {
            r.push((w, h));
        }
        proof {
            let pred = |o: (u32, u32, bool)| o.2;
            let f = |o: (u32, u32, bool)| (o.0, o.1);
            if x.2 {
                assert(prefix.push(x).filter(pred) =~= prefix.filter(pred).push(x));
                assert(prefix.filter(pred).push(x).map_values(f)
                    =~= prefix.filter(pred).map_values(f).push((x.0, x.1)));
            } else {
                assert(prefix.push(x).filter(pred) =~= prefix.filter(pred));
            }
            assert(r@ == outputs@.take(i as int + 1).filter(pred).map_values(f));
        }
        i = i + 1;
    }
    proof {
        assert(outputs@.take(n as int) =~= outputs@);
    }
    r
}

} // verus!
