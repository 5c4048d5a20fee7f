//! Pixel buffers and the alpha-blend compositor.
//!
//! The background buffer is mutated in place; the text layer is read only.
//! Blending is `out = text * a + background * (1 - a)` per colour channel,
//! with `a` the text pixel's alpha over 255 and the quotient truncated; the
//! background's own alpha never changes, and a fully transparent text pixel
//! leaves its background pixel untouched.

use vstd::prelude::*;
use vstd::arithmetic::mul::lemma_mul_inequality;

verus! {

/// One RGBA pixel.
#[derive(Clone, Copy, Debug, PartialEq, Eq, Structural)]
pub struct Pixel {
    pub r: u8,
    pub g: u8,
    pub b: u8,
    pub a: u8,
}

/// A width-by-height grid of pixels, row after row.
#[derive(Clone, Debug)]
pub struct PixelBuffer {
    pub width: u32,
    pub height: u32,
    pub data: Vec<Pixel>,
}

impl PixelBuffer {
    /// The buffer holds exactly one pixel per grid cell.
    pub open spec fn wf(self) -> bool {
        self.data@.len() == self.width as int * self.height as int
    }

    /// The pixel at column `x` of row `y`.
    pub open spec fn pixel_at(self, x: int, y: int) -> Pixel {
        self.data@[y * self.width as int + x]
    }

    /// Builds a buffer from raw RGBA bytes, four per pixel, row after row.
    pub fn from_rgba_bytes(width: u32, height: u32, bytes: &Vec<u8>) -> (r: PixelBuffer)
        requires
            bytes@.len() == 4 * (width as int) * (height as int),
        ensures
            r.wf(),
            r.width == width,
            r.height == height,
            forall|i: int|
                0 <= i < r.data@.len() ==> #[trigger] r.data@[i] == (Pixel {
                    r: bytes@[4 * i],
                    g: bytes@[4 * i + 1],
                    b: bytes@[4 * i + 2],
                    a: bytes@[4 * i + 3],
                }),
    {
        let mut data: Vec<Pixel> = Vec::new();
        let total = bytes.len() / 4;
        proof {
            assert(4 * ((width as int) * (height as int)) == 4 * (width as int) * (height as int))
                by (nonlinear_arith);
            assert(total as int == (width as int) * (height as int));
        }
        let mut i: usize = 0;
        while i < total
            invariant
                4 * (total as int) == bytes@.len(),
                bytes@.len() <= usize::MAX,
                0 <= i <= total,
                data@.len() == i,
                forall|j: int|
                    0 <= j < i ==> #[trigger] data@[j] == (Pixel {
                        r: bytes@[4 * j],
                        g: bytes@[4 * j + 1],
                        b: bytes@[4 * j + 2],
                        a: bytes@[4 * j + 3],
                    }),
            decreases total - i,
        {
            let px = Pixel {
                r: bytes[4 * i],
                g: bytes[4 * i + 1],
                b: bytes[4 * i + 2],
                a: bytes[4 * i + 3],
            };
            data.push(px);
            i = i + 1;
        }
        PixelBuffer { width, height, data }
    }
}

/// One channel blended: `(text * a + bg * (255 - a)) / 255`, truncated.
pub open spec fn blend_channel(t: int, bg: int, a: int) -> int {
    (t * a + bg * (255 - a)) / 255
}

/// One pixel blended onto a background pixel.  A transparent text pixel
/// changes nothing; the background's alpha is always kept.
pub open spec fn blend_pixel(t: Pixel, bg: Pixel) -> Pixel {
    if t.a == 0 {
        bg
    } else {
        Pixel {
            r: blend_channel(t.r as int, bg.r as int, t.a as int) as u8,
            g: blend_channel(t.g as int, bg.g as int, t.a as int) as u8,
            b: blend_channel(t.b as int, bg.b as int, t.a as int) as u8,
            a: bg.a,
        }
    }
}

/// A blended channel stays a byte.
proof fn lemma_blend_channel_bounds(t: int, bg: int, a: int)
    requires
        0 <= t <= 255,
        0 <= bg <= 255,
        0 <= a <= 255,
    ensures
        0 <= blend_channel(t, bg, a) <= 255,
{
    lemma_mul_inequality(t, 255, a);
    lemma_mul_inequality(bg, 255, 255 - a);
    vstd::arithmetic::mul::lemma_mul_nonnegative(t, a);
    vstd::arithmetic::mul::lemma_mul_nonnegative(bg, 255 - a);
}

/// Blends one channel.
fn blend_channel_exec(t: u8, bg: u8, a: u8) -> (r: u8)
    ensures
        r as int == blend_channel(t as int, bg as int, a as int),
{
    proof {
        lemma_blend_channel_bounds(t as int, bg as int, a as int);
        lemma_mul_inequality(t as int, 255, a as int);
        lemma_mul_inequality(bg as int, 255, 255 - a as int);
        vstd::arithmetic::mul::lemma_mul_nonnegative(t as int, a as int);
        vstd::arithmetic::mul::lemma_mul_nonnegative(bg as int, 255 - a as int);
    }
    let num: u32 = (t as u32) * (a as u32) + (bg as u32) * (255 - a as u32);
    (num / 255) as u8
}

/// Blends the text layer onto the background, pixel by pixel, in place.
/// Dimensions must match exactly; checking them is the caller's duty.
pub fn composite_text_layer(bg: &mut PixelBuffer, text: &PixelBuffer)
    requires
        old(bg).wf(),
        text.wf(),
        old(bg).width == text.width,
        old(bg).height == text.height,
    ensures
        final(bg).wf(),
        final(bg).width == old(bg).width,
        final(bg).height == old(bg).height,
        final(bg).data@.len() == old(bg).data@.len(),
        forall|i: int|
            0 <= i < final(bg).data@.len() ==> #[trigger] final(bg).data@[i] == blend_pixel(
                text.data@[i],
                old(bg).data@[i],
            ),
{
    let n = text.data.len();
    proof {
        assert(old(bg).data@.len() == text.data@.len());
    }
    let mut i: usize = 0;
    while i < n
        invariant
            n == text.data@.len(),
            text.wf(),
            bg.width == old(bg).width,
            bg.height == old(bg).height,
            bg.data@.len() == old(bg).data@.len(),
            old(bg).data@.len() == n,
            bg.wf(),
            0 <= i <= n,
            forall|j: int|
                0 <= j < i ==> #[trigger] bg.data@[j] == blend_pixel(
                    text.data@[j],
                    old(bg).data@[j],
                ),
            forall|j: int| i <= j < n ==> #[trigger] bg.data@[j] == old(bg).data@[j],
        decreases n - i,
    {
        let t = text.data[i];
        if t.a > 0 {
            let b = bg.data[i];
            let np = Pixel {
                r: blend_channel_exec(t.r, b.r, t.a),
                g: blend_channel_exec(t.g, b.g, t.a),
                b: blend_channel_exec(t.b, b.b, t.a),
                a: b.a,
            };
            proof {
                lemma_blend_channel_bounds(t.r as int, b.r as int, t.a as int);
                lemma_blend_channel_bounds(t.g as int, b.g as int, t.a as int);
                lemma_blend_channel_bounds(t.b as int, b.b as int, t.a as int);
            }
            bg.data[i] = np;
        }
        i = i + 1;
    }
}

/// A fully transparent text layer leaves every background pixel exactly as
/// it was: blending it is the identity.
pub proof fn lemma_transparent_layer_is_identity(text: PixelBuffer, bg: PixelBuffer)
    requires
        text.wf(),
        bg.wf(),
        text.width == bg.width,
        text.height == bg.height,
        forall|i: int| 0 <= i < text.data@.len() ==> (#[trigger] text.data@[i]).a == 0,
    ensures
        forall|i: int|
            0 <= i < bg.data@.len() ==> #[trigger] blend_pixel(text.data@[i], bg.data@[i])
                == bg.data@[i],
{
    assert forall|i: int|
        0 <= i < bg.data@.len() implies #[trigger] blend_pixel(text.data@[i], bg.data@[i])
        == bg.data@[i] by {
        assert(text.data@.len() == bg.data@.len());
        assert(text.data@[i].a == 0);
    }
}

} // verus!
