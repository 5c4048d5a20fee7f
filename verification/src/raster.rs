//! The vector-rendering boundary: parsing the generated markup and drawing
//! it into a transparent pixel layer, then compositing that layer onto the
//! background buffer.
//!
//! What the renderer draws depends on the font catalog and the machine, so
//! nothing is assumed about the pixels that come back; everything after the
//! rendering call is verified for every possible layer.

use vstd::prelude::*;
use crate::compose::{PixelBuffer, blend_pixel, composite_text_layer};
use crate::geometry::SafeArea;
use crate::layout::{generate_text_svg, MAX_TEXT_LEN};

verus! {

/// Declares `usvg::Tree`, the parsed vector document, as an opaque type.
#[verifier::external_type_specification]
#[verifier::external_body]
pub struct ExSvgTree(usvg::Tree);

/// Declares `fontdb::Database`, the font catalog the renderer draws with,
/// as an opaque type; the surrounding program fills it.
#[verifier::external_type_specification]
#[verifier::external_body]
pub struct ExFontDatabase(fontdb::Database);

/// Declares `tiny_skia::Pixmap`, the renderer's pixel canvas, as an opaque
/// type; its contents are reached through `pixmap_data`.
#[verifier::external_type_specification]
#[verifier::external_body]
pub struct ExPixmap(tiny_skia::Pixmap);

/// The bytes a pixmap holds: premultiplied RGBA, four per pixel, row after
/// row.
pub uninterp spec fn pixmap_data(p: tiny_skia::Pixmap) -> Seq<u8>;

/// Why rendering the text layer failed.
#[derive(Clone, Copy, Debug, PartialEq, Eq, Structural)]
pub enum RenderError {
    /// The vector renderer rejected the markup.
    MarkupRejected,
    /// No pixel canvas of the requested size could be made.
    CanvasUnavailable,
}

/// Relies on `usvg::Tree::from_str`, with the given fonts wrapped into the
/// parser's options: parses the markup, or fails.
#[verifier::external_body]
fn parse_markup(svg: &str, fonts: fontdb::Database) -> (r: Option<usvg::Tree>) {
    let options = usvg::Options {
        fontdb: std::sync::Arc::new(fonts),
        ..usvg::Options::default()
    };
    usvg::Tree::from_str(svg, &options).ok()
}

/// Relies on `tiny_skia::Pixmap::new`: a pixmap of the given size, filled
/// with transparent black, holding four bytes per pixel; sizes from one up
/// to `i32::MAX / 4` on each side always succeed.
#[verifier::external_body]
fn new_pixmap(width: u32, height: u32) -> (r: Option<tiny_skia::Pixmap>)
    ensures
        r matches Some(p) ==> pixmap_data(p).len() == 4 * (width as int) * (height as int)
            && (forall|i: int| 0 <= i < pixmap_data(p).len() ==> #[trigger] pixmap_data(p)[i] == 0),
        (1 <= width <= 0x1FFF_FFFF && 1 <= height <= 0x1FFF_FFFF) ==> r is Some,
{
    tiny_skia::Pixmap::new(width, height)
}

/// Relies on `resvg::render`: draws the tree into the pixmap in place,
/// without changing the pixmap's size.
#[verifier::external_body]
fn render_into(tree: &usvg::Tree, pixmap: &mut tiny_skia::Pixmap)
    ensures
        pixmap_data(*final(pixmap)).len() == pixmap_data(*old(pixmap)).len(),
{
    resvg::render(tree, tiny_skia::Transform::default(), &mut pixmap.as_mut());
}

/// Relies on `tiny_skia::Pixmap::take`: hands out the pixmap's bytes.
#[verifier::external_body]
fn pixmap_bytes(p: tiny_skia::Pixmap) -> (r: Vec<u8>)
    ensures
        r@ == pixmap_data(p),
{
    p.take()
}

/// Draws the markup into a fresh transparent layer of exactly the given
/// size.  What the pixels hold depends on the renderer and the fonts;
/// only the layer's shape is promised.
pub fn rasterize_markup(svg: &str, width: u32, height: u32, fonts: fontdb::Database) -> (r: Result<
    PixelBuffer,
    RenderError,
>)
    ensures
        r matches Ok(buf) ==> buf.wf() && buf.width == width && buf.height == height,
        (1 <= width <= 0x1FFF_FFFF && 1 <= height <= 0x1FFF_FFFF) ==> r != Result::<
            PixelBuffer,
            RenderError,
        >::Err(RenderError::CanvasUnavailable),
{
    let tree = match parse_markup(svg, fonts) {
        Option::Some(t) => t,
        Option::None => {
            return Result::Err(RenderError::MarkupRejected);
        },
    };
    let mut pixmap = match new_pixmap(width, height) {
        Option::Some(p) => p,
        Option::None => {
            return Result::Err(RenderError::CanvasUnavailable);
        },
    };
    render_into(&tree, &mut pixmap);
    let bytes = pixmap_bytes(pixmap);
    let buf = PixelBuffer::from_rgba_bytes(width, height, &bytes);
    Result::Ok(buf)
}

/// Lays the text out over the background's safe area, rasterizes it, and
/// blends it onto the background in place.  On failure the background is
/// untouched.  The blend itself is exact (see `composite_text_layer`); the
/// layer's pixels come from the renderer and may differ between machines.
pub fn composite_text_on_image(
    bg: &mut PixelBuffer,
    text: &str,
    author: Option<&str>,
    balance: Option<&str>,
    safe_area: &SafeArea,
    text_padding: u32,
    fonts: fontdb::Database,
) -> (r: Result<(), RenderError>)
    requires
        old(bg).wf(),
        text@.len() <= MAX_TEXT_LEN,
        author matches Option::Some(a) ==> a@.len() <= MAX_TEXT_LEN,
        balance matches Option::Some(b) ==> b@.len() <= MAX_TEXT_LEN,
    ensures
        final(bg).width == old(bg).width,
        final(bg).height == old(bg).height,
        final(bg).wf(),
        r matches Err(_) ==> *final(bg) == *old(bg),
        r matches Ok(_) ==> exists|layer: PixelBuffer|
            {
                &&& (#[trigger] layer.wf())
                &&& layer.width == old(bg).width
                &&& layer.height == old(bg).height
                &&& forall|i: int|
                    0 <= i < final(bg).data@.len() ==> #[trigger] final(bg).data@[i] == blend_pixel(
                        layer.data@[i],
                        old(bg).data@[i],
                    )
            },
{
    let svg = generate_text_svg(
        text,
        author,
        balance,
        bg.width,
        bg.height,
        safe_area,
        text_padding,
    );
    let layer = match rasterize_markup(svg.as_str(), bg.width, bg.height, fonts) {
        Result::Ok(l) => l,
        Result::Err(e) => {
            return Result::Err(e);
        },
    };
    composite_text_layer(bg, &layer);
    proof {
        assert(layer.wf() && layer.width == old(bg).width && layer.height == old(bg).height);
    }
    Result::Ok(())
}

} // verus!
