//! RGBA frames: placeholder frames, alpha blending of glyph coverage into a
//! frame, and the choice of font family for text sources.
use vstd::prelude::*;
use crate::text::{chars_of, chars_from, has_prefix, starts_with, string_of};

verus! {

broadcast use vstd::string::group_string_axioms;

/// A frame of RGBA pixels, four bytes per pixel, row by row.
#[derive(Debug, Clone)]
pub struct RgbaFrame {
    pub data: Vec<u8>,
    pub width: u32,
    pub height: u32,
}

/// The colour of a browser source before its page has rendered.
pub open spec fn placeholder_pixel() -> Seq<u8> {
    seq![0x1au8, 0x1au8, 0x2eu8, 0xffu8]
}

pub open spec fn at_least_one(n: u32) -> u32 {
    if n == 0 {
        1
    } else {
        n
    }
}

/// A placeholder frame for a browser source: `width` by `height` pixels
/// (each at least 1) of a dark blue-grey.
pub fn generate_browser_placeholder(width: u32, height: u32) -> (f: RgbaFrame)
    requires
        at_least_one(width) as int * at_least_one(height) as int * 4 <= usize::MAX,
    ensures
        f.width == at_least_one(width),
        f.height == at_least_one(height),
        f.data@.len() == f.width as int * f.height as int * 4,
        forall|i: int| 0 <= i < f.data@.len() ==> #[trigger] f.data@[i] == placeholder_pixel()[i % 4],
{
    let w: u32 = if width == 0 { 1 } else { width };
    let h: u32 = if height == 0 { 1 } else { height };
    let pixels = w as usize * h as usize;
    let pixel: [u8; 4] = [0x1a, 0x1a, 0x2e, 0xff];
    let mut data: Vec<u8> = Vec::new();
    let mut i: usize = 0;
    while i < pixels
        invariant
            i <= pixels,
            pixels == w as int * h as int,
            pixels * 4 <= usize::MAX,
            pixel@ == placeholder_pixel(),
            data@.len() == i * 4,
            forall|k: int| 0 <= k < data@.len() ==> #[trigger] data@[k] == placeholder_pixel()[k % 4],
        decreases pixels - i,
    {
        let ghost before = data@;
        data.push(pixel[0]);
        data.push(pixel[1]);
        data.push(pixel[2]);
        data.push(pixel[3]);
        assert forall|k: int| 0 <= k < data@.len() implies #[trigger] data@[k] == placeholder_pixel()[k % 4] by {
            if k < before.len() {
                assert(data@[k] == before[k]);
            } else {
                assert(k - i * 4 == k % 4) by (nonlinear_arith)
                    requires
                        i * 4 <= k < i * 4 + 4,
                ;
            }
        }
        i += 1;
    }
    RgbaFrame { data, width: w, height: h }
}

/// `color` drawn with coverage `alpha` over the channel value `under`.
pub open spec fn blend_channel(color: u8, under: u8, alpha: u8) -> u8 {
    ((color as int * alpha as int + under as int * (255 - alpha as int)) / 255) as u8
}

pub open spec fn max_u8(a: u8, b: u8) -> u8 {
    if a >= b {
        a
    } else {
        b
    }
}

/// Alpha-blend `color` with coverage `alpha` into the pixel at `offset`: the
/// colour channels are mixed, the alpha channel keeps the larger alpha.
pub fn alpha_blend(pixels: &mut Vec<u8>, offset: usize, color: &[u8; 4], alpha: u8)
    requires
        offset + 4 <= old(pixels)@.len(),
    ensures
        final(pixels)@ == old(pixels)@.update(
            offset as int,
            blend_channel(color@[0], old(pixels)@[offset as int], alpha),
        ).update(offset + 1, blend_channel(color@[1], old(pixels)@[offset + 1], alpha)).update(
            offset + 2,
            blend_channel(color@[2], old(pixels)@[offset + 2], alpha),
        ).update(offset + 3, max_u8(old(pixels)@[offset + 3], alpha)),
{
    let n = pixels.len();
    assert(offset + 4 <= n);
    let a = alpha as u16;
    let inv_a = 255 - a;
    let c0 = color[0] as u16;
    let c1 = color[1] as u16;
    let c2 = color[2] as u16;
    let p0 = pixels[offset] as u16;
    let p1 = pixels[offset + 1] as u16;
    let p2 = pixels[offset + 2] as u16;
    let p3 = pixels[offset + 3];
    assert(c0 * a + p0 * inv_a <= 255 * 255) by (nonlinear_arith)
        requires
            c0 <= 255,
            p0 <= 255,
            a <= 255,
            inv_a == 255 - a,
    ;
    assert(c1 * a + p1 * inv_a <= 255 * 255) by (nonlinear_arith)
        requires
            c1 <= 255,
            p1 <= 255,
            a <= 255,
            inv_a == 255 - a,
    ;
    assert(c2 * a + p2 * inv_a <= 255 * 255) by (nonlinear_arith)
        requires
            c2 <= 255,
            p2 <= 255,
            a <= 255,
            inv_a == 255 - a,
    ;
    pixels.set(offset, ((c0 * a + p0 * inv_a) / 255) as u8);
    pixels.set(offset + 1, ((c1 * a + p1 * inv_a) / 255) as u8);
    pixels.set(offset + 2, ((c2 * a + p2 * inv_a) / 255) as u8);
    pixels.set(offset + 3, if p3 >= alpha { p3 } else { alpha });
}

/// The font family a text source asks for.
#[derive(Debug, Clone, PartialEq, Eq)]
pub enum FontFamily {
    SansSerif,
    Serif,
    Monospace,
    /// A family installed on the system, by name.
    Name(String),
}

/// The value of a font family.
pub enum FontFamilyView {
    SansSerif,
    Serif,
    Monospace,
    Name(Seq<char>),
}

impl View for FontFamily {
    type V = FontFamilyView;

    open spec fn view(&self) -> FontFamilyView {
        match self {
            FontFamily::SansSerif => FontFamilyView::SansSerif,
            FontFamily::Serif => FontFamilyView::Serif,
            FontFamily::Monospace => FontFamilyView::Monospace,
            FontFamily::Name(n) => FontFamilyView::Name(n@),
        }
    }
}

/// `bundled:serif` and `bundled:mono` name the bundled serif and monospace
/// fonts; any other `bundled:` name is the sans-serif font; `system:Name`
/// and a plain name are system families.
pub open spec fn font_family_of(family: Seq<char>) -> FontFamilyView {
    if has_prefix(family, "bundled:"@) {
        let b = family.skip("bundled:"@.len() as int);
        if b == "serif"@ {
            FontFamilyView::Serif
        } else if b == "mono"@ {
            FontFamilyView::Monospace
        } else {
            FontFamilyView::SansSerif
        }
    } else if has_prefix(family, "system:"@) {
        FontFamilyView::Name(family.skip("system:"@.len() as int))
    } else {
        FontFamilyView::Name(family)
    }
}

/// Parse a font family string such as `"bundled:mono"` or `"system:Helvetica"`.
pub fn parse_font_family(family: &str) -> (f: FontFamily)
    ensures
        f@ == font_family_of(family@),
{
    proof {
        reveal_strlit("bundled:");
        reveal_strlit("system:");
    }
    let v = chars_of(family);
    if starts_with(v.as_slice(), chars_of("bundled:").as_slice()) {
        let b = string_of(chars_from(v.as_slice(), 8).as_slice());
        if b == "serif".to_string() {
            FontFamily::Serif
        } else if b == "mono".to_string() {
            FontFamily::Monospace
        } else {
            FontFamily::SansSerif
        }
    } else if starts_with(v.as_slice(), chars_of("system:").as_slice()) {
        FontFamily::Name(string_of(chars_from(v.as_slice(), 7).as_slice()))
    } else {
        FontFamily::Name(string_of(v.as_slice()))
    }
}


// ── Glyphs ──────────────────────────────────────────────────────────────────

/// What a rasterized glyph's bytes hold.
#[derive(Debug, Clone, Copy, PartialEq, Eq, Structural)]
pub enum GlyphContent {
    /// One coverage byte per pixel.
    Mask,
    /// Four RGBA bytes per pixel.
    Color,
    /// Per-channel coverage, which an RGBA frame cannot show.
    SubpixelMask,
}

/// A rasterized glyph: its placement relative to the pen position, its size
/// and its bytes, row by row.
#[derive(Debug, Clone)]
pub struct GlyphImage {
    pub left: i32,
    pub top: i32,
    pub width: u32,
    pub height: u32,
    pub content: GlyphContent,
    pub data: Vec<u8>,
}

/// The index of pixel (x, y) in a frame `w` pixels wide.
pub open spec fn pixel_index(x: int, y: int, w: int) -> int {
    y * w + x
}

/// The coverage and colour a glyph gives its pixel (ox, oy).
pub open spec fn glyph_alpha(image: GlyphImage, ox: int, oy: int) -> u8 {
    match image.content {
        GlyphContent::Mask => image.data@[pixel_index(ox, oy, image.width as int)],
        _ => image.data@[4 * pixel_index(ox, oy, image.width as int) + 3],
    }
}

pub open spec fn glyph_color(image: GlyphImage, ox: int, oy: int, color: Seq<u8>, c: int) -> u8 {
    match image.content {
        GlyphContent::Mask => color[c],
        _ => image.data@[4 * pixel_index(ox, oy, image.width as int) + c],
    }
}

/// Channel `c` of frame pixel (x, y) after the glyph is drawn with its pen at
/// (gx, gy): pixels the glyph covers with non-zero coverage are blended
/// (colour channels mixed, alpha channel maximized), others keep `under`.
pub open spec fn drawn(image: GlyphImage, gx: int, gy: int, color: Seq<u8>, x: int, y: int, c: int, under: u8) -> u8 {
    let ox = x - (gx + image.left);
    let oy = y - (gy - image.top);
    if image.content != GlyphContent::SubpixelMask && 0 <= ox < image.width && 0 <= oy < image.height
        && glyph_alpha(image, ox, oy) > 0 {
        if c < 3 {
            blend_channel(glyph_color(image, ox, oy, color, c), under, glyph_alpha(image, ox, oy))
        } else {
            max_u8(under, glyph_alpha(image, ox, oy))
        }
    } else {
        under
    }
}

proof fn lemma_pixel_index_distinct(x1: int, y1: int, x2: int, y2: int, w: int)
    requires
        0 <= x1 < w,
        0 <= x2 < w,
        0 <= y1,
        0 <= y2,
        (x1 != x2 || y1 != y2),
    ensures
        pixel_index(x1, y1, w) != pixel_index(x2, y2, w),
{
    if y1 < y2 {
        assert(y1 * w + x1 < y2 * w + x2) by (nonlinear_arith)
            requires
                y1 < y2,
                0 <= x1 < w,
                0 <= x2,
        ;
    } else if y2 < y1 {
        assert(y2 * w + x2 < y1 * w + x1) by (nonlinear_arith)
            requires
                y2 < y1,
                0 <= x2 < w,
                0 <= x1,
        ;
    }
}

proof fn lemma_pixel_index_bound(x: int, y: int, w: int, h: int)
    requires
        0 <= x < w,
        0 <= y < h,
    ensures
        0 <= pixel_index(x, y, w) < w * h,
{
    assert(0 <= y * w + x < w * h) by (nonlinear_arith)
        requires
            0 <= x < w,
            0 <= y < h,
    ;
}

/// Draw a glyph onto a frame `img_w` by `img_h` pixels with alpha blending,
/// its pen at (glyph_x, glyph_y). Pixels outside the frame are skipped.
pub fn draw_glyph_image(
    pixels: &mut Vec<u8>,
    img_w: u32,
    img_h: u32,
    image: &GlyphImage,
    glyph_x: i32,
    glyph_y: i32,
    color: &[u8; 4],
)
    requires
        old(pixels)@.len() == img_w as int * img_h as int * 4,
        img_w as int * img_h as int * 4 <= u32::MAX,
        image.width <= i32::MAX,
        image.height <= i32::MAX,
        i32::MIN <= glyph_x + image.left,
        glyph_x + image.left + image.width <= i32::MAX,
        i32::MIN <= glyph_y - image.top,
        glyph_y - image.top + image.height <= i32::MAX,
        image.content == GlyphContent::Mask ==> image.data@.len() >= image.width as int * image.height as int,
        image.content == GlyphContent::Color ==> image.data@.len() >= 4 * image.width as int * image.height as int,
    ensures
        final(pixels)@.len() == old(pixels)@.len(),
        forall|x: int, y: int, c: int|
            0 <= x < img_w && 0 <= y < img_h && 0 <= c < 4 ==> #[trigger] final(pixels)@[4 * pixel_index(x, y, img_w as int) + c]
                == drawn(*image, glyph_x as int, glyph_y as int, color@, x, y, c, old(pixels)@[4 * pixel_index(x, y, img_w as int) + c]),
{
    let px = glyph_x + image.left;
    let py = glyph_y - image.top;
    match image.content {
        GlyphContent::SubpixelMask => {
            return;
        },
        _ => {},
    }
    let is_mask = match image.content {
        GlyphContent::Mask => true,
        _ => false,
    };
    let gw = image.width as i32;
    let gh = image.height as i32;
    let ghost w = img_w as int;
    let ghost old_px = pixels@;
    let mut off_y: i32 = 0;
    while off_y < gh
        invariant
            0 <= off_y <= gh == image.height,
            gw == image.width,
            px == glyph_x + image.left,
            py == glyph_y - image.top,
            image.content != GlyphContent::SubpixelMask,
            is_mask == (image.content == GlyphContent::Mask),
            old_px == old(pixels)@,
            w == img_w,
            pixels@.len() == old_px.len() == img_w as int * img_h as int * 4,
            img_w as int * img_h as int * 4 <= u32::MAX,
            py + gh <= i32::MAX,
            px + gw <= i32::MAX,
            image.content == GlyphContent::Mask ==> image.data@.len() >= image.width as int * image.height as int,
            image.content == GlyphContent::Color ==> image.data@.len() >= 4 * image.width as int * image.height as int,
            forall|x: int, y: int, c: int|
                0 <= x < img_w && 0 <= y < img_h && 0 <= c < 4 ==> #[trigger] pixels@[4 * pixel_index(x, y, w) + c] == if y - py < off_y {
                    drawn(*image, glyph_x as int, glyph_y as int, color@, x, y, c, old_px[4 * pixel_index(x, y, w) + c])
                } else {
                    old_px[4 * pixel_index(x, y, w) + c]
                },
        decreases gh - off_y,
    {
        let mut off_x: i32 = 0;
        while off_x < gw
            invariant
                0 <= off_y < gh == image.height,
                0 <= off_x <= gw == image.width,
                px == glyph_x + image.left,
                py == glyph_y - image.top,
                image.content != GlyphContent::SubpixelMask,
                is_mask == (image.content == GlyphContent::Mask),
                old_px == old(pixels)@,
                w == img_w,
                pixels@.len() == old_px.len() == img_w as int * img_h as int * 4,
                img_w as int * img_h as int * 4 <= u32::MAX,
                py + gh <= i32::MAX,
                px + gw <= i32::MAX,
                image.content == GlyphContent::Mask ==> image.data@.len() >= image.width as int * image.height as int,
                image.content == GlyphContent::Color ==> image.data@.len() >= 4 * image.width as int * image.height as int,
                forall|x: int, y: int, c: int|
                    0 <= x < img_w && 0 <= y < img_h && 0 <= c < 4 ==> #[trigger] pixels@[4 * pixel_index(x, y, w) + c] == if y - py < off_y || (y - py == off_y && x - px < off_x) {
                        drawn(*image, glyph_x as int, glyph_y as int, color@, x, y, c, old_px[4 * pixel_index(x, y, w) + c])
                    } else {
                        old_px[4 * pixel_index(x, y, w) + c]
                    },
            decreases gw - off_x,
        {
            let x = px + off_x;
            let y = py + off_y;
            let ghost gi = pixel_index(off_x as int, off_y as int, image.width as int);
            proof {
                lemma_pixel_index_bound(off_x as int, off_y as int, image.width as int, image.height as int);
            }
            if x >= 0 && y >= 0 && (x as u32) < img_w && (y as u32) < img_h {
                proof {
                    lemma_pixel_index_bound(x as int, y as int, w, img_h as int);
                    assert(4 * (y * w + x) + 4 <= 4 * w * img_h) by (nonlinear_arith)
                        requires
                            0 <= y * w + x < w * img_h,
                    ;
                    assert(y as u32 * img_w + x as u32 == y * w + x);
                }
                let offset = ((y as u32 * img_w + x as u32) * 4) as usize;
                proof {
                    if is_mask {
                        assert(gi < image.data@.len());
                    } else {
                        assert(4 * gi + 4 <= image.data@.len()) by (nonlinear_arith)
                            requires
                                gi < image.width as int * image.height as int,
                                image.data@.len() >= 4 * image.width as int * image.height as int,
                        ;
                    }
                }
                let dl = image.data.len();
                assert(off_y as int * image.width as int + off_x as int == gi);
                assert(gi < dl);
                let i = off_y as usize * image.width as usize + off_x as usize;
                let (alpha, src) = if is_mask {
                    (image.data[i], *color)
                } else {
                    let k = 4 * i;
                    let s: [u8; 4] = [image.data[k], image.data[k + 1], image.data[k + 2], image.data[k + 3]];
                    (s[3], s)
                };
                if alpha > 0 {
                    let ghost before = pixels@;
                    alpha_blend(pixels, offset, &src, alpha);
                    proof {
                        assert forall|xx: int, yy: int, c: int|
                            0 <= xx < img_w && 0 <= yy < img_h && 0 <= c < 4 implies #[trigger] pixels@[4 * pixel_index(xx, yy, w) + c] == if yy - py < off_y || (yy - py == off_y && xx - px < off_x + 1) {
                                drawn(*image, glyph_x as int, glyph_y as int, color@, xx, yy, c, old_px[4 * pixel_index(xx, yy, w) + c])
                            } else {
                                old_px[4 * pixel_index(xx, yy, w) + c]
                            } by {
                            if xx == x && yy == y {
                            } else {
                                lemma_pixel_index_distinct(xx, yy, x as int, y as int, w);
                                lemma_pixel_index_bound(xx, yy, w, img_h as int);
                            }
                        }
                    }
                } else {
                    proof {
                        assert forall|xx: int, yy: int, c: int|
                            0 <= xx < img_w && 0 <= yy < img_h && 0 <= c < 4 implies #[trigger] pixels@[4 * pixel_index(xx, yy, w) + c] == if yy - py < off_y || (yy - py == off_y && xx - px < off_x + 1) {
                                drawn(*image, glyph_x as int, glyph_y as int, color@, xx, yy, c, old_px[4 * pixel_index(xx, yy, w) + c])
                            } else {
                                old_px[4 * pixel_index(xx, yy, w) + c]
                            } by {
                        }
                    }
                }
            }
            off_x += 1;
        }
        off_y += 1;
    }
}

} // verus!
