use vstd::prelude::*;

use crate::geometry::PhysicalRect;

verus! {

pub open spec fn min_u8(a: u8, b: u8) -> u8 {
    if a < b {
        a
    } else {
        b
    }
}

pub open spec fn sat_sub_u8(a: u8, b: u8) -> int {
    if a < b {
        0
    } else {
        a - b
    }
}

/// The alpha recovered from a pixel drawn once over black and once over white: how far
/// the white backdrop shows through, averaged over the colour channels.
pub open spec fn recovered_alpha(black: Seq<u8>, white: Seq<u8>) -> u8 {
    let backdrop = sat_sub_u8(white[0], black[0]) + sat_sub_u8(white[1], black[1]) + sat_sub_u8(
        white[2],
        black[2],
    );
    (255 - (backdrop + 1) / 3) as u8
}

/// The transparent BGRA pixel whose renderings over black and over white are `black` and
/// `white`: the alpha from the backdrop that shows through, the colour from the black
/// rendering, capped by the alpha as premultiplied colour must be.
pub open spec fn transparent_pixel_of(black: Seq<u8>, white: Seq<u8>) -> Seq<u8> {
    let alpha = recovered_alpha(black, white);
    seq![min_u8(black[0], alpha), min_u8(black[1], alpha), min_u8(black[2], alpha), alpha]
}

fn min_byte(a: u8, b: u8) -> (r: u8)
    ensures
        r == min_u8(a, b),
{
    if a < b {
        a
    } else {
        b
    }
}

pub fn synthesize_transparent_pixel(black: &[u8], white: &[u8]) -> (r: [u8; 4])
    requires
        black@.len() >= 3,
        white@.len() >= 3,
    ensures
        r@ == transparent_pixel_of(black@, white@),
{
    let mut backdrop: u16 = 0;
    let mut channel: usize = 0;
    while channel < 3
        invariant
            channel <= 3,
            black@.len() >= 3,
            white@.len() >= 3,
            backdrop == if channel == 0 {
                0
            } else if channel == 1 {
                sat_sub_u8(white@[0], black@[0])
            } else if channel == 2 {
                sat_sub_u8(white@[0], black@[0]) + sat_sub_u8(white@[1], black@[1])
            } else {
                sat_sub_u8(white@[0], black@[0]) + sat_sub_u8(white@[1], black@[1]) + sat_sub_u8(
                    white@[2],
                    black@[2],
                )
            },
        decreases 3 - channel,
    {
        let difference = white[channel].saturating_sub(black[channel]);
        backdrop = backdrop + difference as u16;
        channel = channel + 1;
    }
    let shown = ((backdrop + 1) / 3) as u8;
    let alpha = 255u8.saturating_sub(shown);
    let r = [
        min_byte(black[0], alpha),
        min_byte(black[1], alpha),
        min_byte(black[2], alpha),
        alpha,
    ];
    assert(r@ =~= transparent_pixel_of(black@, white@));
    r
}

/// One channel of `colour` multiplied by `alpha`, rounded to the nearest byte.
pub open spec fn premultiply(colour: u8, alpha: u8) -> u8 {
    ((colour * alpha + 127) / 255) as u8
}

/// Premultiplied BGRA pixels of straight-alpha RGBA ones; a trailing partial pixel is
/// dropped.
pub open spec fn premultiplied_bgra_of(rgba: Seq<u8>) -> Seq<u8> {
    Seq::new(
        (rgba.len() / 4 * 4) as nat,
        |i: int|
            {
                let p = i / 4 * 4;
                let alpha = rgba[p + 3];
                if i % 4 == 3 {
                    alpha
                } else {
                    premultiply(rgba[p + 2 - i % 4], alpha)
                }
            },
    )
}

proof fn lemma_premultiply_within_alpha(colour: u8, alpha: u8)
    ensures
        premultiply(colour, alpha) <= alpha,
{
    let x = (colour as int) * (alpha as int) + 127;
    assert(0 <= x < 255 * (alpha as int + 1)) by (nonlinear_arith)
        requires
            x == (colour as int) * (alpha as int) + 127,
            0 <= colour <= 255,
            0 <= alpha <= 255,
    ;
    assert(x / 255 <= alpha) by (nonlinear_arith)
        requires
            0 <= x < 255 * (alpha as int + 1),
    ;
}

/// Premultiplied colour never exceeds its alpha: every whole pixel of the result keeps
/// the alpha of its source pixel, and its blue, green and red bytes are at most that alpha.
pub proof fn law_premultiplied_colour_within_alpha(rgba: Seq<u8>)
    ensures
        premultiplied_bgra_of(rgba).len() == rgba.len() / 4 * 4,
        forall|i: int|
            0 <= i < premultiplied_bgra_of(rgba).len() && i % 4 == 3 ==> #[trigger] premultiplied_bgra_of(
                rgba,
            )[i] == rgba[i],
        forall|i: int|
            0 <= i < premultiplied_bgra_of(rgba).len() ==> #[trigger] premultiplied_bgra_of(rgba)[i]
                <= premultiplied_bgra_of(rgba)[i / 4 * 4 + 3],
{
    let out = premultiplied_bgra_of(rgba);
    assert forall|i: int| 0 <= i < out.len() implies #[trigger] out[i] <= out[i / 4 * 4 + 3] by {
        let p = i / 4 * 4;
        assert(0 <= p && p + 3 < out.len()) by {
            assert(out.len() == rgba.len() / 4 * 4);
        }
        assert((p + 3) / 4 * 4 == p);
        assert((p + 3) % 4 == 3);
        if i % 4 != 3 {
            lemma_premultiply_within_alpha(rgba[p + 2 - i % 4], rgba[p + 3]);
        }
    }
    assert forall|i: int| 0 <= i < out.len() && i % 4 == 3 implies #[trigger] out[i] == rgba[i] by {
        assert(i / 4 * 4 + 3 == i);
    }
}

fn premultiply_byte(colour: u8, alpha: u8) -> (r: u8)
    ensures
        r == premultiply(colour, alpha),
{
    assert((colour as u32) * (alpha as u32) + 127 <= 255 * 255 + 127) by (nonlinear_arith)
        requires
            colour <= 255,
            alpha <= 255,
    ;
    assert(((colour as u32) * (alpha as u32) + 127) / 255 <= 255) by (nonlinear_arith)
        requires
            (colour as u32) * (alpha as u32) + 127 <= 255 * 255 + 127,
    ;
    (((colour as u32) * (alpha as u32) + 127) / 255) as u8
}

pub fn rgba_to_premultiplied_bgra(rgba: &[u8]) -> (r: Vec<u8>)
    ensures
        r@ == premultiplied_bgra_of(rgba@),
{
    let len = rgba.len();
    let pixels = len / 4;
    let mut bgra: Vec<u8> = Vec::new();
    let mut k: usize = 0;
    while k < pixels
        invariant
            k <= pixels,
            len == rgba@.len(),
            pixels == len / 4,
            bgra@.len() == 4 * k,
            forall|i: int| 0 <= i < 4 * k ==> #[trigger] bgra@[i] == premultiplied_bgra_of(rgba@)[i],
        decreases pixels - k,
    {
        assert(4 * k + 3 < len);
        let base = 4 * k;
        let alpha = rgba[base + 3];
        bgra.push(premultiply_byte(rgba[base + 2], alpha));
        bgra.push(premultiply_byte(rgba[base + 1], alpha));
        bgra.push(premultiply_byte(rgba[base], alpha));
        bgra.push(alpha);
        assert forall|i: int| 0 <= i < 4 * (k + 1) implies #[trigger] bgra@[i] == premultiplied_bgra_of(
            rgba@,
        )[i] by {
            if i >= 4 * k {
                assert(i / 4 == k);
                assert(i / 4 * 4 == base);
            }
        }
        k = k + 1;
    }
    assert(bgra@ =~= premultiplied_bgra_of(rgba@));
    bgra
}

/// `pixel` repeated over every whole pixel of `target`; a trailing partial pixel is left.
pub open spec fn filled_bgra(target: Seq<u8>, pixel: Seq<u8>) -> Seq<u8> {
    Seq::new(
        target.len(),
        |i: int|
            if i < target.len() / 4 * 4 {
                pixel[i % 4]
            } else {
                target[i]
            },
    )
}

/// Fills every whole pixel of `target` with `pixel`.
pub fn fill_bgra(target: &mut [u8], pixel: &[u8])
    requires
        pixel@.len() == 4,
    ensures
        final(target)@ == filled_bgra(old(target)@, pixel@),
{
    let whole = target.len() / 4 * 4;
    let mut i: usize = 0;
    while i < whole
        invariant
            i <= whole,
            whole == old(target)@.len() / 4 * 4,
            target@.len() == old(target)@.len(),
            pixel@.len() == 4,
            forall|j: int| 0 <= j < i ==> #[trigger] target@[j] == pixel@[j % 4],
            forall|j: int| i <= j < target@.len() ==> #[trigger] target@[j] == old(target)@[j],
        decreases whole - i,
    {
        target[i] = pixel[i % 4];
        i = i + 1;
    }
    assert(target@ =~= filled_bgra(old(target)@, pixel@));
}

/// The length of a `width` x `height` BGRA buffer when every step fits in `i32`.
pub open spec fn solid_len_of(width: int, height: int) -> Option<int> {
    let area = width * height;
    if area < i32::MIN || area > i32::MAX || area * 4 < i32::MIN || area * 4 > i32::MAX || area * 4 < 0 {
        None
    } else {
        Some(area * 4)
    }
}

/// A `width` x `height` BGRA buffer of one colour, or `None` where the size does not fit.
pub fn solid_bgra_pixels(width: i32, height: i32, color: [u8; 4]) -> (r: Option<Vec<u8>>)
    ensures
        match solid_len_of(width as int, height as int) {
            Some(len) => r matches Some(v) && v@.len() == len && forall|i: int|
                0 <= i < len ==> #[trigger] v@[i] == color@[i % 4],
            None => r is None,
        },
{
    assert(-0x4000_0000_0000_0000 <= (width as int) * (height as int) <= 0x4000_0000_0000_0000)
        by (nonlinear_arith)
        requires
            -0x8000_0000 <= width <= 0x7fff_ffff,
            -0x8000_0000 <= height <= 0x7fff_ffff,
    ;
    let area = (width as i64) * (height as i64);
    if area < i32::MIN as i64 || area > i32::MAX as i64 {
        return None;
    }
    let bytes = area * 4;
    if bytes < 0 || bytes > i32::MAX as i64 {
        return None;
    }
    let len = bytes as usize;
    let mut pixels: Vec<u8> = Vec::new();
    let mut i: usize = 0;
    while i < len
        invariant
            i <= len,
            pixels@.len() == i,
            forall|j: int| 0 <= j < i ==> #[trigger] pixels@[j] == color@[j % 4],
        decreases len - i,
    {
        pixels.push(color[i % 4]);
        i = i + 1;
    }
    Some(pixels)
}


/// How the area behind a rasterised layer is treated.
#[derive(Clone, Copy, Debug, PartialEq, Eq, Structural)]
pub enum StaticLayerBackground {
    /// The layer covers what is behind it.
    Opaque,
    /// The layer keeps the alpha its drawing leaves.
    Transparent,
}

/// The bytes of a `width` x `height` BGRA buffer.
pub open spec fn buffer_len(width: int, height: int) -> int {
    width * height * 4
}

/// Whether a `width` x `height` BGRA buffer fits in `len` bytes with its size computed in
/// `i32`.
pub open spec fn buffer_fits(width: int, height: int, len: int) -> bool {
    0 <= buffer_len(width, height) <= i32::MAX && buffer_len(width, height) <= len
}

/// Byte `i` of a buffer after its alpha is forced to full.
pub open spec fn opaque_byte(pixels: Seq<u8>, i: int) -> u8 {
    if i % 4 == 3 {
        255
    } else {
        pixels[i]
    }
}

/// Byte `i` of a buffer after every pixel drawn with a colour but left without alpha
/// is made fully opaque.
pub open spec fn drawn_byte(pixels: Seq<u8>, i: int) -> u8 {
    let p = i - i % 4;
    if i % 4 == 3 && pixels[i] == 0 && (pixels[p] != 0 || pixels[p + 1] != 0 || pixels[p + 2] != 0) {
        255
    } else {
        pixels[i]
    }
}

fn buffer_bytes(width: i32, height: i32) -> (r: usize)
    requires
        0 <= buffer_len(width as int, height as int) <= i32::MAX,
    ensures
        r == buffer_len(width as int, height as int),
        r % 4 == 0,
{
    assert(-0x4000_0000_0000_0000 <= (width as int) * (height as int) <= 0x4000_0000_0000_0000)
        by (nonlinear_arith)
        requires
            -0x8000_0000 <= width <= 0x7fff_ffff,
            -0x8000_0000 <= height <= 0x7fff_ffff,
    ;
    ((width as i64) * (height as i64) * 4) as usize
}

/// Clears the `width` x `height` BGRA pixels at the start of `pixels` to transparent black.
pub fn clear_alpha_buffer(pixels: &mut [u8], width: i32, height: i32)
    requires
        buffer_fits(width as int, height as int, old(pixels)@.len() as int),
    ensures
        final(pixels)@.len() == old(pixels)@.len(),
        forall|i: int|
            0 <= i < final(pixels)@.len() ==> #[trigger] final(pixels)@[i] == if i < buffer_len(
                width as int,
                height as int,
            ) {
                0
            } else {
                old(pixels)@[i]
            },
{
    let n = buffer_bytes(width, height);
    let mut i: usize = 0;
    while i < n
        invariant
            i <= n,
            n <= pixels@.len(),
            pixels@.len() == old(pixels)@.len(),
            forall|j: int|
                0 <= j < pixels@.len() ==> #[trigger] pixels@[j] == if j < i {
                    0
                } else {
                    old(pixels)@[j]
                },
        decreases n - i,
    {
        pixels[i] = 0;
        i = i + 1;
    }
}

/// Makes every pixel of the `width` x `height` BGRA pixels at the start of `pixels`
/// fully opaque.
pub fn set_opaque_alpha(pixels: &mut [u8], width: i32, height: i32)
    requires
        buffer_fits(width as int, height as int, old(pixels)@.len() as int),
    ensures
        final(pixels)@.len() == old(pixels)@.len(),
        forall|i: int|
            0 <= i < final(pixels)@.len() ==> #[trigger] final(pixels)@[i] == if i < buffer_len(
                width as int,
                height as int,
            ) {
                opaque_byte(old(pixels)@, i)
            } else {
                old(pixels)@[i]
            },
{
    let n = buffer_bytes(width, height);
    let mut p: usize = 0;
    while p < n
        invariant
            p <= n,
            p % 4 == 0,
            n % 4 == 0,
            n <= pixels@.len(),
            pixels@.len() == old(pixels)@.len(),
            forall|j: int|
                0 <= j < pixels@.len() ==> #[trigger] pixels@[j] == if j < p {
                    opaque_byte(old(pixels)@, j)
                } else {
                    old(pixels)@[j]
                },
        decreases n - p,
    {
        pixels[p + 3] = 255;
        p = p + 4;
    }
}

/// Makes fully opaque every pixel of the `width` x `height` BGRA pixels at the start of
/// `pixels` that was drawn with a colour but left without alpha, as text and lines drawn
/// by GDI are.
pub fn set_drawn_pixel_alpha(pixels: &mut [u8], width: i32, height: i32)
    requires
        buffer_fits(width as int, height as int, old(pixels)@.len() as int),
    ensures
        final(pixels)@.len() == old(pixels)@.len(),
        forall|i: int|
            0 <= i < final(pixels)@.len() ==> #[trigger] final(pixels)@[i] == if i < buffer_len(
                width as int,
                height as int,
            ) {
                drawn_byte(old(pixels)@, i)
            } else {
                old(pixels)@[i]
            },
{
    let n = buffer_bytes(width, height);
    let mut p: usize = 0;
    while p < n
        invariant
            p <= n,
            p % 4 == 0,
            n % 4 == 0,
            n <= pixels@.len(),
            pixels@.len() == old(pixels)@.len(),
            forall|j: int|
                0 <= j < pixels@.len() ==> #[trigger] pixels@[j] == if j < p {
                    drawn_byte(old(pixels)@, j)
                } else {
                    old(pixels)@[j]
                },
        decreases n - p,
    {
        if pixels[p + 3] == 0 && (pixels[p] != 0 || pixels[p + 1] != 0 || pixels[p + 2] != 0) {
            pixels[p + 3] = 255;
        }
        proof {
            assert forall|j: int| p <= j < p + 4 implies drawn_byte(old(pixels)@, j) == pixels@[j] by {
                assert(j - j % 4 == p);
            }
        }
        p = p + 4;
    }
}

/// Prepares the alpha of a freshly drawn `width` x `height` layer: an opaque layer is
/// made fully opaque, a transparent one gets alpha where GDI drew without it.
pub fn prepare_alpha_buffer(
    pixels: &mut [u8],
    width: i32,
    height: i32,
    background: StaticLayerBackground,
)
    requires
        buffer_fits(width as int, height as int, old(pixels)@.len() as int),
    ensures
        final(pixels)@.len() == old(pixels)@.len(),
        forall|i: int|
            0 <= i < final(pixels)@.len() ==> #[trigger] final(pixels)@[i] == if i < buffer_len(
                width as int,
                height as int,
            ) {
                match background {
                    StaticLayerBackground::Opaque => opaque_byte(old(pixels)@, i),
                    StaticLayerBackground::Transparent => drawn_byte(old(pixels)@, i),
                }
            } else {
                old(pixels)@[i]
            },
{
    match background {
        StaticLayerBackground::Opaque => set_opaque_alpha(pixels, width, height),
        StaticLayerBackground::Transparent => set_drawn_pixel_alpha(pixels, width, height),
    }
}

/// The red, green and blue bytes of a `0xRRGGBB` colour.
pub fn color_components(color: u32) -> (r: (u8, u8, u8))
    ensures
        r.0 == (color / 0x10000) % 0x100,
        r.1 == (color / 0x100) % 0x100,
        r.2 == color % 0x100,
{
    let red = (color >> 16) & 0xFF;
    let green = (color >> 8) & 0xFF;
    let blue = color & 0xFF;
    assert(red == (color / 0x10000) % 0x100 && green == (color / 0x100) % 0x100 && blue == color
        % 0x100) by (bit_vector)
        requires
            red == (color >> 16) & 0xFF,
            green == (color >> 8) & 0xFF,
            blue == color & 0xFF,
    ;
    (red as u8, green as u8, blue as u8)
}


/// The part of `rect` that lies on a `width` x `height` surface, if any.
pub open spec fn surface_clip_of(rect: PhysicalRect, width: int, height: int) -> Option<PhysicalRect> {
    let left = if rect.left < 0 { 0 } else { rect.left as int };
    let top = if rect.top < 0 { 0 } else { rect.top as int };
    let right = if rect.right > width { width } else { rect.right as int };
    let bottom = if rect.bottom > height { height } else { rect.bottom as int };
    if left < right && top < bottom {
        Some(PhysicalRect { left: left as i32, top: top as i32, right: right as i32, bottom: bottom as i32 })
    } else {
        None
    }
}

/// The part of `rect` that lies on a `width` x `height` surface, if any.
pub fn clipped_surface_region(rect: PhysicalRect, width: i32, height: i32) -> (r: Option<PhysicalRect>)
    ensures
        r == surface_clip_of(rect, width as int, height as int),
{
    let left = if rect.left < 0 { 0 } else { rect.left };
    let top = if rect.top < 0 { 0 } else { rect.top };
    let right = if rect.right > width { width } else { rect.right };
    let bottom = if rect.bottom > height { height } else { rect.bottom };
    if left < right && top < bottom {
        Some(PhysicalRect { left, top, right, bottom })
    } else {
        None
    }
}

/// What a region operation writes into each pixel of the region.
#[derive(Clone, Copy)]
pub enum RegionOp {
    /// Every byte of the pixel from the colour.
    Fill([u8; 4]),
    /// The alpha byte only.
    Alpha(u8),
    /// The transparent pixel recovered from the renderings over black and over white.
    Synthesize,
}

/// Whether byte `i` of a `width`-wide BGRA buffer belongs to a pixel of `clip`.
pub open spec fn in_clip(clip: PhysicalRect, width: int, i: int) -> bool {
    let p = i / 4;
    clip.left <= p % width < clip.right && clip.top <= p / width < clip.bottom
}

/// Byte `i` of a pixel in the region after `op`.
pub open spec fn region_byte(op: RegionOp, out: Seq<u8>, black: Seq<u8>, white: Seq<u8>, i: int) -> u8 {
    let base = i - i % 4;
    match op {
        RegionOp::Fill(color) => color@[i % 4],
        RegionOp::Alpha(alpha) => if i % 4 == 3 {
            alpha
        } else {
            out[i]
        },
        RegionOp::Synthesize => transparent_pixel_of(
            black.subrange(base, base + 4),
            white.subrange(base, base + 4),
        )[i % 4],
    }
}

/// A `width` x `height` buffer after `op` over the part of `rect` on it; bytes outside
/// that part keep their values.
pub open spec fn region_applied(
    op: RegionOp,
    out: Seq<u8>,
    black: Seq<u8>,
    white: Seq<u8>,
    width: int,
    height: int,
    rect: PhysicalRect,
) -> Seq<u8> {
    Seq::new(
        out.len(),
        |i: int|
            match surface_clip_of(rect, width, height) {
                Some(clip) => if i < width * height * 4 && in_clip(clip, width, i) {
                    region_byte(op, out, black, white, i)
                } else {
                    out[i]
                },
                None => out[i],
            },
    )
}

/// Whether a region operation on a `width` x `height` surface of `len` bytes stays in
/// `i32` offsets and within the buffers.
pub open spec fn region_in_range(width: int, height: int, len: int) -> bool {
    width > 0 && height > 0 ==> width * height * 4 <= i32::MAX && width * height * 4 <= len
}

proof fn lemma_pixel_of(p: int, width: int)
    requires
        p >= 0,
        width > 0,
    ensures
        p == (p / width) * width + p % width,
        0 <= p % width < width,
        p / width >= 0,
{
    vstd::arithmetic::div_mod::lemma_fundamental_div_mod(p, width);
    assert((p / width) * width == width * (p / width)) by (nonlinear_arith);
    vstd::arithmetic::div_mod::lemma_div_pos_is_pos(p, width);
}

fn apply_region(
    out: &mut [u8],
    black: &[u8],
    white: &[u8],
    width: i32,
    height: i32,
    rect: PhysicalRect,
    op: RegionOp,
)
    requires
        region_in_range(width as int, height as int, old(out)@.len() as int),
        op is Synthesize ==> region_in_range(width as int, height as int, black@.len() as int)
            && region_in_range(width as int, height as int, white@.len() as int),
    ensures
        final(out)@ == region_applied(
            op,
            old(out)@,
            black@,
            white@,
            width as int,
            height as int,
            rect,
        ),
{
    let ghost start = out@;
    let ghost target = region_applied(op, start, black@, white@, width as int, height as int, rect);
    let clip = match clipped_surface_region(rect, width, height) {
        Some(clip) => clip,
        None => {
            assert(out@ =~= target);
            return;
        },
    };
    let ghost w = width as int;
    let ghost h = height as int;
    proof {
        assert(w * h * 4 <= i32::MAX);
    }
    let mut y = clip.top;
    while y < clip.bottom
        invariant
            clip == surface_clip_of(rect, w, h).unwrap(),
            surface_clip_of(rect, w, h) is Some,
            w == width,
            h == height,
            0 <= clip.left < clip.right <= width,
            0 <= clip.top <= y <= clip.bottom <= height,
            w * h * 4 <= i32::MAX,
            w * h * 4 <= out@.len(),
            out@.len() == start.len(),
            target == region_applied(op, start, black@, white@, w, h, rect),
            op is Synthesize ==> w * h * 4 <= black@.len() && w * h * 4 <= white@.len(),
            forall|i: int|
                0 <= i < out@.len() ==> #[trigger] out@[i] == if i < w * h * 4 && in_clip(clip, w, i)
                    && (i / 4) / w < y {
                    target[i]
                } else {
                    start[i]
                },
        decreases clip.bottom - y,
    {
        let mut x = clip.left;
        while x < clip.right
            invariant
                clip == surface_clip_of(rect, w, h).unwrap(),
                surface_clip_of(rect, w, h) is Some,
                w == width,
                h == height,
                0 <= clip.left <= x <= clip.right <= width,
                0 <= clip.top <= y < clip.bottom <= height,
                w * h * 4 <= i32::MAX,
                w * h * 4 <= out@.len(),
                out@.len() == start.len(),
                target == region_applied(op, start, black@, white@, w, h, rect),
                op is Synthesize ==> w * h * 4 <= black@.len() && w * h * 4 <= white@.len(),
                forall|i: int|
                    0 <= i < out@.len() ==> #[trigger] out@[i] == if i < w * h * 4 && in_clip(clip, w, i)
                        && ((i / 4) / w < y || ((i / 4) / w == y && (i / 4) % w < x)) {
                        target[i]
                    } else {
                        start[i]
                    },
            decreases clip.right - x,
        {
            proof {
                assert(0 <= y * w + x < w * h) by (nonlinear_arith)
                    requires
                        0 <= x < w,
                        0 <= y < h,
                ;
                vstd::arithmetic::div_mod::lemma_fundamental_div_mod_converse(y * w + x, w, y as int, x as int);
            }
            let base = ((y * width + x) * 4) as usize;
            let ghost before = out@;
            proof {
                assert forall|c: int| 0 <= c < 4 implies #[trigger] before[base + c] == start[base + c] by {
                    let i = base + c;
                    assert(i / 4 == y * w + x);
                }
            }
            match op {
                RegionOp::Fill(color) => {
                    out[base] = color[0];
                    out[base + 1] = color[1];
                    out[base + 2] = color[2];
                    out[base + 3] = color[3];
                },
                RegionOp::Alpha(alpha) => {
                    out[base + 3] = alpha;
                },
                RegionOp::Synthesize => {
                    let mut b: Vec<u8> = Vec::new();
                    b.push(black[base]);
                    b.push(black[base + 1]);
                    b.push(black[base + 2]);
                    b.push(black[base + 3]);
                    let mut wh: Vec<u8> = Vec::new();
                    wh.push(white[base]);
                    wh.push(white[base + 1]);
                    wh.push(white[base + 2]);
                    wh.push(white[base + 3]);
                    proof {
                        assert(b@ =~= black@.subrange(base as int, base + 4));
                        assert(wh@ =~= white@.subrange(base as int, base + 4));
                    }
                    let pixel = synthesize_transparent_pixel(b.as_slice(), wh.as_slice());
                    out[base] = pixel[0];
                    out[base + 1] = pixel[1];
                    out[base + 2] = pixel[2];
                    out[base + 3] = pixel[3];
                },
            }
            proof {
                assert forall|i: int|
                    0 <= i < out@.len() implies #[trigger] out@[i] == if i < w * h * 4 && in_clip(clip, w, i)
                        && ((i / 4) / w < y || ((i / 4) / w == y && (i / 4) % w < x + 1)) {
                        target[i]
                    } else {
                        start[i]
                    } by {
                    if base <= i < base + 4 {
                        assert(i / 4 == y * w + x);
                        assert(i - i % 4 == base);
                        assert(i < w * h * 4);
                    } else {
                        assert(out@[i] == before[i]);
                        if i >= 0 {
                            lemma_pixel_of(i / 4, w);
                        }
                    }
                }
            }
            x = x + 1;
        }
        y = y + 1;
    }
    proof {
        assert forall|i: int| 0 <= i < out@.len() implies #[trigger] out@[i] == target[i] by {
            if i < w * h * 4 {
                lemma_pixel_of(i / 4, w);
                assert((i / 4) / w < h) by {
                    if (i / 4) / w >= h {
                        assert(((i / 4) / w) * w >= h * w) by (nonlinear_arith)
                            requires
                                (i / 4) / w >= h,
                                w > 0,
                        ;
                        assert(h * w == w * h) by (nonlinear_arith);
                    }
                }
            }
        }
        assert(out@ =~= target);
    }
}

/// Fills the part of `rect` on a `width` x `height` BGRA surface with `color`.
pub fn fill_surface_region(pixels: &mut [u8], width: i32, height: i32, rect: PhysicalRect, color: [u8; 4])
    requires
        region_in_range(width as int, height as int, old(pixels)@.len() as int),
    ensures
        final(pixels)@ == region_applied(
            RegionOp::Fill(color),
            old(pixels)@,
            Seq::empty(),
            Seq::empty(),
            width as int,
            height as int,
            rect,
        ),
{
    let none: Vec<u8> = Vec::new();
    apply_region(pixels, none.as_slice(), none.as_slice(), width, height, rect, RegionOp::Fill(color));
}

/// Sets the alpha of every pixel in the part of `rect` on a `width` x `height` BGRA
/// surface.
pub fn set_surface_alpha_region(pixels: &mut [u8], width: i32, height: i32, rect: PhysicalRect, alpha: u8)
    requires
        region_in_range(width as int, height as int, old(pixels)@.len() as int),
    ensures
        final(pixels)@ == region_applied(
            RegionOp::Alpha(alpha),
            old(pixels)@,
            Seq::empty(),
            Seq::empty(),
            width as int,
            height as int,
            rect,
        ),
{
    let none: Vec<u8> = Vec::new();
    apply_region(pixels, none.as_slice(), none.as_slice(), width, height, rect, RegionOp::Alpha(alpha));
}

/// Recovers the transparent pixels of the part of `rect` on a `width` x `height` surface
/// from its renderings over black and over white.
pub fn synthesize_transparent_region(
    output: &mut [u8],
    black: &[u8],
    white: &[u8],
    width: i32,
    height: i32,
    rect: PhysicalRect,
)
    requires
        region_in_range(width as int, height as int, old(output)@.len() as int),
        region_in_range(width as int, height as int, black@.len() as int),
        region_in_range(width as int, height as int, white@.len() as int),
    ensures
        final(output)@ == region_applied(
            RegionOp::Synthesize,
            old(output)@,
            black@,
            white@,
            width as int,
            height as int,
            rect,
        ),
{
    apply_region(output, black, white, width, height, rect, RegionOp::Synthesize);
}


/// The GDI `COLORREF` of a `0xRRGGBB` colour: the same bytes as `0x00BBGGRR`.
pub fn colorref(color: u32) -> (r: u32)
    ensures
        r == (color % 0x100) * 0x10000 + ((color / 0x100) % 0x100) * 0x100 + (color / 0x10000) % 0x100,
{
    let r = ((color & 0xFF) << 16) | (color & 0x00FF00) | ((color >> 16) & 0xFF);
    assert(r == (color % 0x100) * 0x10000 + ((color / 0x100) % 0x100) * 0x100 + (color / 0x10000)
        % 0x100) by (bit_vector)
        requires
            r == ((color & 0xFF) << 16) | (color & 0x00FF00) | ((color >> 16) & 0xFF),
    ;
    r
}

/// The `0xAARRGGBB` value of a `0xRRGGBB` colour with `alpha`.
pub fn color_to_argb(color: u32, alpha: u8) -> (r: u32)
    ensures
        r == alpha * 0x100_0000 + ((color / 0x10000) % 0x100) * 0x10000 + ((color / 0x100) % 0x100)
            * 0x100 + color % 0x100,
{
    let red = (color >> 16) & 0xFF;
    let green = (color >> 8) & 0xFF;
    let blue = color & 0xFF;
    let a = alpha as u32;
    let r = (a << 24) | (red << 16) | (green << 8) | blue;
    assert(r == a * 0x100_0000 + ((color / 0x10000) % 0x100) * 0x10000 + ((color / 0x100) % 0x100)
        * 0x100 + color % 0x100) by (bit_vector)
        requires
            a < 0x100,
            red == (color >> 16) & 0xFF,
            green == (color >> 8) & 0xFF,
            blue == color & 0xFF,
            r == (a << 24) | (red << 16) | (green << 8) | blue,
    ;
    r
}

} // verus!
