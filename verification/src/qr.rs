//! The QR code of a share's address, as an RGBA image for the window.
use vstd::prelude::*;
use vstd::utf8::encode_utf8;

use crate::errors::LanQrError;
use crate::http::utf8_bytes;

verus! {

/// The image for a requested side of `size` fits the machine's buffers. A
/// QR code is at most 177 modules wide, 185 with its quiet zone, so the image
/// side is at most `size + 185` (whole modules, rounded up). The RGBA buffer
/// of four bytes per pixel, and so the grey one too, must not exceed
/// `isize::MAX` bytes, the most a buffer can hold; this also keeps `qrcode`'s
/// own `u32` arithmetic on the side from overflowing.
pub open spec fn qr_size_fits(size: u32) -> bool {
    4 * (size + 185) * (size + 185) <= isize::MAX
}

/// Whether an image of side `size` fits (see [`qr_size_fits`]).
pub fn qr_size_supported(size: u32) -> (res: bool)
    ensures
        res == qr_size_fits(size),
{
    let t: u128 = size as u128 + 185;
    assert(t * t <= 0x1_0000_0000_0000_0000_0000) by (nonlinear_arith)
        requires
            t <= 0x1_0000_00b9,
    ;
    assert(4 * (size + 185) * (size + 185) == 4 * (t * t)) by (nonlinear_arith)
        requires
            t == size + 185,
    ;
    4 * (t * t) <= isize::MAX as u128
}

/// A grey-scale image, one byte per pixel, rows top to bottom.
pub struct LumaImage {
    pub width: u32,
    pub height: u32,
    pub pixels: Vec<u8>,
}

/// An RGBA image, four bytes per pixel, rows top to bottom.
pub struct QrImage {
    pub width: usize,
    pub height: usize,
    pub rgba: Vec<u8>,
}

/// What `qrcode` makes of `data` for a requested side of `size` pixels: the
/// grey-scale image (width, height, pixels) of the code with its quiet zone,
/// or the text of the encoding error.
pub uninterp spec fn qr_luma(data: Seq<u8>, size: u32) -> Result<(u32, u32, Seq<u8>), Seq<char>>;

/// `qrcode::QrCode::new(data)` rendered to `image::Luma<u8>` with
/// `min_dimensions(size, size)` and the quiet zone on. The contract names the
/// outcome [`qr_luma`] and adds what the renderer's source shows plainly: the
/// pixel buffer holds one byte per pixel, the image is square with a side of
/// at least `size` (whole modules of equal size, rounded up), and every pixel
/// is dark (0) or light (255). The encoding itself is not restated. The side is bounded by
/// [`qr_size_fits`], where the call neither overflows nor exceeds a buffer.
#[verifier::external_body]
fn render_qr_luma(data: &[u8], size: u32) -> (res: Result<LumaImage, String>)
    requires
        qr_size_fits(size),
    ensures
        match res {
            Ok(img) => qr_luma(data@, size) == Ok::<(u32, u32, Seq<u8>), Seq<char>>((img.width, img.height, img.pixels@))
                && img.pixels@.len() == img.width as int * img.height as int
                && img.width == img.height && img.width >= size
                && forall|i: int| 0 <= i < img.pixels@.len() ==> #[trigger] img.pixels@[i] == 0u8 || img.pixels@[i] == 255u8,
            Err(e) => qr_luma(data@, size) == Err::<(u32, u32, Seq<u8>), Seq<char>>(e@),
        },
{
    match qrcode::QrCode::new(data) {
        Ok(code) => {
            let image = code.render::<image::Luma<u8>>().min_dimensions(size, size).quiet_zone(
                true,
            ).build();
            Ok(LumaImage { width: image.width(), height: image.height(), pixels: image.into_raw() })
        },
        Err(error) => Err(error.to_string()),
    }
}

/// Each grey value as an opaque RGBA pixel.
pub open spec fn rgba_of_luma(p: Seq<u8>) -> Seq<u8>
    decreases p.len(),
{
    if p.len() == 0 {
        Seq::empty()
    } else {
        rgba_of_luma(p.drop_last()) + seq![p.last(), p.last(), p.last(), 255u8]
    }
}

/// The RGBA image of grey pixels: pixel `k` is its grey value three times,
/// then an opaque alpha.
proof fn lemma_rgba_pixels(p: Seq<u8>)
    ensures
        rgba_of_luma(p).len() == 4 * p.len(),
        forall|k: int|
            0 <= k < p.len() ==> rgba_of_luma(p)[4 * k] == #[trigger] p[k] && rgba_of_luma(p)[4 * k + 1] == p[k]
                && rgba_of_luma(p)[4 * k + 2] == p[k] && rgba_of_luma(p)[4 * k + 3] == 255u8,
    decreases p.len(),
{
    if p.len() > 0 {
        let q = p.drop_last();
        lemma_rgba_pixels(q);
        let r = rgba_of_luma(p);
        let rq = rgba_of_luma(q);
        assert(r == rq + seq![p.last(), p.last(), p.last(), 255u8]);
        assert forall|k: int| 0 <= k < p.len() implies r[4 * k] == #[trigger] p[k] && r[4 * k + 1] == p[k]
            && r[4 * k + 2] == p[k] && r[4 * k + 3] == 255u8 by {
            if k < q.len() {
                assert(p[k] == q[k]);
                assert(r[4 * k] == rq[4 * k]);
                assert(r[4 * k + 1] == rq[4 * k + 1]);
                assert(r[4 * k + 2] == rq[4 * k + 2]);
                assert(r[4 * k + 3] == rq[4 * k + 3]);
            }
        }
    }
}

/// The RGBA pixels of grey-scale pixels.
pub fn luma_to_rgba(pixels: &[u8]) -> (res: Vec<u8>)
    ensures
        res@ == rgba_of_luma(pixels@),
        res@.len() == 4 * pixels@.len(),
{
    let mut rgba: Vec<u8> = Vec::new();
    let mut i: usize = 0;
    while i < pixels.len()
        invariant
            i <= pixels.len(),
            rgba@ == rgba_of_luma(pixels@.take(i as int)),
            rgba@.len() == 4 * i,
        decreases pixels.len() - i,
    {
        let p = pixels[i];
        rgba.push(p);
        rgba.push(p);
        rgba.push(p);
        rgba.push(255u8);
        i = i + 1;
        assert(pixels@.take(i as int).drop_last() == pixels@.take(i - 1));
    }
    assert(pixels@.take(pixels.len() as int) == pixels@);
    rgba
}

/// The image for `url` (as (width, height, RGBA bytes)), or the error text.
pub open spec fn qr_texture(url: Seq<char>, size: u32) -> Result<(nat, nat, Seq<u8>), Seq<char>> {
    match qr_luma(encode_utf8(url), size) {
        Ok((w, h, p)) => Ok((w as nat, h as nat, rgba_of_luma(p))),
        Err(e) => Err("生成二维码失败："@ + e),
    }
}

/// The QR code of `url`, as a square RGBA image of at least `size` pixels a
/// side, each pixel black or white and opaque.
pub fn build_qr_texture_input(url: &str, size: u32) -> (res: Result<QrImage, LanQrError>)
    requires
        qr_size_fits(size),
    ensures
        match res {
            Ok(img) => qr_texture(url@, size) == Ok::<(nat, nat, Seq<u8>), Seq<char>>(
                (img.width as nat, img.height as nat, img.rgba@),
            )
                && img.rgba@.len() == 4 * img.width * img.height
                && img.width == img.height && img.width >= size
                && forall|k: int|
                    0 <= k < img.width * img.height ==> (#[trigger] img.rgba@[4 * k] == 0u8 || img.rgba@[4 * k] == 255u8)
                        && img.rgba@[4 * k + 1] == img.rgba@[4 * k] && img.rgba@[4 * k + 2] == img.rgba@[4 * k]
                        && img.rgba@[4 * k + 3] == 255u8,
            Err(e) => (qr_texture(url@, size) matches Err(t) && (e matches LanQrError::Message(m)
                && m@ == t)),
        },
{
    let data = utf8_bytes(url);
    match render_qr_luma(data.as_slice(), size) {
        Ok(img) => {
            let rgba = luma_to_rgba(img.pixels.as_slice());
            proof {
                lemma_rgba_pixels(img.pixels@);
                assert(img.pixels@.len() * 4 == 4 * (img.width as int * img.height as int));
                assert(4 * (img.width as int * img.height as int) == 4 * (img.width as int)
                    * (img.height as int)) by (nonlinear_arith);
                assert forall|k: int| 0 <= k < img.width as int * img.height as int implies (#[trigger] rgba@[4 * k]
                    == 0u8 || rgba@[4 * k] == 255u8) && rgba@[4 * k + 1] == rgba@[4 * k] && rgba@[4 * k + 2]
                    == rgba@[4 * k] && rgba@[4 * k + 3] == 255u8 by {
                    assert(img.pixels@[k] == 0u8 || img.pixels@[k] == 255u8);
                }
            }
            Ok(QrImage { width: img.width as usize, height: img.height as usize, rgba })
        },
        Err(text) => {
            let mut message = String::from_str("生成二维码失败：");
            message.append(text.as_str());
            Err(LanQrError::Message(message))
        },
    }
}

} // verus!
