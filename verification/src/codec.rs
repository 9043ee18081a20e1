//! Base64 for the payload, PNG/JPEG for the images.
use base64::engine::general_purpose;
use base64::Engine;
use image::{ImageOutputFormat, RgbaImage};
use vstd::prelude::*;

use crate::raster::{Raster, RasterModel};

verus! {

/// The character of the standard Base64 alphabet for the 6-bit value `v`.
pub open spec fn base64_char(v: int) -> u8 {
    if v < 26 {
        (65 + v) as u8
    } else if v < 52 {
        (97 + v - 26) as u8
    } else if v < 62 {
        (48 + v - 52) as u8
    } else if v == 62 {
        43u8
    } else {
        47u8
    }
}

/// Standard Base64 (RFC 4648, alphabet `A-Z a-z 0-9 + /`, padded with `=`).
pub open spec fn base64_standard(s: Seq<u8>) -> Seq<u8>
    decreases s.len(),
{
    if s.len() == 0 {
        seq![]
    } else if s.len() == 1 {
        let a = s[0] as int;
        seq![base64_char(a / 4), base64_char((a % 4) * 16), 61u8, 61u8]
    } else if s.len() == 2 {
        let a = s[0] as int;
        let b = s[1] as int;
        seq![base64_char(a / 4), base64_char((a % 4) * 16 + b / 16), base64_char((b % 16) * 4), 61u8]
    } else {
        let a = s[0] as int;
        let b = s[1] as int;
        let c = s[2] as int;
        seq![
            base64_char(a / 4),
            base64_char((a % 4) * 16 + b / 16),
            base64_char((b % 16) * 4 + c / 64),
            base64_char(c % 64),
        ] + base64_standard(s.skip(3))
    }
}

/// What the standard Base64 engine of the `base64` crate makes of `text`:
/// the decoded bytes, or the text of the error it reports.
pub uninterp spec fn base64_decoding(text: Seq<u8>) -> Result<Seq<u8>, Seq<char>>;

/// `base64::engine::general_purpose::STANDARD.encode`. Claimed: the result is
/// standard padded Base64 of `bytes`, and the same engine decodes it back to `bytes`.
#[verifier::external_body]
fn base64_encode_standard(bytes: &[u8]) -> (r: Vec<u8>)
    ensures
        r@ == base64_standard(bytes@),
        base64_decoding(r@) is Ok && base64_decoding(r@)->Ok_0 == bytes@,
{
    general_purpose::STANDARD.encode(bytes).into_bytes()
}

/// `base64::engine::general_purpose::STANDARD.decode`. Claimed: the result,
/// the bytes or the error's text (`DecodeError`'s `Display`), is the named
/// `base64_decoding` of `text`.
#[verifier::external_body]
fn base64_decode_standard(text: &[u8]) -> (r: Result<Vec<u8>, String>)
    ensures
        r is Ok <==> base64_decoding(text@) is Ok,
        r matches Ok(v) ==> (base64_decoding(text@) matches Ok(d) && d == v@),
        r matches Err(e) ==> (base64_decoding(text@) matches Err(m) && m == e@),
{
    match general_purpose::STANDARD.decode(text) {
        Ok(v) => Ok(v),
        Err(e) => Err(e.to_string()),
    }
}

/// The Base64 text of `bytes`, as the payload is stored.
pub fn base64_encode(bytes: &[u8]) -> (r: Vec<u8>)
    ensures
        r@ == base64_standard(bytes@),
        base64_decoding(r@) is Ok && base64_decoding(r@)->Ok_0 == bytes@,
{
    base64_encode_standard(bytes)
}

/// The bytes that the Base64 text `text` stands for, or the decoder's message.
pub fn base64_decode(text: &[u8]) -> (r: Result<Vec<u8>, String>)
    ensures
        r is Ok <==> base64_decoding(text@) is Ok,
        r matches Ok(v) ==> (base64_decoding(text@) matches Ok(d) && d == v@),
        r matches Err(e) ==> (base64_decoding(text@) matches Err(m) && m == e@),
{
    base64_decode_standard(text)
}

/// The eight-byte signature that starts every PNG file.
pub open spec fn has_png_signature(bytes: Seq<u8>) -> bool {
    &&& bytes.len() >= 8
    &&& bytes[0] == 137u8
    &&& bytes[1] == 80u8
    &&& bytes[2] == 78u8
    &&& bytes[3] == 71u8
    &&& bytes[4] == 13u8
    &&& bytes[5] == 10u8
    &&& bytes[6] == 26u8
    &&& bytes[7] == 10u8
}

/// What `image::load_from_memory` followed by `to_rgba8` makes of `bytes`:
/// the width, height and RGBA bytes, or the text of the error it reports.
/// Failures, the width and height of every decoded image (read from the
/// file's header), and the pixels of PNG files are functions of the bytes
/// alone. The pixels of another format (JPEG) are not: `jpeg-decoder` chooses
/// its IDCT and color conversion by the processor's features at run time, and
/// they may round differently, so no claim ties such pixels to this name.
pub uninterp spec fn image_decoding(bytes: Seq<u8>) -> Result<(u32, u32, Seq<u8>), Seq<char>>;

/// `image::load_from_memory` and `DynamicImage::to_rgba8`. Claimed: it fails
/// exactly where `image_decoding` is an error, with that error's text; a
/// decoded image has the width and height of `image_decoding`; for a file that
/// starts with the PNG signature (which `load_from_memory` decodes as PNG) the
/// pixels are those of `image_decoding` too; and a decoded image has exactly
/// four bytes per pixel (`to_rgba8` allocates the buffer for its size). Which
/// pixels a decoded JPEG has is not described.
#[verifier::external_body]
fn load_rgba(bytes: &[u8]) -> (r: Result<(u32, u32, Vec<u8>), String>)
    ensures
        r is Err <==> image_decoding(bytes@) is Err,
        r matches Err(e) ==> (image_decoding(bytes@) matches Err(m) && m == e@),
        r matches Ok(t) ==> t.2@.len() == t.0 as int * t.1 as int * 4,
        r matches Ok(t) ==> (image_decoding(bytes@) matches Ok(d) && d.0 == t.0 && d.1 == t.1),
        r matches Ok(t) ==> (has_png_signature(bytes@) ==> (image_decoding(bytes@) matches Ok(d) && d == (t.0, t.1, t.2@))),
{
    match image::load_from_memory(bytes) {
        Ok(img) => {
            let rgba = img.to_rgba8();
            let (w, h) = rgba.dimensions();
            Ok((w, h, rgba.into_raw()))
        },
        Err(e) => Err(e.to_string()),
    }
}

/// Decodes an image file (PNG or JPEG) into an RGBA raster, or gives the
/// decoder's message. The image has the width and height that
/// `image_decoding` gives; a PNG file decodes to `image_decoding` of its bytes.
pub fn decode_image(bytes: &[u8]) -> (r: Result<Raster, String>)
    ensures
        r is Err <==> image_decoding(bytes@) is Err,
        r matches Err(e) ==> (image_decoding(bytes@) matches Err(m) && m == e@),
        r matches Ok(img) ==> (image_decoding(bytes@) matches Ok(d) && d.0 == img@.width && d.1 == img@.height),
        r matches Ok(img) ==> (has_png_signature(bytes@) ==> (image_decoding(bytes@) matches Ok(d) && d == (img@.width, img@.height, img@.data))),
{
    match load_rgba(bytes) {
        Ok((w, h, data)) => {
            let ghost d = data@;
            match Raster::from_raw(w, h, data) {
                Some(img) => Ok(img),
                None => {
                    assert(false);
                    Err(String::new())
                },
            }
        },
        Err(e) => Err(e),
    }
}

/// The PNG file that `image` writes for an RGBA image of the given size and
/// bytes.
pub uninterp spec fn png_encoding(width: u32, height: u32, data: Seq<u8>) -> Seq<u8>;

/// The largest image, in bytes, that is claimed to read back from its PNG
/// file: `load_from_memory` reserves the decoded image's bytes against a
/// 512 MiB budget (`Limits::default`), and the `png` decoder's own 512 MiB
/// budget holds only a row buffer (the header chunks fit its preallocated
/// buffer), which is no larger than the image.
pub open spec fn png_read_back_limit() -> int {
    0x2000_0000
}

/// `RgbaImage::from_raw` and `write_to` with `ImageOutputFormat::Png`.
/// Claimed: it succeeds exactly when the width and height are non-zero (the
/// `png` encoder refuses a zero dimension, and writing to a vector cannot
/// fail), giving `png_encoding`; the file starts with the PNG signature; and,
/// PNG being lossless, `load_from_memory` reads it back as the same RGBA image
/// when it is within `png_read_back_limit`. The error text is not described.
#[verifier::external_body]
fn write_png(width: u32, height: u32, data: Vec<u8>) -> (r: Result<Vec<u8>, String>)
    requires
        data@.len() == width as int * height as int * 4,
    ensures
        r is Ok <==> !(width == 0 || height == 0),
        r matches Ok(v) ==> v@ == png_encoding(width, height, data@),
        r matches Ok(v) ==> has_png_signature(v@),
        r matches Ok(v) ==> (data@.len() <= png_read_back_limit() ==> (image_decoding(v@) matches Ok(d) && d == (width, height, data@))),
{
    match RgbaImage::from_raw(width, height, data) {
        Some(img) => {
            let mut out: Vec<u8> = Vec::new();
            match img.write_to(&mut std::io::Cursor::new(&mut out), ImageOutputFormat::Png) {
                Ok(()) => Ok(out),
                Err(e) => Err(e.to_string()),
            }
        },
        None => Err(String::new()),
    }
}

/// The PNG file of `img`; it fails (with the encoder's message) only for an
/// image without pixels. Decoding the file gives `img` back when it is within
/// `png_read_back_limit`.
pub fn rgba_png_bytes(img: &Raster) -> (r: Result<Vec<u8>, String>)
    ensures
        r is Ok <==> img@.width > 0 && img@.height > 0,
        r matches Ok(v) ==> v@ == png_encoding(img@.width, img@.height, img@.data),
        r matches Ok(v) ==> has_png_signature(v@),
        r matches Ok(v) ==> (img@.data.len() <= png_read_back_limit() ==> (image_decoding(v@) matches Ok(d) && d == (img@.width, img@.height, img@.data))),
{
    let src: &Vec<u8> = img.as_raw();
    let mut data: Vec<u8> = Vec::new();
    let mut i: usize = 0;
    while i < src.len()
        invariant
            i <= src@.len(),
            data@ == src@.take(i as int),
        decreases src@.len() - i,
    {
        data.push(src[i]);
        i = i + 1;
        assert(data@ =~= src@.take(i as int));
    }
    assert(src@.take(src@.len() as int) =~= src@);
    write_png(img.width(), img.height(), data)
}

} // verus!
