//! Cloaking an archive into two image fragments, and decloaking it again.
use vstd::prelude::*;
use vstd::string::StringSliceAdditionalSpecFns;

use crate::codec::{base64_decode, base64_decoding, image_decoding};
use crate::composite::{
    build_composite_image, composite_channel, composite_model, lemma_channels_model, is_split_of, reconstruct_composite_image,
    side_by_side_channel, side_by_side_model, split_and_save_fragments, law_reconstruct_undoes_split,
};
use crate::header::{
    build_header, compact_timestamp, header_spec, lemma_header_len, parse_and_validate_header,
    parse_header_spec, timestamp_compactable, HeaderModel,
};
use crate::arith::lemma_index_in_bounds;
use crate::raster::{Raster, RasterModel};
use crate::seed::{compute_anchor_seed_and_shuffle, image_seed_text, indices_without, seed_hash, seeded_shuffle};
use crate::stego::{
    bit_slot, distinct_prefix, embed_bits_lsb, embed_stream, extract_bits_lsb, extracted_payload,
    extracted_stream, law_embedding_changes_only_low_bits, law_extract_recovers_embedded, lemma_embed_len, lemma_embed_other,
    order_in_range, pixels_for_bits,
};
use crate::header::{law_header_roundtrip, note_text};
use crate::text::{all_ascii_digits, trim_chars};
use vstd::utf8::encode_utf8;

verus! {

/// The order in which the pixels of `m` are visited, given its anchor pixel.
pub open spec fn visiting_order(m: RasterModel, anchor: int) -> Seq<usize> {
    seeded_shuffle(indices_without(m.pixel_count(), anchor), seed_hash(image_seed_text(m, anchor)))
}

/// `m` with the stream `data` hidden along `order`.
pub open spec fn hide_stream(m: RasterModel, data: Seq<u8>, order: Seq<usize>) -> RasterModel {
    RasterModel { data: embed_stream(m.data, data, order, data.len() * 8), ..m }
}

/// Hides `payload` (the Base64 text of the archive) with its header in the
/// composite of `base_image` and its gray levels `gray`, at the pixels visited
/// from anchor `anchor_index`, and splits the result into the color and the
/// grayscale fragment. Fails when the composite has too few pixels.
pub fn cloak_zip_to_images(
    base_image: &Raster,
    gray: &[u8],
    anchor_index: usize,
    iso_timestamp: &str,
    zip_filename: &str,
    payload: &[u8],
    author_note: &str,
) -> (r: Result<(Raster, Raster), String>)
    requires
        gray@.len() == base_image@.pixel_count(),
        base_image@.width as int * 2 <= u32::MAX,
        base_image@.width as int * 2 * base_image@.height as int * 4 <= usize::MAX,
        anchor_index < base_image@.width as int * 2 * base_image@.height as int,
        timestamp_compactable(iso_timestamp.spec_bytes()),
        (400 + payload@.len()) * 8 + 3 <= usize::MAX,
    ensures
        ({
            let c = composite_model(base_image@, gray@);
            let data = header_spec(
                compact_timestamp(iso_timestamp.spec_bytes()),
                author_note@,
                zip_filename@,
                payload@.len(),
            ) + payload@;
            &&& pixels_for_bits(data.len() * 8) > c.pixel_count() - 1 ==> (r matches Err(e) && e@
                == "Not enough shuffled pixels to embed data."@)
            &&& pixels_for_bits(data.len() * 8) <= c.pixel_count() - 1 ==> (r matches Ok(f)
                && is_split_of(
                hide_stream(c, data, visiting_order(c, anchor_index as int)),
                f.0@,
                f.1@,
            ))
        }),
{
    let header: Vec<u8> = build_header(iso_timestamp, author_note, zip_filename, payload);
    proof {
        lemma_header_len(
            compact_timestamp(iso_timestamp.spec_bytes()),
            author_note@,
            zip_filename@,
            payload@.len(),
        );
    }
    let mut composite: Raster = build_composite_image(base_image, gray);
    let (_anchor, shuffled, _seed_string) = compute_anchor_seed_and_shuffle(&composite, anchor_index);
    match embed_bits_lsb(&mut composite, header.as_slice(), payload, shuffled.as_slice()) {
        Ok(()) => {},
        Err(e) => {
            return Err(e);
        },
    }
    assert(header@ + payload@ == header@ + payload@);
    Ok(split_and_save_fragments(&composite))
}

/// What decloaking recovers.
pub struct Decloaked {
    pub timestamp: String,
    pub author_note: String,
    pub filename: String,
    pub zip: Vec<u8>,
}

/// Why decloaking stopped.
pub enum DecloakError {
    /// The two fragments differ in size: width and height of each.
    SizeMismatch(u32, u32, u32, u32),
    /// The hidden header was rejected, with the reason.
    Header(String),
    /// The hidden payload is not valid Base64, with the decoder's message.
    Base64(String),
}

/// What decloaking gives, in spec terms.
pub enum DecloakModel {
    Recovered { header: HeaderModel, zip: Seq<u8> },
    HeaderRejected { message: Seq<char> },
    PayloadRejected { message: Seq<char> },
}

/// The header hidden in `c` along `order`.
pub open spec fn hidden_header(c: RasterModel, order: Seq<usize>) -> Seq<u8> {
    extracted_stream(c.data, order, 400)
}

/// Reading the header hidden in `c` along `order`, then the payload it announces.
pub open spec fn decloak_model(c: RasterModel, order: Seq<usize>) -> DecloakModel {
    match parse_header_spec(hidden_header(c, order)) {
        Err(m) => DecloakModel::HeaderRejected { message: m },
        Ok(h) => match base64_decoding(extracted_payload(c.data, order, h.payload_size)) {
            Err(m) => DecloakModel::PayloadRejected { message: m },
            Ok(z) => DecloakModel::Recovered { header: h, zip: z },
        },
    }
}

/// There are pixels for the header, and for the payload a valid header announces.
pub open spec fn decloak_fits(c: RasterModel, order: Seq<usize>) -> bool {
    &&& 800 <= order.len()
    &&& order_in_range(order, 800, c.pixel_count())
    &&& parse_header_spec(hidden_header(c, order)) matches Ok(h) ==> {
        &&& (400 + h.payload_size) * 8 <= usize::MAX
        &&& 2 * (400 + h.payload_size) <= order.len()
        &&& order_in_range(order, 2 * (400 + h.payload_size) as int, c.pixel_count())
    }
}

/// The decloaking result `r` is what `m` describes.
pub open spec fn decloak_result_is(r: Result<Decloaked, DecloakError>, m: DecloakModel) -> bool {
    match m {
        DecloakModel::Recovered { header, zip } => r matches Ok(d) && d.timestamp@ == header.timestamp
            && d.author_note@ == header.author_note && d.filename@ == header.filename
            && d.zip@ == zip,
        DecloakModel::HeaderRejected { message } => r matches Err(DecloakError::Header(e)) && e@
            == message,
        DecloakModel::PayloadRejected { message } => r matches Err(DecloakError::Base64(e)) && e@
            == message,
    }
}

/// Reads the header hidden in `composite` along `shuffled_indices`, then the
/// Base64 payload it announces, and decodes it.
pub fn decloak_with_order(composite: &Raster, shuffled_indices: &[usize]) -> (r: Result<
    Decloaked,
    DecloakError,
>)
    requires
        decloak_fits(composite@, shuffled_indices@),
    ensures
        decloak_result_is(r, decloak_model(composite@, shuffled_indices@)),
{
    let header_bits: Vec<u8> = extract_bits_lsb(composite, 400, shuffled_indices);
    let fields = match parse_and_validate_header(header_bits.as_slice()) {
        Ok(f) => f,
        Err(e) => {
            return Err(DecloakError::Header(e));
        },
    };
    let total_bytes_needed: usize = 400 + fields.payload_size;
    let full_stream: Vec<u8> = extract_bits_lsb(composite, total_bytes_needed, shuffled_indices);
    let base64_payload: &[u8] = &full_stream.as_slice()[400..total_bytes_needed];
    assert(base64_payload@ =~= extracted_payload(
        composite@.data,
        shuffled_indices@,
        fields.payload_size as nat,
    ));
    match base64_decode(base64_payload) {
        Ok(zip) => Ok(
            Decloaked {
                timestamp: fields.timestamp,
                author_note: fields.author_note,
                filename: fields.filename,
                zip,
            },
        ),
        Err(e) => Err(DecloakError::Base64(e)),
    }
}

/// Decloaks the color fragment `img1` and the grayscale fragment `img2`:
/// puts them side by side, visits the pixels from anchor `anchor_index`, and
/// reads the header and the payload. Gives `None` where the two fragments
/// are too large to be put side by side, the anchor lies outside the
/// composite, or the composite has too few pixels for the header or for
/// the payload the header announces.
pub fn decloak(img1: &Raster, img2: &Raster, anchor_index: usize) -> (r: Option<
    Result<Decloaked, DecloakError>,
>)
    ensures
        img1@.width != img2@.width || img1@.height != img2@.height ==> (r matches Some(
            Err(DecloakError::SizeMismatch(w1, h1, w2, h2)),
        ) && w1 == img1@.width && h1 == img1@.height && w2 == img2@.width && h2 == img2@.height),
        img1@.width == img2@.width && img1@.height == img2@.height ==> ({
            let c = side_by_side_model(img1@, img2@);
            let fits = img1@.width as int * 2 <= u32::MAX && img1@.width as int * 2
                * img1@.height as int * 4 <= usize::MAX && anchor_index < c.pixel_count()
                && decloak_fits(c, visiting_order(c, anchor_index as int));
            &&& r is None <==> !fits
            &&& r matches Some(res) ==> decloak_result_is(
                res,
                decloak_model(c, visiting_order(c, anchor_index as int)),
            )
        }),
{
    let (w1, h1) = img1.dimensions();
    let (w2, h2) = img2.dimensions();
    if w1 != w2 || h1 != h2 {
        return Some(Err(DecloakError::SizeMismatch(w1, h1, w2, h2)));
    }
    if (w1 as u64) * 2 > u32::MAX as u64 {
        return None;
    }
    let cw: u32 = w1 * 2;
    let pixels: Option<usize> = (cw as usize).checked_mul(h1 as usize);
    let total_pixels: usize = match pixels {
        Some(p) => p,
        None => {
            return None;
        },
    };
    if total_pixels > usize::MAX / 4 {
        return None;
    }
    if anchor_index >= total_pixels {
        return None;
    }
    let composite: Raster = reconstruct_composite_image(img1, img2);
    let (_anchor, shuffled, _seed_string) = compute_anchor_seed_and_shuffle(&composite, anchor_index);
    let ghost c = composite@;
    assert(order_in_range(shuffled@, shuffled@.len() as int, c.pixel_count()));
    if shuffled.len() < 800 {
        return None;
    }
    let header_bits: Vec<u8> = extract_bits_lsb(&composite, 400, shuffled.as_slice());
    match parse_and_validate_header(header_bits.as_slice()) {
        Ok(fields) => {
            let ps: usize = fields.payload_size;
            if ps > usize::MAX / 8 - 400 || 2 * (400 + ps) > shuffled.len() {
                return None;
            }
        },
        Err(_) => {},
    }
    Some(decloak_with_order(&composite, shuffled.as_slice()))
}

/// What is hidden: the header for `payload` followed by `payload`.
pub open spec fn cloak_stream(ts: Seq<u8>, note: Seq<char>, filename: Seq<char>, payload: Seq<u8>) -> Seq<u8> {
    header_spec(ts, note, filename, payload.len()) + payload
}

/// Decloaking what cloaking hid recovers it. Hide the header and the Base64
/// `payload` of `zip` in composite `c` along the pixel order computed from
/// anchor `anchor`; then the order computed again from the result is the
/// same, the pixels suffice, and reading back gives the timestamp, the stored
/// note, the file name, the payload length and `zip` itself. This holds when
/// the timestamp is 14 digits, the note and the file name fit in their
/// fields, the file name is not only whitespace (it is read back trimmed),
/// and the composite has enough pixels.
pub proof fn law_decloak_recovers_cloaked(
    c: RasterModel,
    anchor: int,
    ts: Seq<u8>,
    note: Seq<char>,
    filename: Seq<char>,
    payload: Seq<u8>,
    zip: Seq<u8>,
    order: Seq<usize>,
)
    requires
        c.wf(),
        0 <= anchor < c.pixel_count(),
        order == visiting_order(c, anchor),
        order.len() == c.pixel_count() - 1,
        order.no_duplicates(),
        forall|p: int| 0 <= p < order.len() ==> #[trigger] order[p] < c.pixel_count() && order[p] != anchor,
        ts.len() == 14,
        all_ascii_digits(ts),
        encode_utf8(note_text(note)).len() <= 100,
        encode_utf8(filename).len() <= 100,
        trim_chars(filename).len() > 0,
        payload.len() > 0,
        (400 + payload.len()) * 8 <= usize::MAX,
        base64_decoding(payload) is Ok && base64_decoding(payload)->Ok_0 == zip,
        pixels_for_bits(cloak_stream(ts, note, filename, payload).len() * 8) <= c.pixel_count() - 1,
    ensures
        ({
            let c2 = hide_stream(c, cloak_stream(ts, note, filename, payload), order);
            &&& c2.wf()
            &&& visiting_order(c2, anchor) == order
            &&& decloak_fits(c2, order)
            &&& decloak_model(c2, order) == (DecloakModel::Recovered {
                header: HeaderModel {
                    timestamp: ts.map_values(|b: u8| b as char),
                    author_note: note_text(note),
                    filename: trim_chars(filename),
                    payload_size: payload.len(),
                },
                zip: zip,
            })
        }),
{
    let data = cloak_stream(ts, note, filename, payload);
    let header = header_spec(ts, note, filename, payload.len());
    lemma_header_len(ts, note, filename, payload.len());
    let n = data.len() * 8;
    let npix = pixels_for_bits(n) as int;
    let pc = c.pixel_count();
    assert(npix == 800 + 2 * payload.len());
    assert forall|k: int| 0 <= k < n implies 0 <= #[trigger] bit_slot(order, k) < c.data.len() by {
        assert(order[k / 4] < pc);
    }
    lemma_embed_len(c.data, data, order, n);
    let c2 = hide_stream(c, data, order);
    // the anchor pixel, and with it the pixel order, is left as it was
    assert forall|j: int| 0 <= j < 4 implies #[trigger] c2.data[anchor * 4 + j] == c.data[anchor * 4 + j] by {
        assert forall|k: int| 0 <= k < n implies #[trigger] bit_slot(order, k) != anchor * 4 + j by {
            assert(order[k / 4] != anchor);
        }
        lemma_embed_other(c.data, data, order, n, anchor * 4 + j);
    }
    assert(c2.data[anchor * 4 + 0] == c.data[anchor * 4 + 0]);
    assert(c2.data[anchor * 4 + 1] == c.data[anchor * 4 + 1]);
    assert(c2.data[anchor * 4 + 2] == c.data[anchor * 4 + 2]);
    assert(c2.data[anchor * 4 + 3] == c.data[anchor * 4 + 3]);
    assert(anchor * 4 + 0 == anchor * 4);
    assert(image_seed_text(c2, anchor) == image_seed_text(c, anchor));
    // the stream reads back
    assert(order_in_range(order, npix, pc));
    assert(distinct_prefix(order, npix));
    law_extract_recovers_embedded(c, data, order);
    let e = c2.data;
    assert(hidden_header(c2, order) =~= header) by {
        assert forall|j: int| 0 <= j < 400 implies #[trigger] hidden_header(c2, order)[j] == header[j] by {
            assert(extracted_stream(e, order, data.len())[j] == data[j]);
        }
    }
    assert(extracted_payload(e, order, payload.len()) =~= payload) by {
        assert forall|j: int| 0 <= j < payload.len() implies #[trigger] extracted_payload(
            e,
            order,
            payload.len(),
        )[j] == payload[j] by {
            assert(extracted_stream(e, order, data.len())[400 + j] == data[400 + j]);
        }
    }
    law_header_roundtrip(ts, note, filename, payload.len());
    assert(order_in_range(order, 800, pc));
    assert(order_in_range(order, 2 * (400 + payload.len()) as int, pc));
}

/// Cloaking changes what the fragments show only in the least significant
/// bit of each channel: hide any stream in the composite of a cover image and
/// its gray levels and split the result; then, above that bit, the color
/// fragment is the cover image, and the grayscale fragment holds the gray
/// level in its color channels and the cover's alpha.
#[verifier::spinoff_prover]
pub proof fn law_fragments_match_cover_above_low_bits(
    base: RasterModel,
    gray: Seq<u8>,
    data: Seq<u8>,
    order: Seq<usize>,
    left: RasterModel,
    right: RasterModel,
)
    requires
        base.wf(),
        gray.len() == base.pixel_count(),
        base.width as int * 2 <= u32::MAX,
        pixels_for_bits(data.len() * 8) <= order.len(),
        order_in_range(
            order,
            pixels_for_bits(data.len() * 8) as int,
            composite_model(base, gray).pixel_count(),
        ),
        is_split_of(hide_stream(composite_model(base, gray), data, order), left, right),
    ensures
        left.width == base.width,
        left.height == base.height,
        right.width == base.width,
        right.height == base.height,
        forall|x: int, y: int, k: int|
            0 <= x < base.width && 0 <= y < base.height && 0 <= k < 4 ==> {
                &&& #[trigger] left.channel(x, y, k) & 0xFEu8 == base.channel(x, y, k) & 0xFEu8
                &&& right.channel(x, y, k) & 0xFEu8 == (if k < 3 {
                    gray[y * base.width + x]
                } else {
                    base.channel(x, y, 3)
                }) & 0xFEu8
            },
{
    let c = composite_model(base, gray);
    let w = base.width as int;
    let cw = c.width as int;
    lemma_channels_model(
        (base.width * 2) as u32,
        base.height,
        |x: int, y: int, k: int| composite_channel(base, gray, x, y, k),
    );
    law_embedding_changes_only_low_bits(c, data, order);
    let c2 = hide_stream(c, data, order);
    assert(cw == 2 * w);
    assert forall|x: int, y: int, k: int|
        0 <= x < base.width && 0 <= y < base.height && 0 <= k < 4 implies {
            &&& #[trigger] left.channel(x, y, k) & 0xFEu8 == base.channel(x, y, k) & 0xFEu8
            &&& right.channel(x, y, k) & 0xFEu8 == (if k < 3 {
                gray[y * base.width + x]
            } else {
                base.channel(x, y, 3)
            }) & 0xFEu8
        } by {
        lemma_index_in_bounds(x, y, cw, base.height as int);
        lemma_index_in_bounds(x + w, y, cw, base.height as int);
        let q1 = (y * cw + x) * 4 + k;
        let q2 = (y * cw + (x + w)) * 4 + k;
        assert(c2.channel(x, y, k) == c2.data[q1]);
        assert(c2.channel(x + w, y, k) == c2.data[q2]);
        assert(c2.data[q1] & 0xFEu8 == c.data[q1] & 0xFEu8);
        assert(c2.data[q2] & 0xFEu8 == c.data[q2] & 0xFEu8);
        assert(c.channel(x, y, k) == composite_channel(base, gray, x, y, k));
        assert(c.channel(x + w, y, k) == composite_channel(base, gray, x + w, y, k));
        assert(left.channel(x, y, k) == c2.channel(x, y, k));
        assert(right.channel(x, y, k) == c2.channel(x + w, y, k));
    }
}

/// The whole round trip: cloak, write both fragments as PNG files, read them
/// back, decloak. Hide the header and the Base64 `payload` of `zip` in the
/// composite of the cover `base` and its gray levels `gray`, along the pixel
/// order from anchor `anchor`, and split it into the color fragment `left` and
/// the grayscale fragment `right`. Let `png1` and `png2` be files that decode
/// to these fragments (as `rgba_png_bytes` promises of the files it writes),
/// and `img1`, `img2` the images read from them (as `decode_image` gives them
/// for PNG files). Then the two images have the same size, putting them side
/// by side gives the cloaked composite back, the pixel order computed from the
/// same anchor is the same, the pixels suffice, and decloaking recovers the
/// timestamp, the stored note, the trimmed file name, the payload length and
/// `zip`. The conditions on the stream are those of `law_decloak_recovers_cloaked`.
pub proof fn law_png_fragments_decloak_to_archive(
    base: RasterModel,
    gray: Seq<u8>,
    anchor: int,
    ts: Seq<u8>,
    note: Seq<char>,
    filename: Seq<char>,
    payload: Seq<u8>,
    zip: Seq<u8>,
    order: Seq<usize>,
    left: RasterModel,
    right: RasterModel,
    png1: Seq<u8>,
    png2: Seq<u8>,
    img1: RasterModel,
    img2: RasterModel,
)
    requires
        base.wf(),
        gray.len() == base.pixel_count(),
        base.width as int * 2 <= u32::MAX,
        0 <= anchor < composite_model(base, gray).pixel_count(),
        order == visiting_order(composite_model(base, gray), anchor),
        order.len() == composite_model(base, gray).pixel_count() - 1,
        order.no_duplicates(),
        forall|p: int|
            0 <= p < order.len() ==> #[trigger] order[p] < composite_model(base, gray).pixel_count()
                && order[p] != anchor,
        ts.len() == 14,
        all_ascii_digits(ts),
        encode_utf8(note_text(note)).len() <= 100,
        encode_utf8(filename).len() <= 100,
        trim_chars(filename).len() > 0,
        payload.len() > 0,
        (400 + payload.len()) * 8 <= usize::MAX,
        base64_decoding(payload) is Ok && base64_decoding(payload)->Ok_0 == zip,
        pixels_for_bits(cloak_stream(ts, note, filename, payload).len() * 8) <= composite_model(
            base,
            gray,
        ).pixel_count() - 1,
        is_split_of(
            hide_stream(composite_model(base, gray), cloak_stream(ts, note, filename, payload), order),
            left,
            right,
        ),
        image_decoding(png1) matches Ok(d) && d == (left.width, left.height, left.data),
        image_decoding(png2) matches Ok(d) && d == (right.width, right.height, right.data),
        image_decoding(png1) matches Ok(d) && d == (img1.width, img1.height, img1.data),
        image_decoding(png2) matches Ok(d) && d == (img2.width, img2.height, img2.data),
    ensures
        img1.width == img2.width,
        img1.height == img2.height,
        side_by_side_model(img1, img2) == hide_stream(
            composite_model(base, gray),
            cloak_stream(ts, note, filename, payload),
            order,
        ),
        visiting_order(side_by_side_model(img1, img2), anchor) == order,
        decloak_fits(side_by_side_model(img1, img2), order),
        decloak_model(side_by_side_model(img1, img2), order) == (DecloakModel::Recovered {
            header: HeaderModel {
                timestamp: ts.map_values(|b: u8| b as char),
                author_note: note_text(note),
                filename: trim_chars(filename),
                payload_size: payload.len(),
            },
            zip: zip,
        }),
{
    let c = composite_model(base, gray);
    lemma_channels_model(
        (base.width * 2) as u32,
        base.height,
        |x: int, y: int, k: int| composite_channel(base, gray, x, y, k),
    );
    law_decloak_recovers_cloaked(c, anchor, ts, note, filename, payload, zip, order);
    let c2 = hide_stream(c, cloak_stream(ts, note, filename, payload), order);
    assert(img1 == left);
    assert(img2 == right);
    let out = side_by_side_model(left, right);
    lemma_channels_model(
        (left.width * 2) as u32,
        left.height,
        |x: int, y: int, k: int| side_by_side_channel(left, right, x, y, k),
    );
    assert(c2.width % 2 == 0);
    law_reconstruct_undoes_split(c2, left, right, out);
}

} // verus!
