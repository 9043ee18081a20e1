//! Hiding a byte stream in the least significant bits of an image's channels,
//! four bits per pixel, at pixels visited in a given order, and reading it back.
use vstd::prelude::*;

use crate::raster::{Raster, RasterModel};
use vstd::arithmetic::div_mod::lemma_fundamental_div_mod;

verus! {

/// Bit `k` of a byte stream, least significant bit of each byte first.
pub open spec fn stream_bit(data: Seq<u8>, k: int) -> u8 {
    (data[k / 8] >> ((k % 8) as u8)) & 1u8
}

/// Where bit `k` of the stream is hidden: channel `k % 4` of the `k / 4`-th
/// pixel of the visiting order `order`, as a position in the channel bytes.
pub open spec fn bit_slot(order: Seq<usize>, k: int) -> int {
    order[k / 4] * 4 + k % 4
}

/// The number of pixels needed to hide `nbits` bits, four per pixel.
pub open spec fn pixels_for_bits(nbits: nat) -> nat {
    (nbits + 3) / 4
}

/// The channel bytes after hiding the first `n` bits of `data`: each bit
/// replaces the least significant bit of its slot, in stream order.
pub open spec fn embed_stream(img: Seq<u8>, data: Seq<u8>, order: Seq<usize>, n: nat) -> Seq<u8>
    decreases n,
{
    if n == 0 {
        img
    } else {
        let prev = embed_stream(img, data, order, (n - 1) as nat);
        let s = bit_slot(order, n - 1);
        prev.update(s, (prev[s] & 0xFEu8) | stream_bit(data, n - 1))
    }
}

/// The least significant bit at the slot of stream bit `k`.
pub open spec fn slot_lsb(img: Seq<u8>, order: Seq<usize>, k: int) -> u8 {
    img[bit_slot(order, k)] & 1u8
}

/// The byte assembled from the least significant bits at the slots of the
/// stream bits `base .. base + n`, the first of them as the lowest bit.
pub open spec fn gather_bits(img: Seq<u8>, order: Seq<usize>, base: int, n: nat) -> u8
    decreases n,
{
    if n == 0 {
        0u8
    } else {
        gather_bits(img, order, base, (n - 1) as nat) | (slot_lsb(img, order, base + n - 1) << ((
        n - 1) as u8))
    }
}

/// Byte `j` of the stream hidden in `img`.
pub open spec fn extracted_byte(img: Seq<u8>, order: Seq<usize>, j: int) -> u8 {
    gather_bits(img, order, j * 8, 8)
}

/// The first `n` bytes of the stream hidden in `img`.
pub open spec fn extracted_stream(img: Seq<u8>, order: Seq<usize>, n: nat) -> Seq<u8> {
    Seq::new(n, |j: int| extracted_byte(img, order, j))
}

/// The first `npix` entries of `order` are pixels of an image with `count` pixels.
pub open spec fn order_in_range(order: Seq<usize>, npix: int, count: int) -> bool {
    forall|p: int| 0 <= p < npix ==> #[trigger] order[p] < count
}

/// The pixel `order[p]` for `lo <= p < hi` are pixels of an image with `count` pixels.
pub open spec fn order_range_in_bounds(order: Seq<usize>, lo: int, hi: int, count: int) -> bool {
    forall|p: int| lo <= p < hi ==> #[trigger] order[p] < count
}

/// Hides `header` followed by `payload` in the least significant bits of
/// `img`, four bits per pixel, at the pixels `shuffled_indices` in that order.
/// Fails, leaving `img` as it was, when there are fewer indices than pixels needed.
pub fn embed_bits_lsb(
    img: &mut Raster,
    header: &[u8],
    payload: &[u8],
    shuffled_indices: &[usize],
) -> (r: Result<(), String>)
    requires
        (header@.len() + payload@.len()) * 8 + 3 <= usize::MAX,
        pixels_for_bits((header@.len() + payload@.len()) * 8) <= shuffled_indices@.len()
            ==> order_in_range(
            shuffled_indices@,
            pixels_for_bits((header@.len() + payload@.len()) * 8) as int,
            old(img)@.pixel_count(),
        ),
    ensures
        pixels_for_bits((header@.len() + payload@.len()) * 8) > shuffled_indices@.len() ==> {
            &&& r is Err
            &&& final(img)@ == old(img)@
            &&& r matches Err(e) && e@ == "Not enough shuffled pixels to embed data."@
        },
        final(img)@.wf(),
        pixels_for_bits((header@.len() + payload@.len()) * 8) <= shuffled_indices@.len() ==> {
            &&& r is Ok
            &&& final(img)@ == (RasterModel {
                data: embed_stream(
                    old(img)@.data,
                    header@ + payload@,
                    shuffled_indices@,
                    ((header@.len() + payload@.len()) * 8) as nat,
                ),
                ..old(img)@
            })
        },
{
    let data_len: usize = img.as_raw().len();
    let mut all_data: Vec<u8> = Vec::new();
    let mut i: usize = 0;
    while i < header.len()
        invariant
            i <= header@.len(),
            all_data@ == header@.subrange(0, i as int),
        decreases header@.len() - i,
    {
        all_data.push(header[i]);
        i = i + 1;
    }
    let mut i: usize = 0;
    while i < payload.len()
        invariant
            i <= payload@.len(),
            all_data@ == header@ + payload@.subrange(0, i as int),
        decreases payload@.len() - i,
    {
        all_data.push(payload[i]);
        i = i + 1;
    }
    assert(payload@.subrange(0, payload@.len() as int) == payload@);
    let total_bits: usize = all_data.len() * 8;
    let required_pixels: usize = (total_bits + 3) / 4;
    if required_pixels > shuffled_indices.len() {
        return Err("Not enough shuffled pixels to embed data.".to_string());
    }
    let ghost old_img = img@;
    let ghost data = all_data@;
    let mut k: usize = 0;
    while k < total_bits
        invariant
            data == all_data@,
            total_bits == data.len() * 8,
            required_pixels == pixels_for_bits(total_bits as nat),
            required_pixels <= shuffled_indices@.len(),
            order_in_range(shuffled_indices@, required_pixels as int, old_img.pixel_count()),
            old_img.wf(),
            k <= total_bits,
            img@ == (RasterModel {
                data: embed_stream(old_img.data, data, shuffled_indices@, k as nat),
                ..old_img
            }),
            img@.data.len() == old_img.data.len(),
            data_len == old_img.data.len(),
        decreases total_bits - k,
    {
        let byte: u8 = all_data[k / 8];
        let bit_value: u8 = (byte >> ((k % 8) as u8)) & 1;
        let pixel_i: usize = k / 4;
        let channel_i: usize = k % 4;
        let img_i: usize = shuffled_indices[pixel_i];
        assert(img_i < old_img.pixel_count());
        let slot: usize = img_i * 4 + channel_i;
        let channel: u8 = img.byte_at(slot);
        img.set_byte(slot, (channel & 0xFE) | bit_value);
        k = k + 1;
    }
    Ok(())
}

/// Assembles the byte hidden at the slots of stream bits `base .. base + 8`.
fn gather_byte(image: &Raster, base: usize, shuffled_indices: &[usize]) -> (b: u8)
    requires
        base % 8 == 0,
        base + 8 <= shuffled_indices@.len() * 4,
        order_range_in_bounds(shuffled_indices@, base as int / 4, base as int / 4 + 2, image@.pixel_count()),
    ensures
        b == gather_bits(image@.data, shuffled_indices@, base as int, 8),
{
    let data_len: usize = image.as_raw().len();
    let mut b: u8 = 0;
    let mut i: usize = 0;
    while i < 8
        invariant
            image@.wf(),
            data_len == image@.data.len(),
            base % 8 == 0,
            base + 8 <= shuffled_indices@.len() * 4,
            order_range_in_bounds(shuffled_indices@, base as int / 4, base as int / 4 + 2, image@.pixel_count()),
            i <= 8,
            b == gather_bits(image@.data, shuffled_indices@, base as int, i as nat),
        decreases 8 - i,
    {
        let bit_index: usize = base + i;
        let pixel_i: usize = bit_index / 4;
        let channel_i: usize = bit_index % 4;
        let img_i: usize = shuffled_indices[pixel_i];
        assert(img_i < image@.pixel_count());
        let slot: usize = img_i * 4 + channel_i;
        let lsb: u8 = image.byte_at(slot) & 1;
        b = b | (lsb << (i as u8));
        i = i + 1;
    }
    b
}

/// Reads `total_bytes` bytes hidden in the least significant bits of `image`
/// at the pixels `shuffled_indices`, four bits per pixel, lowest bit first.
pub(crate) fn extract_bits_lsb(image: &Raster, total_bytes: usize, shuffled_indices: &[usize]) -> (result: Vec<u8>)
    requires
        total_bytes * 8 <= usize::MAX,
        total_bytes * 2 <= shuffled_indices@.len(),
        order_in_range(shuffled_indices@, total_bytes * 2, image@.pixel_count()),
    ensures
        result@ == extracted_stream(image@.data, shuffled_indices@, total_bytes as nat),
{
    let mut result: Vec<u8> = Vec::new();
    let mut j: usize = 0;
    while j < total_bytes
        invariant
            total_bytes * 8 <= usize::MAX,
            total_bytes * 2 <= shuffled_indices@.len(),
            order_in_range(shuffled_indices@, total_bytes * 2, image@.pixel_count()),
            j <= total_bytes,
            result@ == extracted_stream(image@.data, shuffled_indices@, j as nat),
        decreases total_bytes - j,
    {
        let b: u8 = gather_byte(image, j * 8, shuffled_indices);
        result.push(b);
        assert(result@ =~= extracted_stream(image@.data, shuffled_indices@, (j + 1) as nat));
        j = j + 1;
    }
    result
}

/// Reads the 400-byte header hidden at the first 800 pixels of `shuffled_indices`.
pub fn extract_header_from_lsb(img: &Raster, shuffled_indices: &[usize]) -> (header: [u8; 400])
    requires
        800 <= shuffled_indices@.len(),
        order_in_range(shuffled_indices@, 800, img@.pixel_count()),
    ensures
        header@ == extracted_stream(img@.data, shuffled_indices@, 400),
{
    let bytes: Vec<u8> = extract_bits_lsb(img, 400, shuffled_indices);
    let mut header_bytes: [u8; 400] = [0u8; 400];
    let mut i: usize = 0;
    while i < 400
        invariant
            bytes@ == extracted_stream(img@.data, shuffled_indices@, 400),
            i <= 400,
            forall|j: int| 0 <= j < i ==> header_bytes@[j] == bytes@[j],
        decreases 400 - i,
    {
        header_bytes[i] = bytes[i];
        i = i + 1;
    }
    assert(header_bytes@ =~= bytes@);
    header_bytes
}

/// The `n` bytes hidden after the 400-byte header.
pub open spec fn extracted_payload(img: Seq<u8>, order: Seq<usize>, n: nat) -> Seq<u8> {
    Seq::new(n, |j: int| extracted_byte(img, order, 400 + j))
}

/// Reads the `payload_size` bytes hidden after the 400-byte header, at the
/// pixels `shuffled_indices` from the 800th on. Fails when the indices run out.
pub fn extract_payload(img: &Raster, shuffled_indices: &[usize], payload_size: usize) -> (r: Result<
    Vec<u8>,
    String,
>)
    requires
        payload_size * 8 + 3200 <= usize::MAX,
        order_range_in_bounds(
            shuffled_indices@,
            800,
            if shuffled_indices@.len() < 800 + 2 * payload_size {
                shuffled_indices@.len() as int
            } else {
                800 + 2 * payload_size
            },
            img@.pixel_count(),
        ),
    ensures
        r is Err <==> payload_size > 0 && shuffled_indices@.len() < 800 + 2 * payload_size,
        r matches Err(e) ==> e@ == "Shuffled index out of bounds"@,
        r matches Ok(v) ==> v@ == extracted_payload(img@.data, shuffled_indices@, payload_size as nat),
{
    if payload_size > 0 && shuffled_indices.len() < 800 + 2 * payload_size {
        return Err("Shuffled index out of bounds".to_string());
    }
    let mut bytes: Vec<u8> = Vec::new();
    let mut j: usize = 0;
    while j < payload_size
        invariant
            payload_size * 8 + 3200 <= usize::MAX,
            payload_size > 0 ==> 800 + 2 * payload_size <= shuffled_indices@.len(),
            payload_size > 0 ==> order_range_in_bounds(
                shuffled_indices@,
                800,
                800 + 2 * payload_size,
                img@.pixel_count(),
            ),
            j <= payload_size,
            bytes@ == extracted_payload(img@.data, shuffled_indices@, j as nat),
        decreases payload_size - j,
    {
        let b: u8 = gather_byte(img, (400 + j) * 8, shuffled_indices);
        bytes.push(b);
        assert(bytes@ =~= extracted_payload(img@.data, shuffled_indices@, (j + 1) as nat));
        j = j + 1;
    }
    Ok(bytes)
}

/// The first `npix` entries of `order` are pairwise distinct.
pub open spec fn distinct_prefix(order: Seq<usize>, npix: int) -> bool {
    forall|p: int, q: int| 0 <= p < npix && 0 <= q < npix && p != q ==> #[trigger] order[p] != #[trigger] order[q]
}

proof fn lemma_slot_in_bounds(order: Seq<usize>, npix: int, count: int, k: int)
    requires
        0 <= k,
        k / 4 < npix,
        npix <= order.len(),
        order_in_range(order, npix, count),
    ensures
        0 <= bit_slot(order, k) < count * 4,
        bit_slot(order, k) / 4 == order[k / 4],
{
    assert(order[k / 4] < count);
}

proof fn lemma_slots_distinct(order: Seq<usize>, npix: int, k1: int, k2: int)
    requires
        0 <= k1,
        0 <= k2,
        k1 != k2,
        k1 / 4 < npix,
        k2 / 4 < npix,
        npix <= order.len(),
        distinct_prefix(order, npix),
    ensures
        bit_slot(order, k1) != bit_slot(order, k2),
{
    if k1 / 4 != k2 / 4 {
        assert(order[k1 / 4] != order[k2 / 4]);
    }
}

/// Hiding the first `n` bits keeps the number of channel bytes.
pub proof fn lemma_embed_len(img: Seq<u8>, data: Seq<u8>, order: Seq<usize>, n: nat)
    requires
        forall|k: int| 0 <= k < n ==> 0 <= #[trigger] bit_slot(order, k) < img.len(),
    ensures
        embed_stream(img, data, order, n).len() == img.len(),
    decreases n,
{
    if n > 0 {
        lemma_embed_len(img, data, order, (n - 1) as nat);
    }
}

/// After hiding `n` bits with distinct slots, the slot of bit `k < n` carries that bit.
proof fn lemma_embed_slot_bit(img: Seq<u8>, data: Seq<u8>, order: Seq<usize>, n: nat, k: int)
    requires
        0 <= k < n,
        pixels_for_bits(n) <= order.len(),
        distinct_prefix(order, pixels_for_bits(n) as int),
        forall|kk: int| 0 <= kk < n ==> 0 <= #[trigger] bit_slot(order, kk) < img.len(),
        stream_bit(data, k) <= 1,
    ensures
        embed_stream(img, data, order, n)[bit_slot(order, k)] & 1u8 == stream_bit(data, k),
    decreases n,
{
    lemma_embed_len(img, data, order, (n - 1) as nat);
    let prev = embed_stream(img, data, order, (n - 1) as nat);
    if k == n - 1 {
        let b = stream_bit(data, k);
        let v = prev[bit_slot(order, k)];
        assert(((v & 0xFEu8) | b) & 1u8 == b) by (bit_vector)
            requires
                b <= 1u8,
        ;
    } else {
        assert(pixels_for_bits((n - 1) as nat) <= pixels_for_bits(n));
        lemma_embed_slot_bit(img, data, order, (n - 1) as nat, k);
        lemma_slots_distinct(order, pixels_for_bits(n) as int, k, n - 1);
    }
}

/// Hiding bits leaves every channel byte that is no bit's slot as it was.
pub proof fn lemma_embed_other(img: Seq<u8>, data: Seq<u8>, order: Seq<usize>, n: nat, q: int)
    requires
        0 <= q < img.len(),
        forall|k: int| 0 <= k < n ==> 0 <= #[trigger] bit_slot(order, k) < img.len(),
        forall|k: int| 0 <= k < n ==> #[trigger] bit_slot(order, k) != q,
    ensures
        embed_stream(img, data, order, n)[q] == img[q],
    decreases n,
{
    if n > 0 {
        lemma_embed_len(img, data, order, (n - 1) as nat);
        lemma_embed_other(img, data, order, (n - 1) as nat, q);
        assert(bit_slot(order, n - 1) != q);
    }
}

/// Hiding bits changes no channel byte beyond its least significant bit.
pub proof fn lemma_embed_high_bits(img: Seq<u8>, data: Seq<u8>, order: Seq<usize>, n: nat, q: int)
    requires
        0 <= q < img.len(),
        forall|k: int| 0 <= k < n ==> 0 <= #[trigger] bit_slot(order, k) < img.len(),
    ensures
        embed_stream(img, data, order, n)[q] & 0xFEu8 == img[q] & 0xFEu8,
    decreases n,
{
    if n > 0 {
        lemma_embed_len(img, data, order, (n - 1) as nat);
        lemma_embed_high_bits(img, data, order, (n - 1) as nat, q);
        let prev = embed_stream(img, data, order, (n - 1) as nat);
        let v = prev[q];
        let b = stream_bit(data, n - 1);
        assert(((v & 0xFEu8) | (b & 1u8)) & 0xFEu8 == v & 0xFEu8) by (bit_vector);
        let byte: u8 = data[(n - 1) / 8];
        let sh: u8 = ((n - 1) % 8) as u8;
        assert(b & 1u8 == b) by (bit_vector)
            requires
                b == (byte >> sh) & 1u8,
        ;
    }
}

/// A byte is the sum of its bits, lowest first.
proof fn lemma_byte_from_bits(v: u8)
    ensures
        ((((((((0u8 | (((v >> 0u8) & 1u8) << 0u8)) | (((v >> 1u8) & 1u8) << 1u8)) | (((v >> 2u8)
            & 1u8) << 2u8)) | (((v >> 3u8) & 1u8) << 3u8)) | (((v >> 4u8) & 1u8) << 4u8)) | (((v
            >> 5u8) & 1u8) << 5u8)) | (((v >> 6u8) & 1u8) << 6u8)) | (((v >> 7u8) & 1u8) << 7u8))
            == v,
{
    assert(((((((((0u8 | (((v >> 0u8) & 1u8) << 0u8)) | (((v >> 1u8) & 1u8) << 1u8)) | (((v
        >> 2u8) & 1u8) << 2u8)) | (((v >> 3u8) & 1u8) << 3u8)) | (((v >> 4u8) & 1u8) << 4u8)) | (((v
        >> 5u8) & 1u8) << 5u8)) | (((v >> 6u8) & 1u8) << 6u8)) | (((v >> 7u8) & 1u8) << 7u8))
        == v) by (bit_vector);
}

/// When the 8 slots of byte `j` carry the bits of `v`, the byte read there is `v`.
proof fn lemma_gather_recovers(img: Seq<u8>, order: Seq<usize>, j: int, v: u8)
    requires
        forall|i: int| 0 <= i < 8 ==> #[trigger] slot_lsb(img, order, j * 8 + i) == (v >> (i as u8)) & 1u8,
    ensures
        extracted_byte(img, order, j) == v,
{
    reveal_with_fuel(gather_bits, 9);
    assert(slot_lsb(img, order, j * 8 + 0) == (v >> 0u8) & 1u8);
    assert(slot_lsb(img, order, j * 8 + 1) == (v >> 1u8) & 1u8);
    assert(slot_lsb(img, order, j * 8 + 2) == (v >> 2u8) & 1u8);
    assert(slot_lsb(img, order, j * 8 + 3) == (v >> 3u8) & 1u8);
    assert(slot_lsb(img, order, j * 8 + 4) == (v >> 4u8) & 1u8);
    assert(slot_lsb(img, order, j * 8 + 5) == (v >> 5u8) & 1u8);
    assert(slot_lsb(img, order, j * 8 + 6) == (v >> 6u8) & 1u8);
    assert(slot_lsb(img, order, j * 8 + 7) == (v >> 7u8) & 1u8);
    lemma_byte_from_bits(v);
}

/// Reading back a stream hidden at distinct pixels of the image gives the stream:
/// the first `data.len()` bytes read from the image after hiding `data` are `data`.
pub proof fn law_extract_recovers_embedded(img: RasterModel, data: Seq<u8>, order: Seq<usize>)
    requires
        img.wf(),
        pixels_for_bits(data.len() * 8) <= order.len(),
        order_in_range(order, pixels_for_bits(data.len() * 8) as int, img.pixel_count()),
        distinct_prefix(order, pixels_for_bits(data.len() * 8) as int),
    ensures
        extracted_stream(embed_stream(img.data, data, order, data.len() * 8), order, data.len())
            == data,
{
    let n = data.len() * 8;
    let npix = pixels_for_bits(n) as int;
    assert forall|k: int| 0 <= k < n implies 0 <= #[trigger] bit_slot(order, k) < img.data.len() by {
        lemma_slot_in_bounds(order, npix, img.pixel_count(), k);
    }
    let e = embed_stream(img.data, data, order, n);
    assert forall|j: int| 0 <= j < data.len() implies #[trigger] extracted_byte(e, order, j)
        == data[j] by {
        assert forall|i: int| 0 <= i < 8 implies #[trigger] slot_lsb(e, order, j * 8 + i) == (
        data[j] >> (i as u8)) & 1u8 by {
            let k = j * 8 + i;
            assert(k / 8 == j && k % 8 == i);
            let b = stream_bit(data, k);
            let byte: u8 = data[j];
            let sh: u8 = i as u8;
            assert(b <= 1u8) by (bit_vector)
                requires
                    b == (byte >> sh) & 1u8,
            ;
            lemma_embed_slot_bit(img.data, data, order, n, k);
        }
        lemma_gather_recovers(e, order, j, data[j]);
    }
    assert(extracted_stream(e, order, data.len()) =~= data);
}

/// Hiding a stream changes no channel byte of the image beyond its least
/// significant bit: the image keeps its size, and every byte keeps its upper
/// seven bits.
pub proof fn law_embedding_changes_only_low_bits(img: RasterModel, data: Seq<u8>, order: Seq<usize>)
    requires
        img.wf(),
        pixels_for_bits(data.len() * 8) <= order.len(),
        order_in_range(order, pixels_for_bits(data.len() * 8) as int, img.pixel_count()),
    ensures
        embed_stream(img.data, data, order, data.len() * 8).len() == img.data.len(),
        forall|q: int|
            0 <= q < img.data.len() ==> #[trigger] embed_stream(img.data, data, order, data.len() * 8)[q]
                & 0xFEu8 == img.data[q] & 0xFEu8,
{
    let n = data.len() * 8;
    let npix = pixels_for_bits(n) as int;
    assert forall|k: int| 0 <= k < n implies 0 <= #[trigger] bit_slot(order, k) < img.data.len() by {
        lemma_slot_in_bounds(order, npix, img.pixel_count(), k);
    }
    lemma_embed_len(img.data, data, order, n);
    assert forall|q: int| 0 <= q < img.data.len() implies #[trigger] embed_stream(img.data, data, order, n)[q]
        & 0xFEu8 == img.data[q] & 0xFEu8 by {
        lemma_embed_high_bits(img.data, data, order, n, q);
    }
}

/// After hiding `header` followed by `payload` at distinct pixels, reading
/// back gives every prefix of what was hidden: the first `m` bytes read are
/// the first `m` bytes hidden. With a 400-byte header, the header read back
/// (as `extract_header_from_lsb` reads it) is `header`, and the payload read
/// back (as `extract_payload` reads it) is `payload`.
pub proof fn law_hidden_prefixes_read_back(
    img: RasterModel,
    header: Seq<u8>,
    payload: Seq<u8>,
    order: Seq<usize>,
    m: nat,
)
    requires
        img.wf(),
        pixels_for_bits((header + payload).len() * 8) <= order.len(),
        order_in_range(order, pixels_for_bits((header + payload).len() * 8) as int, img.pixel_count()),
        distinct_prefix(order, pixels_for_bits((header + payload).len() * 8) as int),
        m <= header.len() + payload.len(),
    ensures
        ({
            let e = embed_stream(img.data, header + payload, order, (header + payload).len() * 8);
            &&& extracted_stream(e, order, m) == (header + payload).take(m as int)
            &&& header.len() == 400 ==> extracted_stream(e, order, 400) == header
            &&& header.len() == 400 ==> extracted_payload(e, order, payload.len()) == payload
        }),
{
    let data = header + payload;
    law_extract_recovers_embedded(img, data, order);
    let e = embed_stream(img.data, data, order, data.len() * 8);
    assert forall|j: int| 0 <= j < data.len() implies #[trigger] extracted_byte(e, order, j) == data[j] by {
        assert(extracted_stream(e, order, data.len())[j] == data[j]);
    }
    assert(extracted_stream(e, order, m) =~= data.take(m as int));
    if header.len() == 400 {
        assert(extracted_stream(e, order, 400) =~= header);
        assert(extracted_payload(e, order, payload.len()) =~= payload) by {
            assert forall|j: int| 0 <= j < payload.len() implies #[trigger] extracted_payload(
                e,
                order,
                payload.len(),
            )[j] == payload[j] by {
                assert(data[400 + j] == payload[j]);
            }
        }
    }
}

/// Bit `b` (counting from the lowest) of byte `j` read from the channel bytes
/// `img` is the least significant bit of channel `b % 4` of pixel
/// `order[2 * j + b / 4]`, that is, of channel byte `order[2 * j + b / 4] * 4 + b % 4`.
/// Byte `j` of the payload is byte `400 + j` of the stream.
pub proof fn law_read_bit(img: Seq<u8>, order: Seq<usize>, j: int, b: int)
    requires
        0 <= j,
        0 <= b < 8,
    ensures
        (extracted_byte(img, order, j) >> (b as u8)) & 1u8 == img[order[2 * j + b / 4] * 4 + b % 4] & 1u8,
{
    reveal_with_fuel(gather_bits, 9);
    let l0 = slot_lsb(img, order, j * 8 + 0);
    let l1 = slot_lsb(img, order, j * 8 + 1);
    let l2 = slot_lsb(img, order, j * 8 + 2);
    let l3 = slot_lsb(img, order, j * 8 + 3);
    let l4 = slot_lsb(img, order, j * 8 + 4);
    let l5 = slot_lsb(img, order, j * 8 + 5);
    let l6 = slot_lsb(img, order, j * 8 + 6);
    let l7 = slot_lsb(img, order, j * 8 + 7);
    let v = extracted_byte(img, order, j);
    assert(v == ((((((((0u8 | (l0 << 0u8)) | (l1 << 1u8)) | (l2 << 2u8)) | (l3 << 3u8)) | (l4
        << 4u8)) | (l5 << 5u8)) | (l6 << 6u8)) | (l7 << 7u8)));
    let x0 = img[bit_slot(order, j * 8 + 0)];
    let x1 = img[bit_slot(order, j * 8 + 1)];
    let x2 = img[bit_slot(order, j * 8 + 2)];
    let x3 = img[bit_slot(order, j * 8 + 3)];
    let x4 = img[bit_slot(order, j * 8 + 4)];
    let x5 = img[bit_slot(order, j * 8 + 5)];
    let x6 = img[bit_slot(order, j * 8 + 6)];
    let x7 = img[bit_slot(order, j * 8 + 7)];
    let bb: u8 = b as u8;
    assert(bb < 8 && v == ((((((((0u8 | ((x0 & 1u8) << 0u8)) | ((x1 & 1u8) << 1u8)) | ((x2 & 1u8) << 2u8))
        | ((x3 & 1u8) << 3u8)) | ((x4 & 1u8) << 4u8)) | ((x5 & 1u8) << 5u8)) | ((x6 & 1u8) << 6u8))
        | ((x7 & 1u8) << 7u8)) ==> (v >> bb) & 1u8 == (if bb == 0 {
        x0
    } else if bb == 1 {
        x1
    } else if bb == 2 {
        x2
    } else if bb == 3 {
        x3
    } else if bb == 4 {
        x4
    } else if bb == 5 {
        x5
    } else if bb == 6 {
        x6
    } else {
        x7
    }) & 1u8) by (bit_vector);
    let k = j * 8 + b;
    assert(k / 4 == 2 * j + b / 4 && k % 4 == b % 4);
}

/// Bit `b` (counting from the lowest) of byte `j` of the payload read from
/// `img` is the least significant bit of channel `b % 4` of the pixel
/// `q = order[800 + 2 * j + b / 4]`, that is, of pixel `(q % width, q / width)`.
pub proof fn law_payload_bit(img: RasterModel, order: Seq<usize>, n: nat, j: int, b: int)
    requires
        img.wf(),
        img.width > 0,
        0 <= j < n,
        0 <= b < 8,
        order[800 + 2 * j + b / 4] < img.pixel_count(),
    ensures
        ({
            let q = order[800 + 2 * j + b / 4] as int;
            (extracted_payload(img.data, order, n)[j] >> (b as u8)) & 1u8 == img.channel(
                q % (img.width as int),
                q / (img.width as int),
                b % 4,
            ) & 1u8
        }),
{
    let w = img.width as int;
    let q = order[800 + 2 * j + b / 4] as int;
    law_read_bit(img.data, order, 400 + j, b);
    assert(2 * (400 + j) + b / 4 == 800 + 2 * j + b / 4);
    lemma_fundamental_div_mod(q, w);
    assert((q / w) * w == w * (q / w)) by (nonlinear_arith);
    assert(img.channel(q % w, q / w, b % 4) == img.data[q * 4 + b % 4]);
}

} // verus!
