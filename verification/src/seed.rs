//! The pixel visiting order: a seed derived from the image's size and one
//! anchor pixel, and a seeded shuffle of all the other pixels.
use rand::rngs::StdRng;
use rand::seq::SliceRandom;
use rand::SeedableRng;
use vstd::prelude::*;
use vstd::arithmetic::div_mod::{
    lemma_add_mod_noop, lemma_fundamental_div_mod_converse, lemma_mod_pos_bound, lemma_small_mod,
};

use crate::raster::{Raster, RasterModel};
use crate::text::{
    all_below_128,
    all_ascii_digits, decimal_bytes, decimal_digits, is_ascii_digit, lemma_ascii_valid_utf8,
    lemma_decimal_digits, str_from_utf8,
};

verus! {

/// The seed text `"{width}x{height}_R{r}G{g}B{b}A{a}"` for the anchor pixel `(r, g, b, a)`.
pub open spec fn seed_text(width: u32, height: u32, r: u8, g: u8, b: u8, a: u8) -> Seq<u8> {
    decimal_digits(width as nat) + seq![120u8] + decimal_digits(height as nat) + seq![95u8, 82u8]
        + decimal_digits(r as nat) + seq![71u8] + decimal_digits(g as nat) + seq![66u8]
        + decimal_digits(b as nat) + seq![65u8] + decimal_digits(a as nat)
}

/// The seed text of image `m` with anchor pixel `anchor`.
pub open spec fn image_seed_text(m: RasterModel, anchor: int) -> Seq<u8> {
    seed_text(
        m.width,
        m.height,
        m.data[anchor * 4],
        m.data[anchor * 4 + 1],
        m.data[anchor * 4 + 2],
        m.data[anchor * 4 + 3],
    )
}

/// The 64-bit hash of the seed text: starting from 0, multiply by 31 and add
/// the next byte, wrapping around.
pub open spec fn seed_hash(s: Seq<u8>) -> u64
    decreases s.len(),
{
    if s.len() == 0 {
        0u64
    } else {
        seed_hash(s.drop_last()).wrapping_mul(31).wrapping_add(s.last() as u64)
    }
}

/// The pixel indices `0 .. total` without `anchor`, in increasing order.
pub open spec fn indices_without(total: int, anchor: int) -> Seq<usize> {
    Seq::new(
        (total - 1) as nat,
        |j: int|
            if j < anchor {
                j as usize
            } else {
                (j + 1) as usize
            },
    )
}

/// The order in which `SliceRandom::shuffle`, driven by a `StdRng` seeded
/// with `seed`, leaves `items`.
pub uninterp spec fn seeded_shuffle(items: Seq<usize>, seed: u64) -> Seq<usize>;

/// Shuffles `items` with `rand`'s `SliceRandom::shuffle` and a
/// `StdRng::seed_from_u64(seed)` generator. Claimed: the result is the named
/// `seeded_shuffle` of the items and seed, and it holds the same items (the
/// shuffle only swaps elements).
#[verifier::external_body]
fn shuffle_with_seed(items: Vec<usize>, seed: u64) -> (r: Vec<usize>)
    ensures
        r@ == seeded_shuffle(items@, seed),
        r@.to_multiset() == items@.to_multiset(),
{
    let mut items = items;
    let mut rng = StdRng::seed_from_u64(seed);
    items.shuffle(&mut rng);
    items
}

fn push_all(out: &mut Vec<u8>, src: &Vec<u8>)
    ensures
        final(out)@ == old(out)@ + src@,
{
    let mut i: usize = 0;
    let ghost start = out@;
    while i < src.len()
        invariant
            i <= src@.len(),
            out@ == start + src@.take(i as int),
        decreases src@.len() - i,
    {
        out.push(src[i]);
        i = i + 1;
        assert(out@ =~= start + src@.take(i as int));
    }
    assert(src@.take(src@.len() as int) =~= src@);
}

fn seed_bytes(width: u32, height: u32, r: u8, g: u8, b: u8, a: u8) -> (s: Vec<u8>)
    ensures
        s@ == seed_text(width, height, r, g, b, a),
{
    let mut s: Vec<u8> = decimal_bytes(width as u64);
    s.push(120u8);
    push_all(&mut s, &decimal_bytes(height as u64));
    s.push(95u8);
    s.push(82u8);
    push_all(&mut s, &decimal_bytes(r as u64));
    s.push(71u8);
    push_all(&mut s, &decimal_bytes(g as u64));
    s.push(66u8);
    push_all(&mut s, &decimal_bytes(b as u64));
    s.push(65u8);
    push_all(&mut s, &decimal_bytes(a as u64));
    assert(s@ =~= seed_text(width, height, r, g, b, a));
    s
}

fn hash_seed(s: &Vec<u8>) -> (h: u64)
    ensures
        h == seed_hash(s@),
{
    let mut acc: u64 = 0;
    let mut i: usize = 0;
    while i < s.len()
        invariant
            i <= s@.len(),
            acc == seed_hash(s@.take(i as int)),
        decreases s@.len() - i,
    {
        assert(s@.take(i + 1).drop_last() =~= s@.take(i as int));
        acc = acc.wrapping_mul(31).wrapping_add(s[i] as u64);
        i = i + 1;
    }
    assert(s@.take(s@.len() as int) =~= s@);
    acc
}

proof fn lemma_seed_text_ascii(width: u32, height: u32, r: u8, g: u8, b: u8, a: u8)
    ensures
        all_below_128(seed_text(width, height, r, g, b, a)),
{
    lemma_decimal_digits(width as nat);
    lemma_decimal_digits(height as nat);
    lemma_decimal_digits(r as nat);
    lemma_decimal_digits(g as nat);
    lemma_decimal_digits(b as nat);
    lemma_decimal_digits(a as nat);
    let dw = decimal_digits(width as nat);
    let dh = decimal_digits(height as nat);
    let dr = decimal_digits(r as nat);
    let dg = decimal_digits(g as nat);
    let db = decimal_digits(b as nat);
    let da = decimal_digits(a as nat);
    lemma_digits_below_128(dw);
    lemma_digits_below_128(dh);
    lemma_digits_below_128(dr);
    lemma_digits_below_128(dg);
    lemma_digits_below_128(db);
    lemma_digits_below_128(da);
    let s1 = dw + seq![120u8];
    lemma_concat_below_128(dw, seq![120u8]);
    let s2 = s1 + dh;
    lemma_concat_below_128(s1, dh);
    let s3 = s2 + seq![95u8, 82u8];
    lemma_concat_below_128(s2, seq![95u8, 82u8]);
    let s4 = s3 + dr;
    lemma_concat_below_128(s3, dr);
    let s5 = s4 + seq![71u8];
    lemma_concat_below_128(s4, seq![71u8]);
    let s6 = s5 + dg;
    lemma_concat_below_128(s5, dg);
    let s7 = s6 + seq![66u8];
    lemma_concat_below_128(s6, seq![66u8]);
    let s8 = s7 + db;
    lemma_concat_below_128(s7, db);
    let s9 = s8 + seq![65u8];
    lemma_concat_below_128(s8, seq![65u8]);
    lemma_concat_below_128(s9, da);
}

proof fn lemma_concat_below_128(a: Seq<u8>, b: Seq<u8>)
    requires
        all_below_128(a),
        all_below_128(b),
    ensures
        all_below_128(a + b),
{
    assert forall|i: int| 0 <= i < (a + b).len() implies #[trigger] (a + b)[i] < 128 by {
        if i < a.len() {
            assert((a + b)[i] == a[i]);
        } else {
            assert((a + b)[i] == b[i - a.len()]);
        }
    }
}

proof fn lemma_digits_below_128(d: Seq<u8>)
    requires
        all_ascii_digits(d),
    ensures
        all_below_128(d),
{
    assert forall|i: int| 0 <= i < d.len() implies #[trigger] d[i] < 128 by {
        assert(is_ascii_digit(d[i]));
    }
}

/// The visiting order of an image: the seed text built from its size and the
/// anchor pixel `anchor_index`, and every other pixel index shuffled with the
/// hash of that text as seed. Returns the anchor, the order and the seed text.
pub fn compute_anchor_seed_and_shuffle(img: &Raster, anchor_index: usize) -> (r: (usize, Vec<usize>, String))
    requires
        anchor_index < img@.pixel_count(),
    ensures
        r.0 == anchor_index,
        r.2@ == image_seed_text(img@, anchor_index as int).map_values(|b: u8| b as char),
        r.1@ == seeded_shuffle(
            indices_without(img@.pixel_count(), anchor_index as int),
            seed_hash(image_seed_text(img@, anchor_index as int)),
        ),
        r.1@.len() == img@.pixel_count() - 1,
        r.1@.no_duplicates(),
        forall|p: int|
            0 <= p < r.1@.len() ==> #[trigger] r.1@[p] < img@.pixel_count() && r.1@[p] != anchor_index,
{
    let (width, height) = img.dimensions();
    let total_pixels: usize = img.pixel_count();
    let data_len: usize = img.as_raw().len();
    let base: usize = anchor_index * 4;
    let r: u8 = img.byte_at(base);
    let g: u8 = img.byte_at(base + 1);
    let b: u8 = img.byte_at(base + 2);
    let a: u8 = img.byte_at(base + 3);
    let text: Vec<u8> = seed_bytes(width, height, r, g, b, a);
    let seed: u64 = hash_seed(&text);
    let mut indices: Vec<usize> = Vec::new();
    let mut i: usize = 0;
    while i < total_pixels
        invariant
            anchor_index < total_pixels,
            i <= total_pixels,
            indices@ == Seq::new(
                (if i <= anchor_index {
                    i as int
                } else {
                    i - 1
                }) as nat,
                |j: int|
                    if j < anchor_index {
                        j as usize
                    } else {
                        (j + 1) as usize
                    },
            ),
        decreases total_pixels - i,
    {
        if i != anchor_index {
            indices.push(i);
        }
        i = i + 1;
        assert(indices@ =~= Seq::new(
            (if i <= anchor_index {
                i as int
            } else {
                i - 1
            }) as nat,
            |j: int|
                if j < anchor_index {
                    j as usize
                } else {
                    (j + 1) as usize
                },
        ));
    }
    let ghost all = indices@;
    assert(all =~= indices_without(total_pixels as int, anchor_index as int));
    let shuffled: Vec<usize> = shuffle_with_seed(indices, seed);
    proof {
        assert(all.no_duplicates());
        all.lemma_multiset_has_no_duplicates();
        vstd::seq_lib::to_multiset_len(all);
        vstd::seq_lib::to_multiset_len(shuffled@);
        assert forall|x: usize| shuffled@.to_multiset().contains(x) implies shuffled@.to_multiset().count(x)
            == 1 by {
        }
        shuffled@.lemma_multiset_has_no_duplicates_conv();
        assert forall|p: int| 0 <= p < shuffled@.len() implies #[trigger] shuffled@[p] < total_pixels
            && shuffled@[p] != anchor_index by {
            let x = shuffled@[p];
            vstd::seq_lib::to_multiset_contains(shuffled@, x);
            vstd::seq_lib::to_multiset_contains(all, x);
            assert(shuffled@.contains(x));
            assert(all.contains(x));
            let j = choose|j: int| 0 <= j < all.len() && all[j] == x;
        }
        lemma_seed_text_ascii(width, height, r, g, b, a);
        lemma_ascii_valid_utf8(text@);
    }
    let seed_string: String = match str_from_utf8(text.as_slice()) {
        Some(t) => t.to_string(),
        None => String::new(),
    };
    (anchor_index, shuffled, seed_string)
}

/// The seed of the empty text is 0, and appending a byte `b` to a text
/// multiplies its seed by 31 and adds `b`, modulo 2^64: the seed of
/// `s[0] s[1] .. s[n-1]` is the sum of `s[i] * 31^(n-1-i)`, modulo 2^64.
pub proof fn law_seed_hash_appends(s: Seq<u8>, b: u8)
    ensures
        seed_hash(Seq::<u8>::empty()) == 0,
        seed_hash(s.push(b)) as int == (seed_hash(s) as int * 31 + b as int) % 0x1_0000_0000_0000_0000,
{
    let r: int = 0x1_0000_0000_0000_0000;
    assert(s.push(b).drop_last() =~= s);
    let x = seed_hash(s) as int;
    let m = (x * 31) % r;
    lemma_add_mod_noop(x * 31, b as int, r);
    lemma_small_mod(b as nat, r as nat);
    lemma_mod_pos_bound(x * 31, r);
    let t = m + b as int;
    if t < r {
        lemma_small_mod(t as nat, r as nat);
    } else {
        lemma_fundamental_div_mod_converse(t, r, 1, t - r);
    }
}

/// The indices handed to the shuffle are the pixels `0 .. total` except
/// `anchor`, each once and in increasing order.
pub proof fn law_indices_without_anchor(total: int, anchor: int)
    requires
        0 <= anchor < total <= usize::MAX,
    ensures
        indices_without(total, anchor).len() == total - 1,
        forall|i: int, j: int|
            0 <= i < j < total - 1 ==> #[trigger] indices_without(total, anchor)[i]
                < #[trigger] indices_without(total, anchor)[j],
        forall|i: int|
            0 <= i < total - 1 ==> #[trigger] indices_without(total, anchor)[i] < total
                && indices_without(total, anchor)[i] != anchor,
        forall|x: int|
            0 <= x < total && x != anchor ==> #[trigger] indices_without(total, anchor).contains(
                x as usize,
            ),
        !indices_without(total, anchor).contains(anchor as usize),
{
    let s = indices_without(total, anchor);
    assert forall|x: int| 0 <= x < total && x != anchor implies #[trigger] s.contains(x as usize) by {
        let k = if x < anchor {
            x
        } else {
            x - 1
        };
        assert(s[k] == x as usize);
    }
}

} // verus!
