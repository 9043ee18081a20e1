//! Plain-text reports for inspecting seeds, headers and bit streams.
use vstd::prelude::*;
use vstd::string::StringExecFns;
use vstd::utf8::{decode_utf8, valid_utf8};

use crate::text::{all_below_128, decimal_bytes, decimal_digits, lemma_ascii_valid_utf8, lemma_decimal_digits, all_ascii_digits, is_ascii_digit, str_from_utf8};

verus! {

/// The bytes as characters, one for one.
pub open spec fn ascii_chars(s: Seq<u8>) -> Seq<char> {
    s.map_values(|b: u8| b as char)
}

/// The text of ASCII bytes.
fn ascii_string(bytes: &Vec<u8>) -> (r: String)
    requires
        all_below_128(bytes@),
    ensures
        r@ == ascii_chars(bytes@),
{
    proof {
        lemma_ascii_valid_utf8(bytes@);
    }
    match str_from_utf8(bytes.as_slice()) {
        Some(t) => String::from_str(t),
        None => String::new(),
    }
}

/// The parts joined with `sep` between each two of them.
pub open spec fn joined(parts: Seq<Seq<u8>>, sep: Seq<u8>) -> Seq<u8>
    decreases parts.len(),
{
    if parts.len() == 0 {
        seq![]
    } else if parts.len() == 1 {
        parts[0]
    } else {
        joined(parts.drop_last(), sep) + sep + parts.last()
    }
}

fn push_bytes(out: &mut Vec<u8>, src: &[u8])
    ensures
        final(out)@ == old(out)@ + src@,
{
    let ghost start = out@;
    let mut i: usize = 0;
    while i < src.len()
        invariant
            i <= src@.len(),
            out@ == start + src@.take(i as int),
        decreases src@.len() - i,
    {
        out.push(src[i]);
        i = i + 1;
        assert(out@ =~= start + src@.take(i as int));
    }
    assert(src@.take(src@.len() as int) =~= src@);
}

/// Upper-case hexadecimal digit of `v < 16`.
pub open spec fn hex_digit(v: int) -> u8 {
    if v < 10 {
        (48 + v) as u8
    } else {
        (55 + v) as u8
    }
}

/// `{:02X}` of a byte.
pub open spec fn hex_pair(b: u8) -> Seq<u8> {
    seq![hex_digit(b as int / 16), hex_digit(b as int % 16)]
}

/// `{:08b}` of a byte: its eight bits as `0`/`1`, most significant first.
pub open spec fn binary8(b: u8) -> Seq<u8> {
    Seq::new(8, |i: int| (48 + ((b >> ((7 - i) as u8)) & 1u8)) as u8)
}

/// The eight bits of a byte as `0`/`1`, least significant first, separated by spaces.
pub open spec fn bits_lsb_line(b: u8) -> Seq<u8> {
    Seq::new(
        15,
        |j: int|
            if j % 2 == 1 {
                32u8
            } else {
                (48 + ((b >> ((j / 2) as u8)) & 1u8)) as u8
            },
    )
}

/// The bytes in hexadecimal, two digits each, separated by spaces.
pub open spec fn hex_joined(bytes: Seq<u8>) -> Seq<u8> {
    joined(bytes.map_values(|b: u8| hex_pair(b)), seq![32u8])
}

/// Each byte as a visible character: printable ASCII (and, when
/// `space_visible`, the space) as itself, anything else as `.`.
pub open spec fn visible_ascii(bytes: Seq<u8>, space_visible: bool) -> Seq<u8> {
    bytes.map_values(
        |b: u8|
            if (33 <= b <= 126) || (space_visible && b == 32) {
                b
            } else {
                46u8
            },
    )
}

proof fn lemma_joined_below_128(parts: Seq<Seq<u8>>, sep: Seq<u8>)
    requires
        forall|i: int| 0 <= i < parts.len() ==> all_below_128(#[trigger] parts[i]),
        all_below_128(sep),
    ensures
        all_below_128(joined(parts, sep)),
    decreases parts.len(),
{
    if parts.len() > 1 {
        lemma_joined_below_128(parts.drop_last(), sep);
        let a = joined(parts.drop_last(), sep);
        let l = parts.last();
        assert(all_below_128(l));
        assert forall|i: int| 0 <= i < (a + sep + l).len() implies #[trigger] (a + sep + l)[i] < 128 by {
            if i < a.len() {
            } else if i < a.len() + sep.len() {
            } else {
                assert((a + sep + l)[i] == l[i - a.len() - sep.len()]);
            }
        }
    } else if parts.len() == 1 {
        assert(all_below_128(parts[0]));
    }
}

/// Joins the pieces `piece(i)` for `i < n`, each given as exec bytes, with `sep`.
fn join_hex(bytes: &[u8], n: usize) -> (r: Vec<u8>)
    requires
        n <= bytes@.len(),
    ensures
        r@ == hex_joined(bytes@.take(n as int)),
        all_below_128(r@),
{
    let mut r: Vec<u8> = Vec::new();
    let mut i: usize = 0;
    while i < n
        invariant
            n <= bytes@.len(),
            i <= n,
            r@ == hex_joined(bytes@.take(i as int)),
            all_below_128(r@),
        decreases n - i,
    {
        let b: u8 = bytes[i];
        if i > 0 {
            r.push(32u8);
        }
        let hi: u8 = b / 16;
        let lo: u8 = b % 16;
        r.push(if hi < 10 { 48 + hi } else { 55 + hi });
        r.push(if lo < 10 { 48 + lo } else { 55 + lo });
        proof {
            let s = bytes@.take(i + 1);
            assert(s.drop_last() =~= bytes@.take(i as int));
            assert(s.map_values(|b: u8| hex_pair(b)).drop_last() =~= bytes@.take(i as int).map_values(
                |b: u8| hex_pair(b),
            ));
            if i == 0 {
                assert(r@ =~= hex_pair(b));
            } else {
                assert(r@ =~= hex_joined(bytes@.take(i as int)) + seq![32u8] + hex_pair(b));
            }
        }
        i = i + 1;
    }
    r
}

/// The bytes in upper-case hexadecimal, two digits each, separated by spaces.
pub fn hex_preview(bytes: &[u8]) -> (r: String)
    ensures
        r@ == ascii_chars(hex_joined(bytes@)),
{
    let v = join_hex(bytes, bytes.len());
    assert(bytes@.take(bytes@.len() as int) =~= bytes@);
    ascii_string(&v)
}

/// `String::from_utf8_lossy`: the text of `bytes` with each ill-formed
/// sequence replaced by U+FFFD.
pub uninterp spec fn utf8_lossy(bytes: Seq<u8>) -> Seq<char>;

/// `String::from_utf8_lossy`. Claimed: the result is the named
/// `utf8_lossy` of the bytes, and it is their decoding when they are valid
/// UTF-8. How ill-formed sequences are replaced is not described.
#[verifier::external_body]
fn lossy_text(bytes: &[u8]) -> (r: String)
    ensures
        r@ == utf8_lossy(bytes@),
        valid_utf8(bytes@) ==> r@ == decode_utf8(bytes@),
{
    String::from_utf8_lossy(bytes).into_owned()
}

/// The seed report: a title, a rule, and the seed text.
pub fn seed_log_text(seed_string: &str) -> (r: String)
    ensures
        r@ == "Red5Sorcery Seed\n=================\n"@ + seed_string@ + "\n"@,
{
    let mut s = String::from_str("Red5Sorcery Seed\n=================\n");
    s.append(seed_string);
    s.append("\n");
    s
}

/// The header report: the bytes in hexadecimal and as (lossily decoded) text.
pub fn header_debug_text(header_bytes: &[u8]) -> (r: String)
    ensures
        r@ == "Red5Sorcery Header Debug\n==========================\nBytes (Hex):\n"@ + ascii_chars(
            hex_joined(header_bytes@),
        ) + "\n\nAs Text:\n"@ + utf8_lossy(header_bytes@) + "\n"@,
{
    let hex = hex_preview(header_bytes);
    let text = lossy_text(header_bytes);
    let mut s = String::from_str("Red5Sorcery Header Debug\n==========================\nBytes (Hex):\n");
    s.append(hex.as_str());
    s.append("\n\nAs Text:\n");
    s.append(text.as_str());
    s.append("\n");
    s
}

/// The text of a decimal number.
fn decimal_string(n: u64) -> (r: String)
    ensures
        r@ == ascii_chars(decimal_digits(n as nat)),
{
    let d = decimal_bytes(n);
    proof {
        lemma_decimal_digits(n as nat);
        assert forall|i: int| 0 <= i < d@.len() implies #[trigger] d@[i] < 128 by {
            assert(is_ascii_digit(d@[i]));
        }
    }
    ascii_string(&d)
}

/// The shuffle report: the context and the number of shuffled indices.
pub fn shuffle_debug_text(count: usize, context: &str) -> (r: String)
    ensures
        r@ == "Red5Sorcery Shuffle Debug\n===========================\nContext: "@ + context@
            + "\nShuffled Indices Count: "@ + ascii_chars(decimal_digits(count as nat))
            + "\nMinimum Required for Header: 800\n"@,
{
    let mut s = String::from_str("Red5Sorcery Shuffle Debug\n===========================\nContext: ");
    s.append(context);
    s.append("\nShuffled Indices Count: ");
    let n = decimal_string(count as u64);
    s.append(n.as_str());
    s.append("\nMinimum Required for Header: 800\n");
    s
}

/// How a byte is written in a report.
pub enum ByteStyle {
    Decimal,
    Binary,
    BitsLsbFirst,
}

pub open spec fn byte_style_text(style: ByteStyle, b: u8) -> Seq<u8> {
    match style {
        ByteStyle::Decimal => decimal_digits(b as nat),
        ByteStyle::Binary => binary8(b),
        ByteStyle::BitsLsbFirst => bits_lsb_line(b),
    }
}

fn style_bytes(style: &ByteStyle, b: u8) -> (r: Vec<u8>)
    ensures
        r@ == byte_style_text(*style, b),
        all_below_128(r@),
{
    match style {
        ByteStyle::Decimal => {
            let d = decimal_bytes(b as u64);
            proof {
                lemma_decimal_digits(b as nat);
                assert forall|i: int| 0 <= i < d@.len() implies #[trigger] d@[i] < 128 by {
                    assert(is_ascii_digit(d@[i]));
                }
            }
            d
        },
        ByteStyle::Binary => {
            let mut r: Vec<u8> = Vec::new();
            let mut i: u8 = 0;
            while i < 8
                invariant
                    i <= 8,
                    r@ == binary8(b).take(i as int),
                    all_below_128(r@),
                decreases 8 - i,
            {
                let sh: u8 = 7 - i;
                let bit: u8 = (b >> sh) & 1;
                assert(bit <= 1) by (bit_vector)
                    requires
                        bit == (b >> sh) & 1u8,
                ;
                r.push(48 + bit);
                i = i + 1;
                assert(r@ =~= binary8(b).take(i as int));
            }
            assert(binary8(b).take(8) =~= binary8(b));
            r
        },
        ByteStyle::BitsLsbFirst => {
            let mut r: Vec<u8> = Vec::new();
            let mut i: u8 = 0;
            while i < 8
                invariant
                    i <= 8,
                    r@ == bits_lsb_line(b).take(if i == 0 {
                        0
                    } else {
                        2 * i - 1
                    }),
                    all_below_128(r@),
                decreases 8 - i,
            {
                if i > 0 {
                    r.push(32u8);
                }
                let bit: u8 = (b >> i) & 1;
                assert(bit <= 1) by (bit_vector)
                    requires
                        bit == (b >> i) & 1u8,
                ;
                r.push(48 + bit);
                i = i + 1;
                assert(r@ =~= bits_lsb_line(b).take(2 * i - 1));
            }
            assert(bits_lsb_line(b).take(15) =~= bits_lsb_line(b));
            r
        },
    }
}

/// The first `n` bytes, each written in `style`, joined with `sep`.
fn join_styled(bytes: &[u8], n: usize, style: &ByteStyle, sep: u8) -> (r: Vec<u8>)
    requires
        n <= bytes@.len(),
        sep < 128,
    ensures
        r@ == joined(bytes@.take(n as int).map_values(|b: u8| byte_style_text(*style, b)), seq![sep]),
        all_below_128(r@),
{
    let mut r: Vec<u8> = Vec::new();
    let mut i: usize = 0;
    while i < n
        invariant
            n <= bytes@.len(),
            sep < 128,
            i <= n,
            r@ == joined(bytes@.take(i as int).map_values(|b: u8| byte_style_text(*style, b)), seq![sep]),
            all_below_128(r@),
        decreases n - i,
    {
        let b: u8 = bytes[i];
        let ghost before = r@;
        if i > 0 {
            r.push(sep);
        }
        let piece = style_bytes(style, b);
        push_bytes(&mut r, piece.as_slice());
        proof {
            let f = |b: u8| byte_style_text(*style, b);
            let s = bytes@.take(i + 1);
            assert(s.drop_last() =~= bytes@.take(i as int));
            assert(s.map_values(f).drop_last() =~= bytes@.take(i as int).map_values(f));
            assert(s.map_values(f).last() == piece@);
            if i == 0 {
                assert(r@ =~= piece@);
            } else {
                assert(r@ =~= before + seq![sep] + piece@);
            }
            assert forall|k: int| 0 <= k < r@.len() implies #[trigger] r@[k] < 128 by {
                if k < before.len() {
                    assert(r@[k] == before[k]);
                } else if i > 0 && k == before.len() {
                } else {
                    let off: int = if i > 0 { (before.len() + 1) as int } else { before.len() as int };
                    assert(r@[k] == piece@[k - off]);
                }
            }
        }
        i = i + 1;
    }
    r
}

fn visible_bytes(bytes: &[u8], n: usize, space_visible: bool) -> (r: Vec<u8>)
    requires
        n <= bytes@.len(),
    ensures
        r@ == visible_ascii(bytes@.take(n as int), space_visible),
        all_below_128(r@),
{
    let mut r: Vec<u8> = Vec::new();
    let mut i: usize = 0;
    while i < n
        invariant
            n <= bytes@.len(),
            i <= n,
            r@ == visible_ascii(bytes@.take(i as int), space_visible),
            all_below_128(r@),
        decreases n - i,
    {
        let b: u8 = bytes[i];
        if (33 <= b && b <= 126) || (space_visible && b == 32) {
            r.push(b);
        } else {
            r.push(46u8);
        }
        i = i + 1;
        assert(r@ =~= visible_ascii(bytes@.take(i as int), space_visible));
    }
    r
}

/// The report on the first 8 header bytes: in hexadecimal, in decimal, and
/// in binary one per line.
pub fn header_first8_debug_text(header_bytes: &[u8]) -> (r: String)
    requires
        header_bytes@.len() >= 8,
    ensures
        r@ == "Red5Sorcery Header First 8 Bytes\n==================================\nHex: "@
            + ascii_chars(hex_joined(header_bytes@.take(8))) + "\nDec: "@ + ascii_chars(
            joined(
                header_bytes@.take(8).map_values(|b: u8| byte_style_text(ByteStyle::Decimal, b)),
                seq![32u8],
            ),
        ) + "\nBin:\n"@ + ascii_chars(
            joined(
                header_bytes@.take(8).map_values(|b: u8| byte_style_text(ByteStyle::Binary, b)),
                seq![10u8],
            ),
        ) + "\n"@,
{
    let hex = join_hex(header_bytes, 8);
    let dec = join_styled(header_bytes, 8, &ByteStyle::Decimal, 32);
    let bin = join_styled(header_bytes, 8, &ByteStyle::Binary, 10);
    let mut s = String::from_str("Red5Sorcery Header First 8 Bytes\n==================================\nHex: ");
    s.append(ascii_string(&hex).as_str());
    s.append("\nDec: ");
    s.append(ascii_string(&dec).as_str());
    s.append("\nBin:\n");
    s.append(ascii_string(&bin).as_str());
    s.append("\n");
    s
}

/// The report on the 100-byte timestamp field: as (lossily decoded) text, as
/// visible ASCII, and in hexadecimal.
pub fn raw_timestamp_check_text(header: &[u8]) -> (r: String)
    requires
        header@.len() >= 100,
    ensures
        r@ == "Timestamp Field (First 100 bytes)\n===============================\nUTF-8 Preview: "@
            + utf8_lossy(header@.take(100)) + "\nVisible ASCII: "@ + ascii_chars(
            visible_ascii(header@.take(100), true),
        ) + "\nHex: "@ + ascii_chars(hex_joined(header@.take(100))) + "\n"@,
{
    let ts_raw: &[u8] = &header[0..100];
    assert(ts_raw@ =~= header@.take(100));
    let text = lossy_text(ts_raw);
    let visible = visible_bytes(header, 100, true);
    let hex = join_hex(header, 100);
    let mut s = String::from_str(
        "Timestamp Field (First 100 bytes)\n===============================\nUTF-8 Preview: ",
    );
    s.append(text.as_str());
    s.append("\nVisible ASCII: ");
    s.append(ascii_string(&visible).as_str());
    s.append("\nHex: ");
    s.append(ascii_string(&hex).as_str());
    s.append("\n");
    s
}

/// The bit-stream report: the bytes in hexadecimal, as visible ASCII, and
/// their bits least significant first, one byte per line.
pub fn bitstream_debug_text(label: &str, bytes: &[u8]) -> (r: String)
    ensures
        r@ == "Red5Sorcery Bitstream Debug: "@ + label@ + "\n==============================\nBytes (Hex): "@
            + ascii_chars(hex_joined(bytes@)) + "\nASCII Preview: "@ + ascii_chars(
            visible_ascii(bytes@, false),
        ) + "\nBits (LSB First):\n"@ + ascii_chars(
            joined(
                bytes@.map_values(|b: u8| byte_style_text(ByteStyle::BitsLsbFirst, b)),
                seq![10u8],
            ),
        ) + "\n"@,
{
    let n: usize = bytes.len();
    assert(bytes@.take(n as int) =~= bytes@);
    let hex = join_hex(bytes, n);
    let visible = visible_bytes(bytes, n, false);
    let bits = join_styled(bytes, n, &ByteStyle::BitsLsbFirst, 10);
    let mut s = String::from_str("Red5Sorcery Bitstream Debug: ");
    s.append(label);
    s.append("\n==============================\nBytes (Hex): ");
    s.append(ascii_string(&hex).as_str());
    s.append("\nASCII Preview: ");
    s.append(ascii_string(&visible).as_str());
    s.append("\nBits (LSB First):\n");
    s.append(ascii_string(&bits).as_str());
    s.append("\n");
    s
}

/// The file name of the bit-stream report: `Red5Sorcery_{label}_Bits.txt`.
pub fn bitstream_debug_file_name(label: &str) -> (r: String)
    ensures
        r@ == "Red5Sorcery_"@ + label@ + "_Bits.txt"@,
{
    let mut s = String::from_str("Red5Sorcery_");
    s.append(label);
    s.append("_Bits.txt");
    s
}

} // verus!
