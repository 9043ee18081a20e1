//! The 400-byte header hidden in front of the payload: four 100-byte fields
//! (timestamp, author note, archive file name, payload size).
use vstd::prelude::*;
use vstd::string::StringSliceAdditionalSpecFns;
use vstd::utf8::{decode_utf8, encode_utf8, is_char_boundary, valid_utf8};

use crate::text::{
    all_ascii_digits, decimal_bytes, decimal_digits, is_ascii_digit, is_trimmed, is_white_space,
    lemma_ascii_valid_utf8, lemma_decimal_digits, lemma_trim_is_trimmed, lemma_trim_padded, lemma_trim_ws_suffix, parse_usize, parse_usize_spec,
    str_from_utf8, str_trim, trim_chars,
};

verus! {

/// `bytes` cut or padded to exactly 100 bytes: padded on the right with spaces
/// when `pad_right`, else on the left with ASCII zeros.
pub open spec fn padded_100(bytes: Seq<u8>, pad_right: bool) -> Seq<u8> {
    let b = if bytes.len() > 100 {
        bytes.take(100)
    } else {
        bytes
    };
    if pad_right {
        b + Seq::new((100 - b.len()) as nat, |i: int| 32u8)
    } else {
        Seq::new((100 - b.len()) as nat, |i: int| 48u8) + b
    }
}

fn pad_bytes(bytes: &[u8], pad_right: bool) -> (r: Vec<u8>)
    ensures
        r@ == padded_100(bytes@, pad_right),
{
    let n: usize = if bytes.len() > 100 {
        100
    } else {
        bytes.len()
    };
    let mut r: Vec<u8> = Vec::new();
    if !pad_right {
        let mut i: usize = 0;
        while i < 100 - n
            invariant
                n <= 100,
                i <= 100 - n,
                r@ == Seq::new(i as nat, |k: int| 48u8),
            decreases 100 - n - i,
        {
            r.push(48u8);
            i = i + 1;
            assert(r@ =~= Seq::new(i as nat, |k: int| 48u8));
        }
    }
    let ghost prefix = r@;
    let mut i: usize = 0;
    while i < n
        invariant
            n <= 100,
            n <= bytes@.len(),
            i <= n,
            r@ == prefix + bytes@.take(i as int),
        decreases n - i,
    {
        r.push(bytes[i]);
        i = i + 1;
        assert(r@ =~= prefix + bytes@.take(i as int));
    }
    if pad_right {
        let ghost body = r@;
        let mut i: usize = 0;
        while i < 100 - n
            invariant
                n <= 100,
                i <= 100 - n,
                r@ == body + Seq::new(i as nat, |k: int| 32u8),
            decreases 100 - n - i,
        {
            r.push(32u8);
            i = i + 1;
            assert(r@ =~= body + Seq::new(i as nat, |k: int| 32u8));
        }
    }
    proof {
        if bytes@.len() <= 100 {
            assert(bytes@.take(n as int) =~= bytes@);
        }
    }
    r
}

/// The bytes of `input`, cut or padded to 100 bytes: on the right with spaces
/// when `pad_right`, else on the left with ASCII zeros.
pub fn pad_to_100(input: &str, pad_right: bool) -> (r: Vec<u8>)
    ensures
        r@ == padded_100(input.spec_bytes(), pad_right),
{
    pad_bytes(input.as_bytes(), pad_right)
}

pub open spec fn is_iso_punctuation(b: u8) -> bool {
    b == 84 || b == 58 || b == 45 || b == 90 || b == 46
}

/// `s` without the characters `T`, `:`, `-`, `Z` and `.`.
pub open spec fn strip_iso_punctuation(s: Seq<u8>) -> Seq<u8>
    decreases s.len(),
{
    if s.len() == 0 {
        s
    } else if is_iso_punctuation(s.last()) {
        strip_iso_punctuation(s.drop_last())
    } else {
        strip_iso_punctuation(s.drop_last()).push(s.last())
    }
}

/// The first 14 bytes of an ISO 8601 timestamp stripped of its punctuation:
/// `YYYYMMDDHHMMSS`.
pub open spec fn compact_timestamp(iso: Seq<u8>) -> Seq<u8> {
    strip_iso_punctuation(iso).take(14)
}

/// Cutting a stripped ISO timestamp after 14 bytes falls on a character boundary.
pub open spec fn timestamp_compactable(iso: Seq<u8>) -> bool {
    &&& strip_iso_punctuation(iso).len() >= 14
    &&& is_char_boundary(strip_iso_punctuation(iso), 14)
}

/// The note stored when none (or only whitespace) was given.
pub open spec fn default_note() -> Seq<char> {
    "No author notes were provided."@
}

/// The author note as stored: trimmed, or the default note when that leaves nothing.
pub open spec fn note_text(note: Seq<char>) -> Seq<char> {
    if trim_chars(note).len() == 0 {
        default_note()
    } else {
        trim_chars(note)
    }
}

/// The header for a payload of `payload_len` bytes: the compact timestamp,
/// the note and the file name each padded with spaces, and the decimal
/// payload length padded with zeros, each field 100 bytes.
pub open spec fn header_spec(ts: Seq<u8>, note: Seq<char>, filename: Seq<char>, payload_len: nat) -> Seq<u8> {
    padded_100(ts, true) + padded_100(encode_utf8(note_text(note)), true) + padded_100(
        encode_utf8(filename),
        true,
    ) + padded_100(decimal_digits(payload_len), false)
}

fn strip_iso(iso: &[u8]) -> (r: Vec<u8>)
    ensures
        r@ == strip_iso_punctuation(iso@),
{
    let mut r: Vec<u8> = Vec::new();
    let mut i: usize = 0;
    while i < iso.len()
        invariant
            i <= iso@.len(),
            r@ == strip_iso_punctuation(iso@.take(i as int)),
        decreases iso@.len() - i,
    {
        let b: u8 = iso[i];
        assert(iso@.take(i + 1).drop_last() =~= iso@.take(i as int));
        if !(b == 84 || b == 58 || b == 45 || b == 90 || b == 46) {
            r.push(b);
        }
        i = i + 1;
    }
    assert(iso@.take(iso@.len() as int) =~= iso@);
    r
}

/// The shape of `Date.prototype.toISOString` for years 0 to 9999:
/// `YYYY-MM-DDTHH:MM:SS.sssZ`.
pub open spec fn is_iso_utc_text(iso: Seq<u8>) -> bool {
    &&& iso.len() == 24
    &&& iso[4] == 45u8
    &&& iso[7] == 45u8
    &&& iso[10] == 84u8
    &&& iso[13] == 58u8
    &&& iso[16] == 58u8
    &&& iso[19] == 46u8
    &&& iso[23] == 90u8
    &&& forall|i: int|
        0 <= i < 23 && i != 4 && i != 7 && i != 10 && i != 13 && i != 16 && i != 19
            ==> is_ascii_digit(#[trigger] iso[i])
}

/// The digits `YYYYMMDDHHMMSS` of an ISO 8601 UTC text.
pub open spec fn iso_digits(iso: Seq<u8>) -> Seq<u8> {
    seq![
        iso[0], iso[1], iso[2], iso[3], iso[5], iso[6], iso[8], iso[9], iso[11], iso[12], iso[14],
        iso[15], iso[17], iso[18],
    ]
}

/// A UTC time written as `YYYY-MM-DDTHH:MM:SS.sssZ` can be compacted, and
/// compacts to its digits up to the seconds, `YYYYMMDDHHMMSS`.
pub proof fn law_iso_timestamp_compacts(iso: Seq<u8>)
    requires
        is_iso_utc_text(iso),
    ensures
        timestamp_compactable(iso),
        compact_timestamp(iso) == iso_digits(iso),
{
    reveal_with_fuel(strip_iso_punctuation, 25);
    let d = seq![
        iso[0], iso[1], iso[2], iso[3], iso[5], iso[6], iso[8], iso[9], iso[11], iso[12], iso[14],
        iso[15], iso[17], iso[18], iso[20], iso[21], iso[22],
    ];
    assert forall|i: int| 0 <= i < 23 && i != 4 && i != 7 && i != 10 && i != 13 && i != 16 && i != 19
        implies !is_iso_punctuation(#[trigger] iso[i]) by {
        assert(is_ascii_digit(iso[i]));
    }
    assert(!is_iso_punctuation(iso[0]));
    assert(strip_iso_punctuation(iso) =~= d);
    assert forall|i: int| 0 <= i < d.len() implies #[trigger] d[i] < 128 by {
        assert(is_ascii_digit(d[i]));
    }
    lemma_ascii_valid_utf8(d);
    vstd::utf8::is_char_boundary_iff_not_is_continuation_byte(d, 14);
    assert(is_ascii_digit(d[14]));
    assert(compact_timestamp(iso) =~= iso_digits(iso));
}

/// Builds the 400-byte header for `base64_zip`: the UTC time `iso_timestamp`
/// (ISO 8601) as `YYYYMMDDHHMMSS`, the trimmed author note (or a default
/// note), the archive's file name, and the payload length in decimal.
pub fn build_header(iso_timestamp: &str, author_note: &str, zip_filename: &str, base64_zip: &[u8]) -> (r:
    Vec<u8>)
    requires
        timestamp_compactable(iso_timestamp.spec_bytes()),
    ensures
        r@ == header_spec(
            compact_timestamp(iso_timestamp.spec_bytes()),
            author_note@,
            zip_filename@,
            base64_zip@.len(),
        ),
{
    let cleaned: Vec<u8> = strip_iso(iso_timestamp.as_bytes());
    let compact: &[u8] = &cleaned.as_slice()[0..14];
    let timestamp_bytes: Vec<u8> = pad_bytes(compact, true);
    let trimmed: &str = str_trim(author_note);
    let cleaned_note: &str = if trimmed.is_empty() {
        "No author notes were provided."
    } else {
        trimmed
    };
    let author_note_bytes: Vec<u8> = pad_bytes(cleaned_note.as_bytes(), true);
    let filename_bytes: Vec<u8> = pad_bytes(zip_filename.as_bytes(), true);
    let digits: Vec<u8> = decimal_bytes(base64_zip.len() as u64);
    let payload_bytes: Vec<u8> = pad_bytes(digits.as_slice(), false);
    let mut header: Vec<u8> = timestamp_bytes;
    let mut rest: Vec<u8> = author_note_bytes;
    header.append(&mut rest);
    let mut rest: Vec<u8> = filename_bytes;
    header.append(&mut rest);
    let mut rest: Vec<u8> = payload_bytes;
    header.append(&mut rest);
    header
}

/// The fields read from a header.
pub struct HeaderFields {
    pub timestamp: String,
    pub author_note: String,
    pub filename: String,
    pub payload_size: usize,
}

/// What a header says, as text and numbers.
pub struct HeaderModel {
    pub timestamp: Seq<char>,
    pub author_note: Seq<char>,
    pub filename: Seq<char>,
    pub payload_size: nat,
}

impl View for HeaderFields {
    type V = HeaderModel;

    open spec fn view(&self) -> HeaderModel {
        HeaderModel {
            timestamp: self.timestamp@,
            author_note: self.author_note@,
            filename: self.filename@,
            payload_size: self.payload_size as nat,
        }
    }
}

/// The timestamp field: 14 ASCII digits followed by 86 spaces.
pub open spec fn timestamp_field_ok(f: Seq<u8>) -> bool {
    &&& f.len() == 100
    &&& forall|i: int| 0 <= i < 14 ==> is_ascii_digit(#[trigger] f[i])
    &&& forall|i: int| 14 <= i < 100 ==> #[trigger] f[i] == 32u8
}

/// `s` without its leading ASCII zeros.
pub open spec fn strip_zeros(s: Seq<u8>) -> Seq<u8>
    decreases s.len(),
{
    if s.len() > 0 && s[0] == 48 {
        strip_zeros(s.drop_first())
    } else {
        s
    }
}

/// The outcome of reading header `h`: its fields, or the message of the first
/// check it fails.
pub open spec fn parse_header_spec(h: Seq<u8>) -> Result<HeaderModel, Seq<char>> {
    let ts = h.subrange(0, 100);
    let note = h.subrange(100, 200);
    let name = h.subrange(200, 300);
    let size = h.subrange(300, 400);
    if h.len() != 400 {
        Err("Header must be exactly 400 bytes."@)
    } else if !valid_utf8(ts) {
        Err("Invalid UTF-8 in timestamp field"@)
    } else if !timestamp_field_ok(ts) {
        Err("Invalid timestamp format: expected 14 digits followed by 86 spaces."@)
    } else if !valid_utf8(note) {
        Err("Invalid UTF-8 in author note"@)
    } else if !valid_utf8(name) {
        Err("Invalid UTF-8 in filename"@)
    } else if trim_chars(decode_utf8(name)).len() == 0 {
        Err("Filename cannot be empty."@)
    } else if !valid_utf8(size) {
        Err("Invalid UTF-8 in payload size"@)
    } else if strip_zeros(size).len() == 0 {
        Err("Payload size is invalid or zero."@)
    } else {
        match parse_usize_spec(strip_zeros(size)) {
            None => Err("Payload size is not a valid number."@),
            Some(v) => if v == 0 {
                Err("Payload size must be greater than zero."@)
            } else {
                Ok(
                    HeaderModel {
                        timestamp: decode_utf8(h.subrange(0, 14)),
                        author_note: trim_chars(decode_utf8(note)),
                        filename: trim_chars(decode_utf8(name)),
                        payload_size: v,
                    },
                )
            },
        }
    }
}

/// Reads and checks the 400-byte header: a timestamp field of 14 digits and
/// 86 spaces, a UTF-8 author note and file name (trimmed, the name not empty),
/// and a positive decimal payload size padded with leading zeros.
pub fn parse_and_validate_header(header: &[u8]) -> (r: Result<HeaderFields, String>)
    ensures
        r matches Ok(f) ==> parse_header_spec(header@) == Ok::<HeaderModel, Seq<char>>(f@),
        r matches Err(e) ==> parse_header_spec(header@) == Err::<HeaderModel, Seq<char>>(e@),
{
    if header.len() != 400 {
        return Err("Header must be exactly 400 bytes.".to_string());
    }
    let timestamp_raw: &[u8] = &header[0..100];
    if str_from_utf8(timestamp_raw).is_none() {
        return Err("Invalid UTF-8 in timestamp field".to_string());
    }
    let mut i: usize = 0;
    let mut format_ok: bool = true;
    while i < 100
        invariant
            timestamp_raw@ == header@.subrange(0, 100),
            header@.len() == 400,
            i <= 100,
            format_ok == (forall|k: int|
                0 <= k < i ==> if k < 14 {
                    is_ascii_digit(#[trigger] timestamp_raw@[k])
                } else {
                    timestamp_raw@[k] == 32u8
                }),
        decreases 100 - i,
    {
        let b: u8 = timestamp_raw[i];
        let ok: bool = if i < 14 {
            48 <= b && b <= 57
        } else {
            b == 32
        };
        format_ok = format_ok && ok;
        i = i + 1;
    }
    if !format_ok {
        return Err("Invalid timestamp format: expected 14 digits followed by 86 spaces.".to_string());
    }
    proof {
        assert(forall|k: int| 0 <= k < 14 ==> is_ascii_digit(#[trigger] timestamp_raw@[k]));
        assert(forall|k: int| 14 <= k < 100 ==> #[trigger] timestamp_raw@[k] == 32u8);
        lemma_ascii_valid_utf8(header@.subrange(0, 14));
    }
    let timestamp: String = match str_from_utf8(&header[0..14]) {
        Some(t) => t.to_string(),
        None => {
            return Err("Invalid timestamp format: expected 14 digits followed by 86 spaces.".to_string());
        },
    };
    let author_note: String = match str_from_utf8(&header[100..200]) {
        Some(t) => str_trim(t).to_string(),
        None => {
            return Err("Invalid UTF-8 in author note".to_string());
        },
    };
    let filename_str: &str = match str_from_utf8(&header[200..300]) {
        Some(t) => str_trim(t),
        None => {
            return Err("Invalid UTF-8 in filename".to_string());
        },
    };
    if filename_str.is_empty() {
        return Err("Filename cannot be empty.".to_string());
    }
    let filename: String = filename_str.to_string();
    if str_from_utf8(&header[300..400]).is_none() {
        return Err("Invalid UTF-8 in payload size".to_string());
    }
    let mut k: usize = 300;
    while k < 400 && header[k] == 48
        invariant
            header@.len() == 400,
            300 <= k <= 400,
            strip_zeros(header@.subrange(300, 400)) == strip_zeros(header@.subrange(k as int, 400)),
        decreases 400 - k,
    {
        assert(header@.subrange(k as int, 400).drop_first() =~= header@.subrange(k + 1, 400));
        k = k + 1;
    }
    proof {
        if k < 400 {
            assert(header@.subrange(k as int, 400)[0] == header@[k as int]);
        }
        assert(header@.skip(k as int) =~= header@.subrange(k as int, 400));
    }
    if k == 400 {
        assert(header@.subrange(400, 400).len() == 0);
        return Err("Payload size is invalid or zero.".to_string());
    }
    let payload_size: usize = match parse_usize(header, k) {
        Some(v) => v,
        None => {
            return Err("Payload size is not a valid number.".to_string());
        },
    };
    if payload_size == 0 {
        return Err("Payload size must be greater than zero.".to_string());
    }
    Ok(HeaderFields { timestamp, author_note, filename, payload_size })
}

proof fn lemma_padded_len(b: Seq<u8>, pad_right: bool)
    ensures
        padded_100(b, pad_right).len() == 100,
{
}

/// Every header is 400 bytes long.
pub proof fn lemma_header_len(ts: Seq<u8>, note: Seq<char>, filename: Seq<char>, payload_len: nat)
    ensures
        header_spec(ts, note, filename, payload_len).len() == 400,
{
    lemma_padded_len(ts, true);
    lemma_padded_len(encode_utf8(note_text(note)), true);
    lemma_padded_len(encode_utf8(filename), true);
    lemma_padded_len(decimal_digits(payload_len), false);
}

/// Encoding a concatenation is concatenating the encodings.
proof fn lemma_encode_concat(a: Seq<char>, b: Seq<char>)
    ensures
        encode_utf8(a + b) == encode_utf8(a) + encode_utf8(b),
    decreases a.len(),
{
    if a.len() == 0 {
        assert(a + b =~= b);
        assert(encode_utf8(a) =~= Seq::<u8>::empty());
        assert(encode_utf8(a) + encode_utf8(b) =~= encode_utf8(b));
    } else {
        assert((a + b).drop_first() =~= a.drop_first() + b);
        lemma_encode_concat(a.drop_first(), b);
        assert(encode_utf8(a + b) =~= encode_utf8(a) + encode_utf8(b));
    }
}

/// A field holding the encoding of `t` followed by spaces decodes and trims
/// to what `t` trims to.
proof fn lemma_text_field(t: Seq<char>)
    requires
        encode_utf8(t).len() <= 100,
    ensures
        valid_utf8(padded_100(encode_utf8(t), true)),
        trim_chars(decode_utf8(padded_100(encode_utf8(t), true))) == trim_chars(t),
{
    let e = encode_utf8(t);
    let k = (100 - e.len()) as nat;
    let spaces = Seq::new(k, |i: int| ' ');
    assert(vstd::utf8::is_ascii_chars(spaces));
    vstd::utf8::is_ascii_chars_encode_utf8(spaces);
    assert(encode_utf8(spaces) =~= Seq::new(k, |i: int| 32u8));
    lemma_encode_concat(t, spaces);
    assert(padded_100(e, true) =~= encode_utf8(t + spaces));
    vstd::utf8::encode_utf8_valid_utf8(t + spaces);
    vstd::utf8::encode_utf8_decode_utf8(t + spaces);
    assert forall|i: int| 0 <= i < spaces.len() implies is_white_space(#[trigger] spaces[i]) by {
        assert(spaces[i] == ' ');
    }
    lemma_trim_ws_suffix(t, spaces);
}

proof fn lemma_strip_zeros_prefix(k: nat, d: Seq<u8>)
    ensures
        strip_zeros(Seq::new(k, |i: int| 48u8) + d) == strip_zeros(d),
    decreases k,
{
    if k > 0 {
        let z = Seq::new(k, |i: int| 48u8) + d;
        assert(z[0] == 48u8);
        assert(z.drop_first() =~= Seq::new((k - 1) as nat, |i: int| 48u8) + d);
        lemma_strip_zeros_prefix((k - 1) as nat, d);
    } else {
        assert(Seq::new(k, |i: int| 48u8) + d =~= d);
    }
}

/// A header read back gives what it was built from: the timestamp, the
/// stored note, the file name without surrounding whitespace, and the
/// payload length, as long as the timestamp is 14 digits, the note and file
/// name fit in their 100-byte fields, the file name is not only whitespace,
/// and the payload is not empty.
pub proof fn law_header_roundtrip(ts: Seq<u8>, note: Seq<char>, filename: Seq<char>, payload_len: nat)
    requires
        ts.len() == 14,
        all_ascii_digits(ts),
        encode_utf8(note_text(note)).len() <= 100,
        encode_utf8(filename).len() <= 100,
        trim_chars(filename).len() > 0,
        0 < payload_len <= usize::MAX,
    ensures
        parse_header_spec(header_spec(ts, note, filename, payload_len)) == Ok::<HeaderModel, Seq<char>>(
            HeaderModel {
                timestamp: ts.map_values(|b: u8| b as char),
                author_note: note_text(note),
                filename: trim_chars(filename),
                payload_size: payload_len,
            },
        ),
{
    let nt = note_text(note);
    let f1 = padded_100(ts, true);
    let f2 = padded_100(encode_utf8(nt), true);
    let f3 = padded_100(encode_utf8(filename), true);
    let d = decimal_digits(payload_len);
    let f4 = padded_100(d, false);
    let h = header_spec(ts, note, filename, payload_len);
    lemma_padded_len(ts, true);
    lemma_padded_len(encode_utf8(nt), true);
    lemma_padded_len(encode_utf8(filename), true);
    lemma_padded_len(d, false);
    assert(h.subrange(0, 100) =~= f1);
    assert(h.subrange(100, 200) =~= f2);
    assert(h.subrange(200, 300) =~= f3);
    assert(h.subrange(300, 400) =~= f4);
    // the timestamp field
    assert forall|i: int| 0 <= i < f1.len() implies #[trigger] f1[i] < 128 by {
        if i < 14 {
            assert(is_ascii_digit(ts[i]));
        }
    }
    lemma_ascii_valid_utf8(f1);
    assert(h.subrange(0, 14) =~= ts);
    assert forall|i: int| 0 <= i < ts.len() implies #[trigger] ts[i] < 128 by {
        assert(is_ascii_digit(ts[i]));
    }
    lemma_ascii_valid_utf8(ts);
    assert(timestamp_field_ok(f1)) by {
        assert forall|i: int| 0 <= i < 14 implies is_ascii_digit(#[trigger] f1[i]) by {
            assert(f1[i] == ts[i]);
        }
    }
    // the note field
    if trim_chars(note).len() == 0 {
        reveal_strlit("No author notes were provided.");
        assert(is_trimmed(nt));
    } else {
        lemma_trim_is_trimmed(note);
    }
    lemma_text_field(nt);
    assert(nt + Seq::<char>::empty() =~= nt);
    lemma_trim_padded(nt, Seq::<char>::empty());
    // the file name field
    lemma_text_field(filename);
    // the payload size field
    lemma_decimal_digits(payload_len);
    assert(d.len() <= 20);
    let zeros = Seq::new((100 - d.len()) as nat, |i: int| 48u8);
    assert(f4 =~= zeros + d);
    assert forall|i: int| 0 <= i < f4.len() implies #[trigger] f4[i] < 128 by {
        if i >= zeros.len() {
            assert(is_ascii_digit(d[i - zeros.len()]));
        }
    }
    lemma_ascii_valid_utf8(f4);
    lemma_strip_zeros_prefix((100 - d.len()) as nat, d);
    assert(strip_zeros(d) == d);
    assert(is_ascii_digit(d[0]));
    assert(parse_usize_spec(d) == Some(payload_len));
}

} // verus!
