//! Text helpers: UTF-8 validation, whitespace trimming, decimal numbers.
use vstd::prelude::*;
use vstd::utf8::{decode_utf8, encode_utf8, valid_utf8};

verus! {

/// Unicode `White_Space`, the whitespace that `str::trim` removes.
pub open spec fn is_white_space(c: char) -> bool {
    let u = c as u32;
    ||| 0x9 <= u <= 0xD
    ||| u == 0x20
    ||| u == 0x85
    ||| u == 0xA0
    ||| u == 0x1680
    ||| 0x2000 <= u <= 0x200A
    ||| u == 0x2028
    ||| u == 0x2029
    ||| u == 0x202F
    ||| u == 0x205F
    ||| u == 0x3000
}

/// `s` without its leading whitespace.
pub open spec fn trim_start_chars(s: Seq<char>) -> Seq<char>
    decreases s.len(),
{
    if s.len() > 0 && is_white_space(s[0]) {
        trim_start_chars(s.drop_first())
    } else {
        s
    }
}

/// `s` without its trailing whitespace.
pub open spec fn trim_end_chars(s: Seq<char>) -> Seq<char>
    decreases s.len(),
{
    if s.len() > 0 && is_white_space(s.last()) {
        trim_end_chars(s.drop_last())
    } else {
        s
    }
}

/// `s` without its leading and trailing whitespace.
pub open spec fn trim_chars(s: Seq<char>) -> Seq<char> {
    trim_end_chars(trim_start_chars(s))
}

/// `s` is empty or neither starts nor ends with whitespace.
pub open spec fn is_trimmed(s: Seq<char>) -> bool {
    s.len() == 0 || (!is_white_space(s[0]) && !is_white_space(s.last()))
}

proof fn lemma_trim_start_clean(s: Seq<char>)
    ensures
        trim_start_chars(s).len() == 0 || !is_white_space(trim_start_chars(s)[0]),
    decreases s.len(),
{
    if s.len() > 0 && is_white_space(s[0]) {
        lemma_trim_start_clean(s.drop_first());
    }
}

proof fn lemma_trim_end_prefix(s: Seq<char>)
    ensures
        trim_end_chars(s).len() <= s.len(),
        trim_end_chars(s) == s.take(trim_end_chars(s).len() as int),
        trim_end_chars(s).len() == 0 || !is_white_space(trim_end_chars(s).last()),
    decreases s.len(),
{
    if s.len() > 0 && is_white_space(s.last()) {
        lemma_trim_end_prefix(s.drop_last());
        let t = trim_end_chars(s.drop_last());
        assert(s.drop_last().take(t.len() as int) =~= s.take(t.len() as int));
    } else {
        assert(s.take(s.len() as int) =~= s);
    }
}

/// Trimming leaves text that neither starts nor ends with whitespace.
pub proof fn lemma_trim_is_trimmed(s: Seq<char>)
    ensures
        is_trimmed(trim_chars(s)),
{
    let z = trim_start_chars(s);
    lemma_trim_start_clean(s);
    lemma_trim_end_prefix(z);
    let y = trim_end_chars(z);
    if y.len() > 0 {
        assert(y[0] == z[0]);
    }
}

proof fn lemma_trim_end_whitespace_tail(t: Seq<char>, ws: Seq<char>)
    requires
        t.len() == 0 || !is_white_space(t.last()),
        forall|i: int| 0 <= i < ws.len() ==> is_white_space(#[trigger] ws[i]),
    ensures
        trim_end_chars(t + ws) == t,
    decreases ws.len(),
{
    if ws.len() == 0 {
        assert(t + ws =~= t);
        if t.len() > 0 {
        }
    } else {
        assert((t + ws).drop_last() =~= t + ws.drop_last());
        lemma_trim_end_whitespace_tail(t, ws.drop_last());
    }
}

proof fn lemma_trim_start_all_whitespace(ws: Seq<char>)
    requires
        forall|i: int| 0 <= i < ws.len() ==> is_white_space(#[trigger] ws[i]),
    ensures
        trim_start_chars(ws).len() == 0,
    decreases ws.len(),
{
    if ws.len() > 0 {
        lemma_trim_start_all_whitespace(ws.drop_first());
    }
}

/// Trimmed text followed by whitespace trims back to the text.
pub proof fn lemma_trim_padded(t: Seq<char>, ws: Seq<char>)
    requires
        is_trimmed(t),
        forall|i: int| 0 <= i < ws.len() ==> is_white_space(#[trigger] ws[i]),
    ensures
        trim_chars(t + ws) == t,
{
    if t.len() == 0 {
        assert(t + ws =~= ws);
        lemma_trim_start_all_whitespace(ws);
        assert(trim_end_chars(trim_start_chars(ws)) == trim_start_chars(ws));
        assert(trim_start_chars(ws) =~= t);
    } else {
        assert((t + ws)[0] == t[0]);
        lemma_trim_end_whitespace_tail(t, ws);
    }
}

proof fn lemma_trim_end_ws_suffix(s: Seq<char>, ws: Seq<char>)
    requires
        forall|i: int| 0 <= i < ws.len() ==> is_white_space(#[trigger] ws[i]),
    ensures
        trim_end_chars(s + ws) == trim_end_chars(s),
    decreases ws.len(),
{
    if ws.len() == 0 {
        assert(s + ws =~= s);
    } else {
        assert((s + ws).drop_last() =~= s + ws.drop_last());
        lemma_trim_end_ws_suffix(s, ws.drop_last());
    }
}

proof fn lemma_trim_start_concat(s: Seq<char>, ws: Seq<char>)
    requires
        forall|i: int| 0 <= i < ws.len() ==> is_white_space(#[trigger] ws[i]),
    ensures
        trim_start_chars(s).len() > 0 ==> trim_start_chars(s + ws) == trim_start_chars(s) + ws,
        trim_start_chars(s).len() == 0 ==> trim_start_chars(s + ws).len() == 0,
    decreases s.len(),
{
    if s.len() == 0 {
        assert(s + ws =~= ws);
        lemma_trim_start_all_whitespace(ws);
    } else if is_white_space(s[0]) {
        assert((s + ws)[0] == s[0]);
        assert((s + ws).drop_first() =~= s.drop_first() + ws);
        lemma_trim_start_concat(s.drop_first(), ws);
    } else {
        assert((s + ws)[0] == s[0]);
    }
}

/// Whitespace appended to a text does not change what the text trims to.
pub proof fn lemma_trim_ws_suffix(t: Seq<char>, ws: Seq<char>)
    requires
        forall|i: int| 0 <= i < ws.len() ==> is_white_space(#[trigger] ws[i]),
    ensures
        trim_chars(t + ws) == trim_chars(t),
{
    lemma_trim_start_concat(t, ws);
    let z = trim_start_chars(t);
    if z.len() > 0 {
        lemma_trim_end_ws_suffix(z, ws);
    } else {
        assert(trim_start_chars(t + ws) =~= z);
    }
}

/// Bytes below 128 are valid UTF-8, one character per byte.
pub proof fn lemma_ascii_valid_utf8(b: Seq<u8>)
    requires
        forall|i: int| 0 <= i < b.len() ==> #[trigger] b[i] < 128,
    ensures
        valid_utf8(b),
        decode_utf8(b) == b.map_values(|x: u8| x as char),
{
    let chars = b.map_values(|x: u8| x as char);
    assert(vstd::utf8::is_ascii_chars(chars));
    vstd::utf8::is_ascii_chars_encode_utf8(chars);
    assert(encode_utf8(chars) =~= b);
    vstd::utf8::encode_utf8_valid_utf8(chars);
    vstd::utf8::encode_utf8_decode_utf8(chars);
}

/// Every byte is ASCII.
pub open spec fn all_below_128(s: Seq<u8>) -> bool {
    forall|i: int| 0 <= i < s.len() ==> #[trigger] s[i] < 128
}

/// `str::from_utf8`: the text that `bytes` encode, when they are valid UTF-8.
#[verifier::external_body]
pub(crate) fn str_from_utf8(bytes: &[u8]) -> (r: Option<&str>)
    ensures
        r is Some <==> valid_utf8(bytes@),
        r matches Some(s) ==> s@ == decode_utf8(bytes@),
{
    std::str::from_utf8(bytes).ok()
}

/// `str::trim`: the text without leading and trailing Unicode whitespace.
#[verifier::external_body]
pub(crate) fn str_trim(s: &str) -> (r: &str)
    ensures
        r@ == trim_chars(s@),
{
    s.trim()
}

/// The ASCII decimal digits of `n`, most significant first, without leading zeros.
pub open spec fn decimal_digits(n: nat) -> Seq<u8>
    decreases n,
{
    if n < 10 {
        seq![(48 + n) as u8]
    } else {
        decimal_digits(n / 10).push((48 + n % 10) as u8)
    }
}

/// The decimal representation of `n`, as `n.to_string()` writes it.
pub fn decimal_bytes(n: u64) -> (r: Vec<u8>)
    ensures
        r@ == decimal_digits(n as nat),
    decreases n,
{
    if n < 10 {
        let mut v: Vec<u8> = Vec::new();
        v.push((48 + n) as u8);
        v
    } else {
        let mut v = decimal_bytes(n / 10);
        v.push((48 + n % 10) as u8);
        v
    }
}

pub open spec fn is_ascii_digit(b: u8) -> bool {
    48 <= b <= 57
}

pub open spec fn all_ascii_digits(s: Seq<u8>) -> bool {
    forall|i: int| 0 <= i < s.len() ==> is_ascii_digit(#[trigger] s[i])
}

/// The number written by the ASCII digits `s`, most significant first.
pub open spec fn digits_value(s: Seq<u8>) -> nat
    decreases s.len(),
{
    if s.len() == 0 {
        0
    } else {
        digits_value(s.drop_last()) * 10 + (s.last() - 48) as nat
    }
}

/// What `usize::from_str` accepts: an optional `+`, then one or more ASCII
/// digits whose value fits in a `usize`.
pub open spec fn parse_usize_spec(s: Seq<u8>) -> Option<nat> {
    let d = if s.len() > 0 && s[0] == 43 {
        s.drop_first()
    } else {
        s
    };
    if d.len() > 0 && all_ascii_digits(d) && digits_value(d) <= usize::MAX {
        Some(digits_value(d))
    } else {
        None
    }
}

/// Decimal digits are ASCII digits that read back as the number; there is
/// no leading zero, and a number below `10^20` has at most 20 digits.
pub proof fn lemma_decimal_digits(n: nat)
    ensures
        all_ascii_digits(decimal_digits(n)),
        digits_value(decimal_digits(n)) == n,
        decimal_digits(n).len() >= 1,
        n > 0 ==> decimal_digits(n)[0] != 48,
        n < 100_000_000_000_000_000_000 ==> decimal_digits(n).len() <= 20,
    decreases n,
{
    if n < 10 {
        assert(decimal_digits(n).drop_last() =~= Seq::<u8>::empty());
        assert(digits_value(Seq::<u8>::empty()) == 0);
    } else {
        lemma_decimal_digits(n / 10);
        let d = decimal_digits(n / 10);
        assert(decimal_digits(n).drop_last() =~= d);
        assert(digits_value(decimal_digits(n)) == digits_value(d) * 10 + n % 10);
        assert(n == (n / 10) * 10 + n % 10);
        assert(decimal_digits(n)[0] == d[0]);
        if n < 100_000_000_000_000_000_000 {
            if n / 10 >= 10_000_000_000_000_000_000 {
                assert(false);
            }
            lemma_decimal_len_bound(n / 10);
        }
    }
}

proof fn lemma_decimal_len_bound(n: nat)
    requires
        n < 10_000_000_000_000_000_000,
    ensures
        decimal_digits(n).len() <= 19,
{
    assert(pow10(19) == 10_000_000_000_000_000_000) by {
        reveal_with_fuel(pow10, 20);
    }
    lemma_decimal_len_pow(n, 19, 10_000_000_000_000_000_000);
}

proof fn lemma_decimal_len_pow(n: nat, k: nat, p: nat)
    requires
        n < p,
        k >= 1,
        p == pow10(k),
    ensures
        decimal_digits(n).len() <= k,
    decreases k,
{
    if n >= 10 {
        assert(k >= 2) by {
            if k == 1 {
                assert(pow10(1) == 10) by {
                    reveal_with_fuel(pow10, 2);
                }
            }
        }
        assert(pow10(k) == 10 * pow10((k - 1) as nat));
        assert(n / 10 < pow10((k - 1) as nat));
        lemma_decimal_len_pow(n / 10, (k - 1) as nat, pow10((k - 1) as nat));
    }
}

pub open spec fn pow10(k: nat) -> nat
    decreases k,
{
    if k == 0 {
        1
    } else {
        10 * pow10((k - 1) as nat)
    }
}

proof fn lemma_digits_value_grows(s: Seq<u8>, i: int, j: int)
    requires
        0 <= i <= j <= s.len(),
        all_ascii_digits(s),
    ensures
        digits_value(s.take(i)) <= digits_value(s.take(j)),
    decreases j - i,
{
    if i < j {
        lemma_digits_value_grows(s, i, j - 1);
        assert(s.take(j).drop_last() =~= s.take(j - 1));
    }
}

/// Parses the bytes `s[start..]` as `usize::from_str` would.
pub fn parse_usize(s: &[u8], start: usize) -> (r: Option<usize>)
    requires
        start <= s@.len(),
    ensures
        r matches Some(v) ==> parse_usize_spec(s@.skip(start as int)) == Some(v as nat),
        r is None ==> parse_usize_spec(s@.skip(start as int)) is None,
{
    let ghost t = s@.skip(start as int);
    let mut i: usize = start;
    if i < s.len() && s[i] == 43 {
        i = i + 1;
    }
    let ghost d = s@.skip(i as int);
    assert(d =~= (if t.len() > 0 && t[0] == 43 {
        t.drop_first()
    } else {
        t
    }));
    if i >= s.len() {
        return None;
    }
    let first: usize = i;
    let mut value: usize = 0;
    while i < s.len()
        invariant
            first <= i <= s@.len(),
            first < s@.len(),
            d == s@.skip(first as int),
            t == s@.skip(start as int),
            d == (if t.len() > 0 && t[0] == 43 {
                t.drop_first()
            } else {
                t
            }),
            all_ascii_digits(d.take(i - first)),
            value == digits_value(d.take(i - first)),
        decreases s@.len() - i,
    {
        let b: u8 = s[i];
        assert(d.take(i - first + 1).drop_last() =~= d.take(i - first));
        if b < 48 || b > 57 {
            assert(d[i - first] == b);
            assert(!is_ascii_digit(d[i - first]));
            assert(!all_ascii_digits(d));
            return None;
        }
        let next: Option<usize> = value.checked_mul(10);
        match next {
            None => {
                proof {
                    if all_ascii_digits(d) {
                        lemma_digits_value_grows(d, i - first + 1, d.len() as int);
                        assert(d.take(d.len() as int) =~= d);
                    }
                }
                return None;
            },
            Some(tens) => {
                let next2: Option<usize> = tens.checked_add((b - 48) as usize);
                match next2 {
                    None => {
                        proof {
                            if all_ascii_digits(d) {
                                lemma_digits_value_grows(d, i - first + 1, d.len() as int);
                                assert(d.take(d.len() as int) =~= d);
                            }
                        }
                        return None;
                    },
                    Some(v) => {
                        value = v;
                    },
                }
            },
        }
        i = i + 1;
    }
    assert(d.take(i - first) =~= d);
    Some(value)
}

} // verus!
