//! Decoding of hexadecimal digests, as `u8::from_str_radix(.., 16)` reads
//! each two-byte slice of the text.

use crate::text::chars_of;
use vstd::prelude::*;

verus! {

/// Why a hexadecimal text could not be decoded.
#[derive(Clone, Copy, Debug, PartialEq, Eq, Structural)]
pub enum HexError {
    /// The text has an odd number of bytes.
    InvalidLength,
    /// A two-byte slice of the text is not a hexadecimal byte.
    InvalidDigit,
}

/// The number of bytes of `c` in UTF-8.
pub open spec fn utf8_width(c: char) -> nat {
    let u = c as u32;
    if u < 0x80 {
        1
    } else if u < 0x800 {
        2
    } else if u < 0x10000 {
        3
    } else {
        4
    }
}

/// The number of bytes of `s` in UTF-8.
pub open spec fn utf8_len(s: Seq<char>) -> nat
    decreases s.len(),
{
    if s.len() == 0 {
        0
    } else {
        utf8_len(s.drop_last()) + utf8_width(s.last())
    }
}

/// `c` is an ASCII character.
pub open spec fn is_ascii_char(c: char) -> bool {
    (c as u32) < 0x80
}

/// The value of a hexadecimal digit, either case.
pub open spec fn hex_digit_value(c: char) -> Option<nat> {
    let u = c as u32;
    if 48 <= u <= 57 {
        Some((u - 48) as nat)
    } else if 97 <= u <= 102 {
        Some((u - 87) as nat)
    } else if 65 <= u <= 70 {
        Some((u - 55) as nat)
    } else {
        None
    }
}

/// The byte that `u8::from_str_radix` reads from a two-character slice:
/// two digits, or a `+` sign followed by one digit.
pub open spec fn hex_pair(hi: char, lo: char) -> Option<u8> {
    if hi == '+' {
        match hex_digit_value(lo) {
            Some(d) => Some(d as u8),
            None => None,
        }
    } else {
        match (hex_digit_value(hi), hex_digit_value(lo)) {
            (Some(a), Some(b)) => Some((16 * a + b) as u8),
            _ => None,
        }
    }
}

/// The byte that the `p`-th pair of characters of `s` denotes.
pub open spec fn pair_at(s: Seq<char>, p: int) -> Option<u8> {
    hex_pair(s[2 * p], s[2 * p + 1])
}

/// What `hex_to_bytes` gives for the text `s`.
pub open spec fn hex_decoded(s: Seq<char>) -> Result<Seq<u8>, HexError> {
    if utf8_len(s) % 2 == 1 {
        Err(HexError::InvalidLength)
    } else if (forall|i: int| 0 <= i < s.len() ==> is_ascii_char(#[trigger] s[i])) && (forall|p: int|
        0 <= p < s.len() / 2 ==> #[trigger] pair_at(s, p) is Some) {
        Ok(Seq::new(s.len() / 2, |p: int| pair_at(s, p).unwrap()))
    } else {
        Err(HexError::InvalidDigit)
    }
}

/// Slicing `s` into two-byte pieces cuts a character in two before any
/// invalid pair is found: the first non-ASCII character starts at an odd
/// byte, or starts a pair and is longer than it, and every pair before it
/// is valid.
pub open spec fn hex_decoding_panics(s: Seq<char>) -> bool {
    &&& utf8_len(s) % 2 == 0
    &&& exists|c: int|
        0 <= c < s.len() && !is_ascii_char(#[trigger] s[c]) && (forall|i: int|
            0 <= i < c ==> is_ascii_char(s[i])) && (forall|p: int|
            0 <= p && 2 * p + 1 < c ==> #[trigger] pair_at(s, p) is Some) && (c % 2 == 1
            || utf8_width(s[c]) >= 3)
}

pub(crate) proof fn lemma_ascii_utf8_len(s: Seq<char>)
    requires
        forall|i: int| 0 <= i < s.len() ==> is_ascii_char(#[trigger] s[i]),
    ensures
        utf8_len(s) == s.len(),
    decreases s.len(),
{
    if s.len() > 0 {
        let t = s.drop_last();
        assert forall|i: int| 0 <= i < t.len() implies is_ascii_char(#[trigger] t[i]) by {
            assert(t[i] == s[i]);
        }
        lemma_ascii_utf8_len(t);
        assert(is_ascii_char(s[s.len() - 1]));
    }
}

fn width_of(c: char) -> (w: u32)
    ensures
        w == utf8_width(c),
{
    let u = c as u32;
    if u < 0x80 {
        1
    } else if u < 0x800 {
        2
    } else if u < 0x10000 {
        3
    } else {
        4
    }
}

fn digit_value(c: char) -> (d: Option<u8>)
    ensures
        d matches Some(v) ==> hex_digit_value(c) == Some(v as nat) && v < 16,
        d is None ==> hex_digit_value(c) is None,
{
    let u = c as u32;
    if 48 <= u && u <= 57 {
        Some((u - 48) as u8)
    } else if 97 <= u && u <= 102 {
        Some((u - 87) as u8)
    } else if 65 <= u && u <= 70 {
        Some((u - 55) as u8)
    } else {
        None
    }
}

fn decode_pair(hi: char, lo: char) -> (b: Option<u8>)
    ensures
        b == hex_pair(hi, lo),
{
    if hi == '+' {
        digit_value(lo)
    } else {
        match (digit_value(hi), digit_value(lo)) {
            (Some(a), Some(b)) => Some(16 * a + b),
            _ => None,
        }
    }
}

/// Whether the UTF-8 length of `s` is odd.
fn odd_utf8_len(s: &[char]) -> (odd: bool)
    ensures
        odd == (utf8_len(s@) % 2 == 1),
{
    let mut odd = false;
    for i in 0..s.len()
        invariant
            odd == (utf8_len(s@.take(i as int)) % 2 == 1),
    {
        if width_of(s[i]) % 2 == 1 {
            odd = !odd;
        }
        assert(s@.take(i + 1).drop_last() =~= s@.take(i as int));
    }
    assert(s@.take(s@.len() as int) =~= s@);
    odd
}

/// The index of the first non-ASCII character of `s`, or its length.
fn first_non_ascii(s: &[char]) -> (c: usize)
    ensures
        c <= s@.len(),
        forall|i: int| 0 <= i < c ==> is_ascii_char(#[trigger] s@[i]),
        c < s@.len() ==> !is_ascii_char(s@[c as int]),
{
    let mut c: usize = 0;
    while c < s.len() && (s[c] as u32) < 0x80
        invariant
            c <= s@.len(),
            forall|i: int| 0 <= i < c ==> is_ascii_char(#[trigger] s@[i]),
        decreases s@.len() - c,
    {
        c = c + 1;
    }
    c
}

/// Decodes a hexadecimal text two bytes at a time.
pub fn hex_to_bytes(hex: &str) -> (decoded: Result<Vec<u8>, HexError>)
    requires
        !hex_decoding_panics(hex@),
    ensures
        decoded matches Ok(v) ==> hex_decoded(hex@) == Ok::<Seq<u8>, HexError>(v@),
        decoded matches Err(e) ==> hex_decoded(hex@) == Err::<Seq<u8>, HexError>(e),
{
    let s = chars_of(hex);
    if odd_utf8_len(s.as_slice()) {
        return Err(HexError::InvalidLength);
    }
    let c = first_non_ascii(s.as_slice());
    if c < s.len() {
        return Err(HexError::InvalidDigit);
    }
    proof {
        lemma_ascii_utf8_len(s@);
    }
    let n = s.len() / 2;
    let mut out: Vec<u8> = Vec::with_capacity(n);
    for p in 0..n
        invariant
            n == s@.len() / 2,
            s@ == hex@,
            s@.len() % 2 == 0,
            utf8_len(s@) % 2 == 0,
            forall|i: int| 0 <= i < s@.len() ==> is_ascii_char(#[trigger] s@[i]),
            out@.len() == p,
            forall|q: int| 0 <= q < p ==> #[trigger] pair_at(s@, q) is Some,
            forall|q: int| 0 <= q < p ==> out@[q] == pair_at(s@, q).unwrap(),
    {
        match decode_pair(s[2 * p], s[2 * p + 1]) {
            Some(b) => out.push(b),
            None => {
                assert(pair_at(s@, p as int) is None);
                return Err(HexError::InvalidDigit);
            },
        }
    }
    assert(out@ =~= Seq::new(s@.len() / 2, |p: int| pair_at(s@, p).unwrap()));
    Ok(out)
}

/// Whether decoding `hex` two bytes at a time would slice a character in two.
pub fn hex_decoding_would_panic(hex: &str) -> (panics: bool)
    ensures
        panics == hex_decoding_panics(hex@),
{
    let s = chars_of(hex);
    if odd_utf8_len(s.as_slice()) {
        return false;
    }
    let c = first_non_ascii(s.as_slice());
    if c == s.len() {
        return false;
    }
    for p in 0..c / 2
        invariant
            s@ == hex@,
            c < s@.len(),
            forall|i: int| 0 <= i < c ==> is_ascii_char(#[trigger] s@[i]),
            !is_ascii_char(s@[c as int]),
            forall|q: int| 0 <= q < p ==> #[trigger] pair_at(s@, q) is Some,
    {
        if decode_pair(s[2 * p], s[2 * p + 1]).is_none() {
            proof {
                assert(pair_at(s@, p as int) is None);
                assert(2 * p + 1 < c);
                assert forall|c2: int|
                    0 <= c2 < s@.len() && !is_ascii_char(#[trigger] s@[c2]) && (forall|i: int|
                        0 <= i < c2 ==> is_ascii_char(s@[i])) implies !(forall|q: int|
                    0 <= q && 2 * q + 1 < c2 ==> #[trigger] pair_at(s@, q) is Some) by {
                    if c2 < c {
                    } else if c2 > c {
                        assert(is_ascii_char(s@[c as int]));
                    } else {
                        assert(2 * p + 1 < c2);
                        assert(!(pair_at(s@, p as int) is Some));
                    }
                }
            }
            return false;
        }
    }
    let panics = c % 2 == 1 || width_of(s[c]) >= 3;
    proof {
        if panics {
            assert(!is_ascii_char(s@[c as int]));
        } else {
            assert forall|c2: int|
                0 <= c2 < s@.len() && !is_ascii_char(#[trigger] s@[c2]) && (forall|i: int|
                    0 <= i < c2 ==> is_ascii_char(s@[i])) implies !(c2 % 2 == 1 || utf8_width(s@[c2])
                >= 3) by {
                if c2 < c {
                } else if c2 > c {
                    assert(is_ascii_char(s@[c as int]));
                }
            }
        }
    }
    panics
}

/// The lowercase hexadecimal digit for `d`, which is below sixteen.
pub open spec fn lower_hex_digit(d: nat) -> char {
    if d < 10 {
        (d + 48) as char
    } else {
        (d + 87) as char
    }
}

/// `bytes` written as lowercase hexadecimal, two digits per byte, as
/// `sha256sum` prints a digest.
pub open spec fn lower_hex(bytes: Seq<u8>) -> Seq<char> {
    Seq::new(
        2 * bytes.len(),
        |i: int|
            if i % 2 == 0 {
                lower_hex_digit((bytes[i / 2] / 16) as nat)
            } else {
                lower_hex_digit((bytes[i / 2] % 16) as nat)
            },
    )
}

/// Decoding lowercase hexadecimal gives back the bytes it was written from.
pub proof fn lemma_hex_roundtrip(bytes: Seq<u8>)
    ensures
        hex_decoded(lower_hex(bytes)) == Ok::<Seq<u8>, HexError>(bytes),
        !hex_decoding_panics(lower_hex(bytes)),
{
    let s = lower_hex(bytes);
    assert forall|i: int| 0 <= i < s.len() implies is_ascii_char(#[trigger] s[i]) by {}
    lemma_ascii_utf8_len(s);
    assert forall|p: int| 0 <= p < s.len() / 2 implies #[trigger] pair_at(s, p) == Some(bytes[p]) by {
        assert(s[2 * p] == lower_hex_digit((bytes[p] / 16) as nat));
        assert(s[2 * p + 1] == lower_hex_digit((bytes[p] % 16) as nat));
    }
    assert(Seq::new(s.len() / 2, |p: int| pair_at(s, p).unwrap()) =~= bytes);
}

} // verus!
