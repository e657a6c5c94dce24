//! The decisions of the `conduit://` protocol handler: invoke-key
//! validation, hex and percent decoding, name sanitising, channel-name
//! validation and the mapping of errors to HTTP status codes.

use subtle::ConstantTimeEq;
use vstd::prelude::*;
use vstd::string::StringSliceAdditionalSpecFns;
use vstd::string::StrSliceExecFns;
use vstd::utf8::{
    decode_utf8, encode_scalar, encode_utf8, encode_utf8_decode_utf8, is_ascii_chars,
    is_ascii_chars_encode_utf8, is_char_boundary, valid_utf8,
};

use crate::error::Error;

verus! {

/// The value of an ASCII hex digit, upper or lower case.
pub open spec fn hex_value(b: u8) -> Option<u8> {
    if 0x30 <= b <= 0x39 {
        Some((b - 0x30) as u8)
    } else if 0x61 <= b <= 0x66 {
        Some((b - 0x61 + 10) as u8)
    } else if 0x41 <= b <= 0x46 {
        Some((b - 0x41 + 10) as u8)
    } else {
        None
    }
}

/// Convert a single ASCII hex character to its 4-bit value.
pub fn hex_digit(b: u8) -> (r: Option<u8>)
    ensures
        r == hex_value(b),
{
    if b >= 0x30 && b <= 0x39 {
        Some(b - 0x30)
    } else if b >= 0x61 && b <= 0x66 {
        Some(b - 0x61 + 10)
    } else if b >= 0x41 && b <= 0x46 {
        Some(b - 0x41 + 10)
    } else {
        None
    }
}

/// Convert a single ASCII hex character to its 4-bit value, for URL
/// percent-decoding (not constant-time; no secret flows through it).
pub fn hex_val(b: u8) -> (r: Option<u8>)
    ensures
        r == hex_value(b),
{
    hex_digit(b)
}

/// `((!x) & (x - n)) >> 15` has its low bit set exactly when `0 <= x < n`.
proof fn lemma_range_mask(x: i16, n: i16)
    by (bit_vector)
    requires
        -0x100 <= x <= 0x100,
        0 < n <= 10,
    ensures
        ((((!x) & ((x - n) as i16)) >> 15) & 1) == (if 0 <= x && x < n { 1i16 } else { 0i16 }),
{
}

/// Masking facts used by the constant-time hex digit decoder.
proof fn lemma_select_bytes(x: u8)
    by (bit_vector)
    ensures
        x & 0xff == x,
        x & 0 == 0,
        x < 16 ==> x & 0x0f == x,
{
}

/// Constant-time hex digit decode for security-critical paths.
///
/// Returns `(value, valid)` where `valid` is `1` if the byte is a hex digit
/// and `0` otherwise; when invalid, `value` is `0`. All operations are
/// bitwise or arithmetic: there are no data-dependent branches.
pub fn hex_digit_ct(b: u8) -> (r: (u8, u8))
    ensures
        r.1 == (if hex_value(b) is Some { 1u8 } else { 0u8 }),
        r.0 == (match hex_value(b) {
            Some(v) => v,
            None => 0u8,
        }),
{
    let bi = b as i16;

    // Is b in '0'..='9' (0x30..=0x39)?
    let d = bi.wrapping_sub(0x30);
    let dm = ((!d) & (d.wrapping_sub(10))) >> 15;
    let digit_mask = (dm & 1) as u8;

    // Is b in 'a'..='f' (0x61..=0x66)?
    let l = bi.wrapping_sub(0x61);
    let lm = ((!l) & (l.wrapping_sub(6))) >> 15;
    let lower_mask = (lm & 1) as u8;

    // Is b in 'A'..='F' (0x41..=0x46)?
    let u = bi.wrapping_sub(0x41);
    let um = ((!u) & (u.wrapping_sub(6))) >> 15;
    let upper_mask = (um & 1) as u8;

    let dsel = 0u8.wrapping_sub(digit_mask);
    let lsel = 0u8.wrapping_sub(lower_mask);
    let usel = 0u8.wrapping_sub(upper_mask);
    let dv = (d as u8) & 0x0f;
    let lv = (l as u8).wrapping_add(10);
    let uv = (u as u8).wrapping_add(10);
    let val = (dv & dsel).wrapping_add(lv & lsel).wrapping_add(uv & usel);
    let valid = digit_mask | lower_mask | upper_mask;
    proof {
        assert(d == bi - 0x30);
        assert(l == bi - 0x61);
        assert(u == bi - 0x41);
        lemma_range_mask(d, 10);
        lemma_range_mask(l, 6);
        lemma_range_mask(u, 6);
        assert(d.wrapping_sub(10) == (d - 10) as i16);
        assert(l.wrapping_sub(6) == (l - 6) as i16);
        assert(u.wrapping_sub(6) == (u - 6) as i16);
        lemma_select_bytes(dv);
        lemma_select_bytes(lv);
        lemma_select_bytes(uv);
        lemma_select_bytes(d as u8);
        assert(digit_mask | 0 == digit_mask && 0 | lower_mask == lower_mask && 0u8 | 0u8 == 0u8
            && 1u8 | 0u8 == 1u8 && 0u8 | 1u8 == 1u8) by (bit_vector);
        if 0 <= d < 10 {
            assert((d as u8) == d);
        }
        if 0 <= l < 6 {
            assert((l as u8) == l);
        }
        if 0 <= u < 6 {
            assert((u as u8) == u);
        }
    }
    (val, valid)
}

/// `(hi << 4) | lo` is the byte with high nibble `hi` and low nibble `lo`.
proof fn lemma_nibbles(hi: u8, lo: u8)
    by (bit_vector)
    requires
        hi < 16,
        lo < 16,
    ensures
        ((hi << 4u8) | lo) == hi * 16 + lo,
{
}

/// The bytes that a hex text spells, two digits per byte with the high
/// nibble first: none when its length is odd or a character is not a hex
/// digit.
pub open spec fn hex_bytes_value(s: Seq<u8>) -> Option<Seq<u8>> {
    if s.len() % 2 == 0 && forall|i: int| 0 <= i < s.len() ==> #[trigger] hex_value(s[i]) is Some {
        Some(
            Seq::new(
                (s.len() / 2) as nat,
                |i: int| (hex_value(s[2 * i])->0 * 16 + hex_value(s[2 * i + 1])->0) as u8,
            ),
        )
    } else {
        None
    }
}

/// The lower-case hex digit of a nibble.
pub open spec fn nibble_char(n: u8) -> char {
    if n < 10 {
        ((0x30 + n) as u8) as char
    } else {
        ((0x57 + n) as u8) as char
    }
}

/// The lower-case hex text of `bytes`, two digits per byte.
pub open spec fn hex_text(bytes: Seq<u8>) -> Seq<char>
    decreases bytes.len(),
{
    if bytes.len() == 0 {
        Seq::empty()
    } else {
        hex_text(bytes.drop_last()) + seq![
            nibble_char(bytes.last() / 16),
            nibble_char(bytes.last() % 16),
        ]
    }
}

/// The lower-case hex digit of a nibble.
fn nibble_to_char(n: u8) -> (c: char)
    requires
        n < 16,
    ensures
        c == nibble_char(n),
{
    if n < 10 {
        (0x30u8 + n) as char
    } else {
        (0x57u8 + n) as char
    }
}

/// Hex-encode a byte slice in lower case.
pub fn hex_encode(bytes: &[u8]) -> (hex: String)
    ensures
        hex@ == hex_text(bytes@),
{
    let mut hex = String::new();
    let mut i: usize = 0;
    while i < bytes.len()
        invariant
            i <= bytes@.len(),
            hex@ == hex_text(bytes@.take(i as int)),
        decreases bytes@.len() - i,
    {
        let b = bytes[i];
        hex.push(nibble_to_char(b / 16));
        hex.push(nibble_to_char(b % 16));
        i = i + 1;
        proof {
            assert(bytes@.take(i as int).drop_last() =~= bytes@.take(i - 1));
            assert(hex@ =~= hex_text(bytes@.take(i as int)));
        }
    }
    assert(bytes@.take(bytes@.len() as int) =~= bytes@);
    hex
}

/// Hex-decode a string into bytes: `None` when its length is odd or a
/// character is not a hex digit. Not constant-time; see
/// [`validate_invoke_key_ct`] for the security-critical path.
pub fn hex_decode(hex: &str) -> (r: Option<Vec<u8>>)
    ensures
        r matches Some(v) ==> hex_bytes_value(hex.spec_bytes()) == Some(v@),
        r is None ==> hex_bytes_value(hex.spec_bytes()) is None,
{
    let s = hex.as_bytes();
    if s.len() % 2 != 0 {
        return None;
    }
    let n = s.len() / 2;
    let mut bytes: Vec<u8> = Vec::with_capacity(n);
    let mut i: usize = 0;
    while i < n
        invariant
            s@ == hex.spec_bytes(),
            s@.len() == 2 * n,
            i <= n,
            bytes@.len() == i,
            forall|j: int| 0 <= j < 2 * i ==> #[trigger] hex_value(s@[j]) is Some,
            forall|j: int|
                0 <= j < i ==> bytes@[j] == (hex_value(s@[2 * j])->0 * 16 + hex_value(
                    s@[2 * j + 1],
                )->0) as u8,
        decreases n - i,
    {
        let hi = match hex_digit(s[2 * i]) {
            Some(v) => v,
            None => return None,
        };
        let lo = match hex_digit(s[2 * i + 1]) {
            Some(v) => v,
            None => return None,
        };
        proof {
            lemma_nibbles(hi, lo);
        }
        bytes.push((hi << 4) | lo);
        i = i + 1;
    }
    proof {
        assert(bytes@ =~= hex_bytes_value(s@)->0);
    }
    Some(bytes)
}

/// A lower-case hex digit: `0`..`9` or `a`..`f`.
pub open spec fn lower_hex_digit(b: u8) -> bool {
    (0x30 <= b <= 0x39) || (0x61 <= b <= 0x66)
}

/// A nibble's hex digit is ASCII and reads back as the nibble.
proof fn lemma_nibble_char(n: u8)
    requires
        n < 16,
    ensures
        '\0' <= nibble_char(n) <= '\u{7f}',
        lower_hex_digit(nibble_char(n) as u8),
        hex_value(nibble_char(n) as u8) == Some(n),
{
    if n < 10 {
        assert(nibble_char(n) as u8 == 0x30 + n);
    } else {
        assert(nibble_char(n) as u8 == 0x57 + n);
    }
}

/// The characters of `hex_text(bytes)`: at `2i` the high nibble of byte
/// `i`, at `2i + 1` its low nibble.
proof fn lemma_hex_text_chars(bytes: Seq<u8>)
    ensures
        hex_text(bytes).len() == 2 * bytes.len(),
        forall|j: int|
            0 <= j < hex_text(bytes).len() ==> #[trigger] hex_text(bytes)[j] == nibble_char(
                if j % 2 == 0 {
                    bytes[j / 2] / 16
                } else {
                    bytes[j / 2] % 16
                },
            ),
    decreases bytes.len(),
{
    if bytes.len() > 0 {
        let prefix = bytes.drop_last();
        lemma_hex_text_chars(prefix);
        assert forall|j: int| 0 <= j < hex_text(bytes).len() implies #[trigger] hex_text(bytes)[j]
            == nibble_char(
            if j % 2 == 0 {
                bytes[j / 2] / 16
            } else {
                bytes[j / 2] % 16
            },
        ) by {
            if j < hex_text(prefix).len() {
                assert(hex_text(bytes)[j] == hex_text(prefix)[j]);
                assert(prefix[j / 2] == bytes[j / 2]);
            }
        }
    }
}

/// Hex-decoding the hex text of any bytes gives the bytes back; the text
/// has two characters, and two bytes, per byte, each a lower-case hex digit.
pub proof fn lemma_hex_roundtrip(bytes: Seq<u8>)
    ensures
        encode_utf8(hex_text(bytes)).len() == 2 * bytes.len(),
        forall|j: int|
            0 <= j < encode_utf8(hex_text(bytes)).len() ==> lower_hex_digit(
                #[trigger] encode_utf8(hex_text(bytes))[j],
            ),
        hex_bytes_value(encode_utf8(hex_text(bytes))) == Some(bytes),
{
    let t = hex_text(bytes);
    lemma_hex_text_chars(bytes);
    assert forall|j: int| 0 <= j < t.len() implies '\0' <= #[trigger] t[j] <= '\u{7f}' by {
        if j % 2 == 0 {
            lemma_nibble_char(bytes[j / 2] / 16);
        } else {
            lemma_nibble_char(bytes[j / 2] % 16);
        }
    }
    assert(is_ascii_chars(t));
    is_ascii_chars_encode_utf8(t);
    let s = encode_utf8(t);
    assert forall|j: int| 0 <= j < s.len() implies #[trigger] hex_value(s[j]) == Some(
        if j % 2 == 0 {
            bytes[j / 2] / 16
        } else {
            bytes[j / 2] % 16
        },
    ) && lower_hex_digit(s[j]) by {
        assert(s[j] == t[j] as u8);
        if j % 2 == 0 {
            lemma_nibble_char(bytes[j / 2] / 16);
        } else {
            lemma_nibble_char(bytes[j / 2] % 16);
        }
    }
    assert forall|i: int| 0 <= i < s.len() implies #[trigger] hex_value(s[i]) is Some by {
        assert(hex_value(s[i]) is Some);
    }
    let decoded = hex_bytes_value(s)->0;
    assert forall|i: int| 0 <= i < bytes.len() implies decoded[i] == bytes[i] by {
        assert(hex_value(s[2 * i]) == Some(bytes[i] / 16));
        assert(hex_value(s[2 * i + 1]) == Some(bytes[i] % 16));
    }
    assert(decoded =~= bytes);
}

/// The ASCII upper-case form of a byte, as `str::to_uppercase` gives it for
/// ASCII text: `a`..`z` become `A`..`Z`, every other byte stays.
pub open spec fn ascii_upper(b: u8) -> u8 {
    if 0x61 <= b <= 0x7a {
        (b - 0x20) as u8
    } else {
        b
    }
}

/// The ASCII upper-case form of a byte string.
pub open spec fn ascii_upper_bytes(s: Seq<u8>) -> Seq<u8> {
    s.map_values(|b: u8| ascii_upper(b))
}

/// Hex-decoding does not depend on the case of the letters: a text and its
/// upper-case form spell the same bytes, or both spell none.
pub proof fn lemma_hex_decode_ignores_case(s: Seq<u8>)
    ensures
        hex_bytes_value(ascii_upper_bytes(s)) == hex_bytes_value(s),
{
    let u = ascii_upper_bytes(s);
    assert forall|i: int| 0 <= i < s.len() implies #[trigger] hex_value(u[i]) == hex_value(s[i]) by {
        assert(u[i] == ascii_upper(s[i]));
    }
    if s.len() % 2 == 0 && forall|i: int| 0 <= i < s.len() ==> #[trigger] hex_value(s[i]) is Some {
        assert forall|i: int| 0 <= i < u.len() implies #[trigger] hex_value(u[i]) is Some by {
            assert(hex_value(u[i]) == hex_value(s[i]));
        }
        assert forall|i: int| 0 <= i < s.len() / 2 implies hex_bytes_value(u)->0[i]
            == hex_bytes_value(s)->0[i] by {
            assert(hex_value(u[2 * i]) == hex_value(s[2 * i]));
            assert(hex_value(u[2 * i + 1]) == hex_value(s[2 * i + 1]));
        }
        assert(hex_bytes_value(u)->0 =~= hex_bytes_value(s)->0);
    } else if s.len() % 2 == 0 {
        let k = choose|i: int| 0 <= i < s.len() && !(#[trigger] hex_value(s[i]) is Some);
        assert(hex_value(u[k]) == hex_value(s[k]));
    }
}

/// The hex text of any bytes, in lower or in upper case, decodes to the
/// bytes.
pub proof fn lemma_hex_roundtrip_any_case(bytes: Seq<u8>)
    ensures
        hex_bytes_value(encode_utf8(hex_text(bytes))) == Some(bytes),
        hex_bytes_value(ascii_upper_bytes(encode_utf8(hex_text(bytes)))) == Some(bytes),
{
    lemma_hex_roundtrip(bytes);
    lemma_hex_decode_ignores_case(encode_utf8(hex_text(bytes)));
}

/// Compares two byte strings without data-dependent timing.
///
/// Trusted: wraps `subtle::ConstantTimeEq::ct_eq` on byte slices, which
/// yields 1 exactly when the slices have the same length and the same bytes,
/// converted to `bool`.
#[verifier::external_body]
fn bytes_ct_eq(a: &[u8], b: &[u8]) -> (r: bool)
    ensures
        r == (a@ == b@),
{
    a.ct_eq(b).into()
}

/// The bitwise AND of two flags that are each 0 or 1.
proof fn lemma_flag_and(a: u8, b: u8)
    by (bit_vector)
    requires
        a == 0 || a == 1,
        b == 0 || b == 1,
    ensures
        (a & b) == (if a == 1 && b == 1 { 1u8 } else { 0u8 }),
{
}

/// Validate an invoke key candidate using constant-time operations.
///
/// The candidate must be exactly 64 hex characters (upper or lower case)
/// spelling the 32 expected bytes. The length check is not constant-time
/// (the length is public); the hex decode and the comparison are: no early
/// exit on an invalid character, and the comparison always runs.
pub fn validate_invoke_key_ct(expected: &[u8; 32], candidate: &str) -> (ok: bool)
    ensures
        ok == (candidate.spec_bytes().len() == 64 && hex_bytes_value(candidate.spec_bytes())
            == Some(expected@)),
{
    let candidate_bytes = candidate.as_bytes();
    if candidate_bytes.len() != 64 {
        return false;
    }
    let mut decoded: Vec<u8> = Vec::with_capacity(32);
    let mut all_valid: u8 = 1;
    let mut i: usize = 0;
    while i < 32
        invariant
            candidate_bytes@.len() == 64,
            i <= 32,
            decoded@.len() == i,
            all_valid == (if forall|j: int| 0 <= j < 2 * i ==> #[trigger] hex_value(
                candidate_bytes@[j],
            ) is Some {
                1u8
            } else {
                0u8
            }),
            forall|j: int|
                0 <= j < i && hex_value(candidate_bytes@[2 * j]) is Some && hex_value(
                    candidate_bytes@[2 * j + 1],
                ) is Some ==> decoded@[j] == (hex_value(candidate_bytes@[2 * j])->0 * 16
                    + hex_value(candidate_bytes@[2 * j + 1])->0) as u8,
        decreases 32 - i,
    {
        let (hi_val, hi_ok) = hex_digit_ct(candidate_bytes[i * 2]);
        let (lo_val, lo_ok) = hex_digit_ct(candidate_bytes[i * 2 + 1]);
        proof {
            lemma_nibbles(hi_val, lo_val);
            lemma_flag_and(hi_ok, lo_ok);
            lemma_flag_and(all_valid, hi_ok & lo_ok);
        }
        decoded.push((hi_val << 4) | lo_val);
        let ghost prev = forall|j: int| 0 <= j < 2 * i ==> #[trigger] hex_value(candidate_bytes@[j]) is Some;
        all_valid = all_valid & (hi_ok & lo_ok);
        i = i + 1;
        proof {
            let now = forall|j: int| 0 <= j < 2 * i ==> #[trigger] hex_value(candidate_bytes@[j]) is Some;
            if now {
                assert(hex_value(candidate_bytes@[2 * (i - 1)]) is Some);
                assert(hex_value(candidate_bytes@[2 * (i - 1) + 1]) is Some);
            }
            if prev && hi_ok == 1 && lo_ok == 1 {
                assert forall|j: int| 0 <= j < 2 * i implies #[trigger] hex_value(candidate_bytes@[j]) is Some by {
                    if j >= 2 * (i - 1) {
                        assert(j == 2 * (i - 1) || j == 2 * (i - 1) + 1);
                    }
                }
            }
        }
    }
    let keys_equal = bytes_ct_eq(expected.as_slice(), decoded.as_slice());
    proof {
        let all = forall|j: int| 0 <= j < 64 ==> #[trigger] hex_value(candidate_bytes@[j]) is Some;
        if all {
            assert(hex_bytes_value(candidate_bytes@)->0 =~= decoded@);
        }
    }
    // Combine without short-circuiting: both flags always take part.
    let keys_flag: u8 = if keys_equal { 1 } else { 0 };
    proof {
        lemma_flag_and(all_valid, keys_flag);
    }
    (all_valid & keys_flag) == 1
}

// ---------------------------------------------------------------------------
// Percent-decoding of URL path segments
// ---------------------------------------------------------------------------

/// The bytes of a URL path segment after percent-decoding: each `%XX` with
/// two hex digits becomes the byte they spell; every other byte, a `%`
/// without two hex digits after it included, stays as it is.
pub open spec fn percent_bytes(s: Seq<u8>) -> Seq<u8>
    decreases s.len(),
{
    if s.len() == 0 {
        Seq::empty()
    } else if s[0] == 0x25 && 2 < s.len() && hex_value(s[1]) is Some && hex_value(s[2]) is Some {
        seq![(hex_value(s[1])->0 * 16 + hex_value(s[2])->0) as u8] + percent_bytes(s.skip(3))
    } else {
        seq![s[0]] + percent_bytes(s.skip(1))
    }
}

/// The characters that `String::from_utf8_lossy` makes of `bytes`: their
/// UTF-8 decoding, with U+FFFD for each invalid sequence.
pub uninterp spec fn utf8_lossy(bytes: Seq<u8>) -> Seq<char>;

/// The string that `bytes` spell, invalid sequences replaced.
///
/// Trusted: wraps `String::from_utf8_lossy`, whose result depends on the
/// bytes alone and is their decoding when they are valid UTF-8; how invalid
/// sequences are replaced is not stated.
#[verifier::external_body]
fn string_from_utf8_lossy(bytes: &[u8]) -> (s: String)
    ensures
        s@ == utf8_lossy(bytes@),
        valid_utf8(bytes@) ==> s@ == decode_utf8(bytes@),
{
    String::from_utf8_lossy(bytes).into_owned()
}

/// Percent-decode a URL path segment (e.g. `hello%20world` → `hello world`).
///
/// Only `%XX` sequences with two valid hex digits are decoded; all other
/// bytes pass through unchanged. The decoded bytes are read as UTF-8, with
/// invalid sequences replaced.
pub fn percent_decode(input: &str) -> (r: String)
    ensures
        r@ == utf8_lossy(percent_bytes(input.spec_bytes())),
        valid_utf8(percent_bytes(input.spec_bytes())) ==> r@ == decode_utf8(
            percent_bytes(input.spec_bytes()),
        ),
{
    let bytes = input.as_bytes();
    let mut result: Vec<u8> = Vec::with_capacity(bytes.len());
    let mut i: usize = 0;
    assert(bytes@.skip(0) =~= bytes@);
    assert(result@ + percent_bytes(bytes@) =~= percent_bytes(bytes@));
    while i < bytes.len()
        invariant
            i <= bytes@.len(),
            percent_bytes(bytes@) == result@ + percent_bytes(bytes@.skip(i as int)),
        decreases bytes@.len() - i,
    {
        let ghost rest = bytes@.skip(i as int);
        if bytes[i] == 0x25 && bytes.len() - i > 2 {
            let hi = hex_val(bytes[i + 1]);
            let lo = hex_val(bytes[i + 2]);
            if let (Some(h), Some(l)) = (hi, lo) {
                proof {
                    lemma_nibbles(h, l);
                    assert(rest.skip(3) =~= bytes@.skip(i + 3));
                }
                result.push((h << 4) | l);
                i = i + 3;
                assert(percent_bytes(bytes@) =~= result@ + percent_bytes(bytes@.skip(i as int)));
                continue;
            }
        }
        proof {
            assert(rest.skip(1) =~= bytes@.skip(i + 1));
        }
        result.push(bytes[i]);
        i = i + 1;
        assert(percent_bytes(bytes@) =~= result@ + percent_bytes(bytes@.skip(i as int)));
    }
    proof {
        assert(bytes@.skip(bytes@.len() as int) =~= Seq::<u8>::empty());
        assert(result@ + Seq::<u8>::empty() =~= result@);
    }
    string_from_utf8_lossy(result.as_slice())
}

/// The hex digits: `0`..`9` stand for 0 to 9, `a`..`f` and `A`..`F` for 10
/// to 15, and no other byte is a hex digit.
pub proof fn lemma_hex_digits(b: u8)
    ensures
        forall|d: u8| d < 10 ==> #[trigger] hex_value((('0' as u8) + d) as u8) == Some(d),
        forall|k: u8|
            k < 6 ==> #[trigger] hex_value((('a' as u8) + k) as u8) == Some((10 + k) as u8)
                && hex_value((('A' as u8) + k) as u8) == Some((10 + k) as u8),
        hex_value(b) is Some ==> ('0' as u8 <= b <= '9' as u8) || ('a' as u8 <= b <= 'f' as u8)
            || ('A' as u8 <= b <= 'F' as u8),
        hex_value(ascii_upper(b)) == hex_value(b),
{
}

/// Every `%XX` escape with two hex digits, in either case, decodes to the
/// byte that the digits spell, high digit first, and decoding goes on right
/// after it; upper-casing the digits of an escape changes nothing.
pub proof fn lemma_percent_escape(h: u8, l: u8, rest: Seq<u8>)
    requires
        hex_value(h) is Some,
        hex_value(l) is Some,
    ensures
        percent_bytes(seq![0x25u8, h, l] + rest) == seq![
            (hex_value(h)->0 * 16 + hex_value(l)->0) as u8,
        ] + percent_bytes(rest),
        percent_bytes(seq![0x25u8, ascii_upper(h), ascii_upper(l)] + rest) == percent_bytes(
            seq![0x25u8, h, l] + rest,
        ),
{
    let s = seq![0x25u8, h, l] + rest;
    let u = seq![0x25u8, ascii_upper(h), ascii_upper(l)] + rest;
    assert(s[0] == 0x25 && s[1] == h && s[2] == l);
    assert(u[0] == 0x25 && u[1] == ascii_upper(h) && u[2] == ascii_upper(l));
    assert(s.skip(3) =~= rest);
    assert(u.skip(3) =~= rest);
    lemma_hex_digits(h);
    lemma_hex_digits(l);
}

/// Bytes without `%` come through percent-decoding unchanged.
pub proof fn lemma_percent_bytes_plain(s: Seq<u8>)
    requires
        forall|i: int| 0 <= i < s.len() ==> s[i] != 0x25,
    ensures
        percent_bytes(s) == s,
    decreases s.len(),
{
    if s.len() > 0 {
        lemma_percent_bytes_plain(s.skip(1));
        assert(seq![s[0]] + s.skip(1) =~= s);
    }
}

/// A segment without `%` is decoded to itself.
pub proof fn lemma_percent_decode_plain(input: &str)
    requires
        forall|i: int| 0 <= i < input.spec_bytes().len() ==> input.spec_bytes()[i] != 0x25,
    ensures
        valid_utf8(percent_bytes(input.spec_bytes())),
        decode_utf8(percent_bytes(input.spec_bytes())) == input@,
{
    lemma_percent_bytes_plain(input.spec_bytes());
    vstd::utf8::encode_utf8_valid_utf8(input@);
    encode_utf8_decode_utf8(input@);
}

// ---------------------------------------------------------------------------
// Name sanitising
// ---------------------------------------------------------------------------

/// Maximum number of bytes of a name kept in an error message.
pub const MAX_NAME_BYTES: usize = 64;

/// A control character: general category Cc, U+0000..U+001F and
/// U+007F..U+009F.
pub open spec fn control_char(c: char) -> bool {
    (c as u32) <= 0x1f || (0x7f <= (c as u32) && (c as u32) <= 0x9f)
}

/// The largest character boundary of `bytes` that is at most `k`.
pub open spec fn boundary_at_most(bytes: Seq<u8>, k: int) -> int
    decreases k,
{
    if k <= 0 {
        0
    } else if is_char_boundary(bytes, k) {
        k
    } else {
        boundary_at_most(bytes, k - 1)
    }
}

/// The characters of `cs` that are not control characters, in order.
pub open spec fn remove_controls(cs: Seq<char>) -> Seq<char> {
    cs.filter(|c: char| !control_char(c))
}

/// A name as it may appear in an error message: cut to at most 64 bytes of
/// UTF-8 at a character boundary, with control characters removed.
pub open spec fn sanitized(name: Seq<char>) -> Seq<char> {
    let bytes = encode_utf8(name);
    let kept = if bytes.len() > MAX_NAME_BYTES {
        decode_utf8(bytes.take(boundary_at_most(bytes, MAX_NAME_BYTES as int)))
    } else {
        name
    };
    remove_controls(kept)
}

/// Whether `c` is a control character.
fn is_control(c: char) -> (r: bool)
    ensures
        r == control_char(c),
{
    let v = c as u32;
    v <= 0x1f || (0x7f <= v && v <= 0x9f)
}

/// Truncate a user-supplied name to 64 bytes and strip control characters,
/// so that it cannot inject lines into logs or grow error messages.
///
/// Truncation respects UTF-8 character boundaries: the cut is at the largest
/// boundary at most 64 bytes in.
pub fn sanitize_name(name: &str) -> (r: String)
    ensures
        r@ == sanitized(name@),
{
    let byte_len = name.as_bytes().len();
    let truncated: &str = if byte_len > MAX_NAME_BYTES {
        // Walk back from byte 64 to a character boundary.
        let mut end: usize = MAX_NAME_BYTES;
        while end > 0 && !name.is_char_boundary(end)
            invariant
                end <= MAX_NAME_BYTES,
                MAX_NAME_BYTES < name.spec_bytes().len(),
                boundary_at_most(name.spec_bytes(), end as int) == boundary_at_most(
                    name.spec_bytes(),
                    MAX_NAME_BYTES as int,
                ),
            decreases end,
        {
            end = end - 1;
        }
        proof {
            vstd::utf8::encode_utf8_valid_utf8(name@);
            vstd::utf8::is_char_boundary_start_end_of_seq(name.spec_bytes());
            assert(boundary_at_most(name.spec_bytes(), end as int) == end);
        }
        let (head, _) = name.split_at(end);
        proof {
            let hb = head.spec_bytes();
            assert(hb == encode_utf8(head@));
            encode_utf8_decode_utf8(head@);
            assert(decode_utf8(hb) == head@);
            assert(hb =~= name.spec_bytes().take(end as int));
            assert(boundary_at_most(name.spec_bytes(), MAX_NAME_BYTES as int) == end);
            assert(name.spec_bytes() == encode_utf8(name@));
            assert(head@ == decode_utf8(encode_utf8(name@).take(end as int)));
        }
        head
    } else {
        name
    };
    let n = truncated.unicode_len();
    let mut out = String::new();
    let mut i: usize = 0;
    while i < n
        invariant
            n == truncated@.len(),
            i <= n,
            out@ == remove_controls(truncated@.take(i as int)),
        decreases n - i,
    {
        let c = truncated.get_char(i);
        proof {
            reveal(Seq::filter);
            assert(truncated@.take(i + 1).drop_last() =~= truncated@.take(i as int));
        }
        if !is_control(c) {
            out.push(c);
        }
        i = i + 1;
    }
    proof {
        assert(truncated@.take(n as int) =~= truncated@);
    }
    out
}

/// A sanitised name holds no control character.
pub proof fn lemma_sanitized_no_controls(name: Seq<char>)
    ensures
        forall|i: int| 0 <= i < sanitized(name).len() ==> !control_char(#[trigger] sanitized(name)[i]),
{
    let bytes = encode_utf8(name);
    let kept = if bytes.len() > MAX_NAME_BYTES {
        decode_utf8(bytes.take(boundary_at_most(bytes, MAX_NAME_BYTES as int)))
    } else {
        name
    };
    assert forall|i: int| 0 <= i < sanitized(name).len() implies !control_char(#[trigger] sanitized(name)[i]) by {
        reveal(Seq::filter);
        kept.lemma_filter_pred(|c: char| !control_char(c), i);
    }
}

/// UTF-8 encoding distributes over concatenation.
proof fn lemma_encode_utf8_concat(a: Seq<char>, b: Seq<char>)
    ensures
        encode_utf8(a + b) == encode_utf8(a) + encode_utf8(b),
    decreases a.len(),
{
    if a.len() == 0 {
        assert(a + b =~= b);
        assert(encode_utf8(a) + encode_utf8(b) =~= encode_utf8(b));
    } else {
        lemma_encode_utf8_concat(a.drop_first(), b);
        assert((a + b).drop_first() =~= a.drop_first() + b);
        assert((a + b)[0] == a[0]);
        let head = encode_scalar(a[0] as u32);
        assert(head + (encode_utf8(a.drop_first()) + encode_utf8(b)) =~= (head + encode_utf8(
            a.drop_first(),
        )) + encode_utf8(b));
    }
}

/// Dropping characters never lengthens a UTF-8 encoding.
proof fn lemma_filter_encoding_shorter(s: Seq<char>, p: spec_fn(char) -> bool)
    ensures
        encode_utf8(s.filter(p)).len() <= encode_utf8(s).len(),
    decreases s.len(),
{
    reveal(Seq::filter);
    if s.len() > 0 {
        let init = s.drop_last();
        let last = seq![s.last()];
        lemma_filter_encoding_shorter(init, p);
        lemma_encode_utf8_concat(init, last);
        assert(init + last =~= s);
        if p(s.last()) {
            lemma_encode_utf8_concat(init.filter(p), last);
            assert(init.filter(p).push(s.last()) =~= init.filter(p) + last);
        }
    }
}

/// The largest character boundary at most `k` lies in `0..=k`.
proof fn lemma_boundary_at_most(bytes: Seq<u8>, k: int)
    requires
        valid_utf8(bytes),
        0 <= k,
    ensures
        0 <= boundary_at_most(bytes, k) <= k,
        is_char_boundary(bytes, boundary_at_most(bytes, k)),
    decreases k,
{
    vstd::utf8::is_char_boundary_start_end_of_seq(bytes);
    if k > 0 && !is_char_boundary(bytes, k) {
        lemma_boundary_at_most(bytes, k - 1);
    }
}

/// A sanitised name takes at most 64 bytes of UTF-8.
pub proof fn lemma_sanitized_fits(name: Seq<char>)
    ensures
        encode_utf8(sanitized(name)).len() <= MAX_NAME_BYTES,
{
    let bytes = encode_utf8(name);
    vstd::utf8::encode_utf8_valid_utf8(name);
    let kept = if bytes.len() > MAX_NAME_BYTES {
        decode_utf8(bytes.take(boundary_at_most(bytes, MAX_NAME_BYTES as int)))
    } else {
        name
    };
    if bytes.len() > MAX_NAME_BYTES {
        let b = boundary_at_most(bytes, MAX_NAME_BYTES as int);
        lemma_boundary_at_most(bytes, MAX_NAME_BYTES as int);
        vstd::utf8::valid_utf8_split(bytes, b);
        assert(bytes.take(b) =~= bytes.subrange(0, b));
        vstd::utf8::decode_utf8_encode_utf8(bytes.take(b));
    }
    assert(encode_utf8(kept).len() <= MAX_NAME_BYTES);
    lemma_filter_encoding_shorter(kept, |c: char| !control_char(c));
}

/// Removing control characters from text that holds none changes nothing.
proof fn lemma_remove_controls_none(cs: Seq<char>)
    requires
        forall|i: int| 0 <= i < cs.len() ==> !control_char(#[trigger] cs[i]),
    ensures
        remove_controls(cs) == cs,
    decreases cs.len(),
{
    reveal(Seq::filter);
    if cs.len() > 0 {
        lemma_remove_controls_none(cs.drop_last());
        assert(cs.drop_last().push(cs.last()) =~= cs);
    }
}

/// Sanitising keeps a clean name: one without control characters comes
/// through unchanged when it fits in 64 bytes, and an ASCII one is cut to
/// its first 64 characters.
pub proof fn lemma_sanitized_keeps_clean_names(name: Seq<char>)
    requires
        forall|i: int| 0 <= i < name.len() ==> !control_char(#[trigger] name[i]),
    ensures
        encode_utf8(name).len() <= MAX_NAME_BYTES ==> sanitized(name) == name,
        is_ascii_chars(name) ==> sanitized(name) == name.take(
            if name.len() <= MAX_NAME_BYTES {
                name.len() as int
            } else {
                MAX_NAME_BYTES as int
            },
        ),
{
    let bytes = encode_utf8(name);
    lemma_remove_controls_none(name);
    if is_ascii_chars(name) {
        is_ascii_chars_encode_utf8(name);
        if name.len() > MAX_NAME_BYTES {
            let k = MAX_NAME_BYTES as int;
            vstd::utf8::encode_utf8_valid_utf8(name);
            assert(bytes[k] == name[k] as u8);
            vstd::utf8::is_char_boundary_iff_not_is_continuation_byte(bytes, k);
            assert(is_char_boundary(bytes, k));
            assert(boundary_at_most(bytes, k) == k);
            let head = name.take(k);
            assert(is_ascii_chars(head));
            is_ascii_chars_encode_utf8(head);
            assert(bytes.take(k) =~= encode_utf8(head));
            encode_utf8_decode_utf8(head);
            assert forall|i: int| 0 <= i < head.len() implies !control_char(#[trigger] head[i]) by {
                assert(head[i] == name[i]);
            }
            lemma_remove_controls_none(head);
        } else {
            assert(name.take(name.len() as int) =~= name);
        }
    }
}

// ---------------------------------------------------------------------------
// Errors on the wire
// ---------------------------------------------------------------------------

/// The HTTP status code that answers a request failing with `e`.
pub open spec fn status_of(e: Error) -> u16 {
    match e {
        Error::UnknownCommand(_) => 404,
        Error::UnknownChannel(_) => 404,
        Error::AuthFailed => 403,
        Error::DecodeFailed => 400,
        Error::PayloadTooLarge(_) => 413,
        Error::Handler(_) => 500,
        Error::Serialize(_) => 500,
        Error::ChannelFull => 500,
    }
}

/// Map an error to the HTTP status code of its response.
pub fn error_to_status(e: &Error) -> (status: u16)
    ensures
        status == status_of(*e),
{
    match e {
        Error::UnknownCommand(_) => 404,
        Error::UnknownChannel(_) => 404,
        Error::AuthFailed => 403,
        Error::DecodeFailed => 400,
        Error::PayloadTooLarge(_) => 413,
        Error::Handler(_) => 500,
        Error::Serialize(_) => 500,
        Error::ChannelFull => 500,
    }
}

/// Format an error for an HTTP error response, with any embedded
/// user-supplied command or channel name sanitised.
pub fn sanitize_error(e: &Error) -> (text: String)
    ensures
        match *e {
            Error::UnknownCommand(name) => text@ == "unknown command: "@ + sanitized(name@),
            Error::UnknownChannel(name) => text@ == "unknown channel: "@ + sanitized(name@),
            Error::Serialize(_) => text@.len() >= crate::error::serialize_prefix().len()
                && text@.take(crate::error::serialize_prefix().len() as int)
                == crate::error::serialize_prefix(),
            _ => text@ == crate::error::error_text(*e),
        },
{
    match e {
        Error::UnknownCommand(name) => {
            let mut s = String::from_str("unknown command: ");
            let clean = sanitize_name(name.as_str());
            s.append(clean.as_str());
            s
        },
        Error::UnknownChannel(name) => {
            let mut s = String::from_str("unknown channel: ");
            let clean = sanitize_name(name.as_str());
            s.append(clean.as_str());
            s
        },
        other => other.to_string(),
    }
}

// ---------------------------------------------------------------------------
// Channel names and bootstrap defaults
// ---------------------------------------------------------------------------

/// Default channel capacity (64 KB).
pub const DEFAULT_CHANNEL_CAPACITY: usize = 65536;

/// A byte allowed in a channel name: ASCII letter or digit, `_` or `-`.
pub open spec fn channel_name_byte(b: u8) -> bool {
    (0x30 <= b <= 0x39) || (0x41 <= b <= 0x5a) || (0x61 <= b <= 0x7a) || b == 0x5f || b == 0x2d
}

/// A valid channel name matches `[a-zA-Z0-9_-]+`.
pub open spec fn valid_channel_name(name: Seq<u8>) -> bool {
    name.len() > 0 && forall|i: int| 0 <= i < name.len() ==> #[trigger] channel_name_byte(name[i])
}

/// The bytes of channel names are exactly the ASCII decimal digits, the
/// ASCII letters of either case, `_` and `-`.
pub proof fn lemma_channel_name_bytes(b: u8)
    ensures
        forall|d: u8| d < 10 ==> #[trigger] channel_name_byte((('0' as u8) + d) as u8),
        forall|k: u8|
            k < 26 ==> #[trigger] channel_name_byte((('a' as u8) + k) as u8) && channel_name_byte(
                (('A' as u8) + k) as u8,
            ),
        channel_name_byte('_' as u8),
        channel_name_byte('-' as u8),
        channel_name_byte(b) ==> ('0' as u8 <= b <= '9' as u8) || ('a' as u8 <= b <= 'z' as u8)
            || ('A' as u8 <= b <= 'Z' as u8) || b == '_' as u8 || b == '-' as u8,
{
}


/// Validate a channel name: it must match `[a-zA-Z0-9_-]+`.
///
/// A name that does not is a programming error in the caller, so it is not
/// an input of this function: test it first with
/// [`is_valid_channel_name`]. The plugin builder panics on such a name.
pub fn validate_channel_name(name: &str)
    requires
        valid_channel_name(name.spec_bytes()),
{
}

/// Whether a channel name matches `[a-zA-Z0-9_-]+`.
pub fn is_valid_channel_name(name: &str) -> (ok: bool)
    ensures
        ok == valid_channel_name(name.spec_bytes()),
{
    let bytes = name.as_bytes();
    if bytes.len() == 0 {
        return false;
    }
    let mut i: usize = 0;
    while i < bytes.len()
        invariant
            i <= bytes@.len(),
            bytes@ == name.spec_bytes(),
            forall|j: int| 0 <= j < i ==> #[trigger] channel_name_byte(bytes@[j]),
        decreases bytes@.len() - i,
    {
        let b = bytes[i];
        let allowed = (b >= 0x30 && b <= 0x39) || (b >= 0x41 && b <= 0x5a) || (b >= 0x61 && b
            <= 0x7a) || b == 0x5f || b == 0x2d;
        if !allowed {
            assert(!channel_name_byte(bytes@[i as int]));
            assert(bytes@ == name.spec_bytes());
            assert(!valid_channel_name(bytes@));
            return false;
        }
        i = i + 1;
    }
    true
}

/// The protocol version announced at bootstrap when none is given.
pub fn default_protocol_version() -> (v: u8)
    ensures
        v == crate::codec::PROTOCOL_VERSION,
{
    1
}

} // verus!
