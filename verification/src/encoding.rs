//! Text forms of polynomials: a string as the codes of its characters, and
//! a polynomial as three hexadecimal digits for each coefficient.

use vstd::prelude::*;
use crate::error::CipherError;
use crate::graph::BASE_MODULUS;
use crate::polynomials::{ints, mod_floor, Polynomial};
use crate::ring::reduced;

verus! {

/// What `String::push` of the standard library does: it appends the one
/// character it is given to the string, and leaves what was there as it was.
pub assume_specification[ String::push ](s: &mut String, ch: char)
    ensures
        final(s)@ == old(s)@.push(ch),
;

/// The codes of the characters of a text.
pub open spec fn char_codes(text: Seq<char>) -> Seq<int> {
    Seq::new(text.len(), |i: int| text[i] as int)
}

/// The text whose characters have the low eight bits of the coefficients as
/// their codes.
pub open spec fn low_byte_text(coeffs: Seq<int>) -> Seq<char> {
    Seq::new(coeffs.len(), |i: int| (coeffs[i] % (BASE_MODULUS as int)) as char)
}

/// Whether every character of a text has a code below 256.
pub open spec fn single_byte_text(text: Seq<char>) -> bool {
    forall|i: int| 0 <= i < text.len() ==> ((#[trigger] text[i]) as int) < BASE_MODULUS
}

/// The lower-case hexadecimal digit for a value in `[0, 16)`.
pub open spec fn hex_digit(v: int) -> char {
    if v < 10 {
        (48 + v) as char
    } else {
        (87 + v) as char
    }
}

/// The value of a hexadecimal digit of either case, and `None` for any
/// other character.
pub open spec fn hex_value(c: char) -> Option<int> {
    let code = c as int;
    if 48 <= code <= 57 {
        Some(code - 48)
    } else if 97 <= code <= 102 {
        Some(code - 87)
    } else if 65 <= code <= 70 {
        Some(code - 55)
    } else {
        None
    }
}

/// The hexadecimal digit of `c` at position `pos` of three, highest first.
pub open spec fn nibble(c: int, pos: int) -> int {
    if pos == 0 {
        c / 256
    } else if pos == 1 {
        (c / 16) % 16
    } else {
        c % 16
    }
}

/// The hexadecimal text of coefficients in `[0, 4096)`: three digits each,
/// without separators.
pub open spec fn hex_text(coeffs: Seq<int>) -> Seq<char> {
    Seq::new(3 * coeffs.len(), |i: int| hex_digit(nibble(coeffs[i / 3], i % 3)))
}

/// Whether a text is a whole number of groups of three hexadecimal digits.
pub open spec fn is_hex_text(text: Seq<char>) -> bool {
    &&& text.len() % 3 == 0
    &&& forall|i: int| 0 <= i < text.len() ==> hex_value(#[trigger] text[i]) is Some
}

/// The coefficients that a hexadecimal text stands for.
pub open spec fn hex_coeffs(text: Seq<char>) -> Seq<int> {
    Seq::new(
        text.len() / 3,
        |i: int|
            256 * hex_value(text[3 * i]).unwrap() + 16 * hex_value(text[3 * i + 1]).unwrap()
                + hex_value(text[3 * i + 2]).unwrap(),
    )
}

/// Decoding undoes encoding: the hexadecimal text of coefficients in
/// `[0, 4096)` is accepted by the decoder and stands for those coefficients.
pub proof fn lemma_hex_round_trip(coeffs: Seq<int>)
    requires
        reduced(coeffs, 4096),
    ensures
        is_hex_text(hex_text(coeffs)),
        hex_coeffs(hex_text(coeffs)) == coeffs,
{
    let text = hex_text(coeffs);
    assert forall|i: int| 0 <= i < text.len() implies hex_value(#[trigger] text[i]) is Some by {
        let c = coeffs[i / 3];
        assert(0 <= c < 4096);
        lemma_hex_digit(nibble(c, i % 3));
    }
    assert forall|i: int| 0 <= i < coeffs.len() implies #[trigger] hex_coeffs(text)[i]
        == coeffs[i] by {
        let c = coeffs[i];
        assert(0 <= c < 4096);
        assert(text[3 * i] == hex_digit(nibble(c, 0)));
        assert(text[3 * i + 1] == hex_digit(nibble(c, 1)));
        assert(text[3 * i + 2] == hex_digit(nibble(c, 2)));
        lemma_hex_digit(nibble(c, 0));
        lemma_hex_digit(nibble(c, 1));
        lemma_hex_digit(nibble(c, 2));
    }
    assert(hex_coeffs(text) =~= coeffs);
}

/// A digit's value is the value it was made for.
pub proof fn lemma_hex_digit(v: int)
    requires
        0 <= v < 16,
    ensures
        hex_value(hex_digit(v)) == Some(v),
{
}

/// The code of a character is not negative.
proof fn lemma_char_code(c: char)
    ensures
        0 <= c as int,
{
}

/// A text of single-byte characters is the low-byte text of its codes.
pub proof fn lemma_text_round_trip(text: Seq<char>)
    requires
        single_byte_text(text),
    ensures
        reduced(char_codes(text), BASE_MODULUS as int),
        low_byte_text(char_codes(text)) == text,
{
    assert forall|i: int| 0 <= i < text.len() implies #[trigger] low_byte_text(char_codes(text))[i]
        == text[i] && 0 <= #[trigger] char_codes(text)[i] < BASE_MODULUS by {
        let c: char = text[i];
        assert((c as int) < BASE_MODULUS);
        lemma_char_code(c);
        vstd::arithmetic::div_mod::lemma_small_mod(c as nat, BASE_MODULUS as nat);
        assert((c as int) as char == c);
    }
    assert(low_byte_text(char_codes(text)) =~= text);
}

/// The code of a character.
fn code_of(c: char) -> (code: i64)
    ensures
        code == c as int,
        0 <= code,
{
    c as i64
}

/// The polynomial over the integers modulo 256 whose coefficients are the
/// codes of the characters of `s`.
pub fn string2poly(s: String) -> (r: Polynomial)
    ensures
        r@.modulus == BASE_MODULUS,
        r@.coeffs == char_codes(s@),
        s@.len() > 0 && single_byte_text(s@) ==> r.wf(),
{
    let mut data: Vec<i64> = Vec::new();
    let text = s.as_str();
    for c in it: text.chars()
        invariant
            text@ == s@,
            it.seq() == text@,
            data@.len() == it.index(),
            forall|j: int| 0 <= j < it.index() ==> #[trigger] data@[j] == s@[j] as int,
            forall|j: int| 0 <= j < it.index() ==> 0 <= #[trigger] data@[j],
    {
        data.push(code_of(c));
    }
    proof {
        assert(ints(data@) =~= char_codes(s@));
        if s@.len() > 0 && single_byte_text(s@) {
            assert forall|j: int| 0 <= j < s@.len() implies 0 <= #[trigger] ints(data@)[j]
                < BASE_MODULUS by {
                assert((s@[j] as int) < BASE_MODULUS);
            }
        }
    }
    Polynomial::new(data, BASE_MODULUS)
}

/// The text whose characters have the low eight bits of the coefficients of
/// `s` as their codes.
pub fn poly2string(s: Polynomial) -> (text: String)
    requires
        s.p == BASE_MODULUS,
    ensures
        text@ == low_byte_text(s@.coeffs),
{
    let mut res = String::new();
    let mut i: usize = 0;
    while i < s.data.len()
        invariant
            i <= s.data@.len(),
            res@.len() == i,
            forall|j: int| 0 <= j < i ==> #[trigger] res@[j] == low_byte_text(s@.coeffs)[j],
        decreases s.data@.len() - i,
    {
        let low: i64 = mod_floor(s.data[i] as i128, BASE_MODULUS);
        res.push((low as u8) as char);
        i = i + 1;
    }
    assert(res@ =~= low_byte_text(s@.coeffs));
    res
}

/// The hexadecimal digit for a value below 16.
fn hex_char(v: u8) -> (c: char)
    requires
        v < 16,
    ensures
        c == hex_digit(v as int),
{
    if v < 10 {
        (48 + v) as char
    } else {
        (87 + v) as char
    }
}

/// The value of the hexadecimal digit with the code `b`.
fn hex_nibble(b: u8) -> (v: Option<i64>)
    ensures
        match v {
            Some(d) => hex_value(b as char) == Some(d as int) && 0 <= d < 16,
            None => hex_value(b as char) is None,
        },
{
    if 48 <= b && b <= 57 {
        Some((b - 48) as i64)
    } else if 97 <= b && b <= 102 {
        Some((b - 87) as i64)
    } else if 65 <= b && b <= 70 {
        Some((b - 55) as i64)
    } else {
        None
    }
}

/// The hexadecimal text of a polynomial whose coefficients lie in
/// `[0, 4096)`: three lower-case digits for each coefficient.
pub fn poly2hex(s: Polynomial) -> (text: String)
    requires
        reduced(s@.coeffs, 4096),
    ensures
        text@ == hex_text(s@.coeffs),
{
    let mut res = String::new();
    let mut i: usize = 0;
    while i < s.data.len()
        invariant
            i <= s.data@.len(),
            reduced(s@.coeffs, 4096),
            res@.len() == 3 * i,
            forall|j: int| 0 <= j < 3 * i ==> #[trigger] res@[j] == hex_text(s@.coeffs)[j],
        decreases s.data@.len() - i,
    {
        let c: i64 = s.data[i];
        assert(s@.coeffs[i as int] == c);
        res.push(hex_char((c / 256) as u8));
        res.push(hex_char(((c / 16) % 16) as u8));
        res.push(hex_char((c % 16) as u8));
        i = i + 1;
    }
    assert(res@ =~= hex_text(s@.coeffs));
    res
}

/// The polynomial with modulus `field` that a hexadecimal text stands for.
/// A text that is not a whole number of groups of three hexadecimal digits
/// is refused.
pub fn hex2poly(s: String, field: i64) -> (r: Result<Polynomial, CipherError>)
    ensures
        match r {
            Ok(poly) => {
                &&& is_hex_text(s@)
                &&& poly@.modulus == field
                &&& poly@.coeffs == hex_coeffs(s@)
                &&& reduced(poly@.coeffs, 4096)
            },
            Err(e) => !is_hex_text(s@) && e == CipherError::InvalidEncoding,
        },
{
    let text = s.as_str();
    if !text.is_ascii() {
        proof {
            let i = choose|i: int| 0 <= i < s@.len() && !('\0' <= #[trigger] s@[i] <= '\u{7f}');
            assert(hex_value(s@[i]) is None);
        }
        return Err(CipherError::InvalidEncoding);
    }
    let bytes = text.as_bytes();
    proof {
        vstd::string::is_ascii_spec_bytes(text);
    }
    let n: usize = bytes.len();
    if n % 3 != 0 {
        return Err(CipherError::InvalidEncoding);
    }
    let mut data: Vec<i64> = Vec::new();
    let mut i: usize = 0;
    while i < n / 3
        invariant
            i <= n / 3,
            n == s@.len(),
            n % 3 == 0,
            bytes@.len() == n,
            forall|j: int| 0 <= j < n ==> #[trigger] bytes@[j] == s@[j] as u8,
            forall|j: int| 0 <= j < n ==> '\0' <= #[trigger] s@[j] <= '\u{7f}',
            data@.len() == i,
            forall|j: int| 0 <= j < 3 * i ==> hex_value(#[trigger] s@[j]) is Some,
            forall|j: int| 0 <= j < i ==> #[trigger] data@[j] == hex_coeffs(s@)[j],
            forall|j: int| 0 <= j < i ==> 0 <= #[trigger] data@[j] < 4096,
        decreases n / 3 - i,
    {
        assert(bytes@[3 * i] as char == s@[3 * i]);
        assert(bytes@[3 * i + 1] as char == s@[3 * i + 1]);
        assert(bytes@[3 * i + 2] as char == s@[3 * i + 2]);
        let high: i64 = match hex_nibble(bytes[3 * i]) {
            Some(d) => d,
            None => {
                return Err(CipherError::InvalidEncoding);
            },
        };
        let mid: i64 = match hex_nibble(bytes[3 * i + 1]) {
            Some(d) => d,
            None => {
                return Err(CipherError::InvalidEncoding);
            },
        };
        let low: i64 = match hex_nibble(bytes[3 * i + 2]) {
            Some(d) => d,
            None => {
                return Err(CipherError::InvalidEncoding);
            },
        };
        data.push(256 * high + 16 * mid + low);
        proof {
            assert forall|j: int| 0 <= j < 3 * (i + 1) implies hex_value(#[trigger] s@[j]) is Some by {
                if j >= 3 * i {
                    assert(j == 3 * i || j == 3 * i + 1 || j == 3 * i + 2);
                }
            }
        }
        i = i + 1;
    }
    proof {
        assert(ints(data@) =~= hex_coeffs(s@));
    }
    Ok(Polynomial::new(data, field))
}

} // verus!
