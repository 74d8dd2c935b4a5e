//! The hexadecimal encoding of text fields in the rules file: each UTF-8
//! byte as two lower-case hex digits.

use vstd::prelude::*;
use vstd::utf8::*;
use vstd::string::*;
use crate::text::{IntError, chars_of, int_error_text, string_of};

verus! {

/// The lower-case hex digits, indexed by value.
pub open spec fn hex_digit(d: int) -> char {
    seq!['0', '1', '2', '3', '4', '5', '6', '7', '8', '9', 'a', 'b', 'c', 'd', 'e', 'f'][d]
}

/// The two hex digits of each byte, in order.
pub open spec fn hex_bytes(bs: Seq<u8>) -> Seq<char>
    decreases bs.len(),
{
    if bs.len() == 0 {
        seq![]
    } else {
        hex_bytes(bs.drop_last()) + seq![
            hex_digit(bs.last() as int / 16),
            hex_digit(bs.last() as int % 16),
        ]
    }
}

/// The hex encoding of a text: the hex digits of its UTF-8 bytes.
pub open spec fn hex_text(s: Seq<char>) -> Seq<char> {
    hex_bytes(encode_utf8(s))
}

/// The value of a hex digit, upper or lower case.
pub open spec fn hex_value(c: char) -> Option<int> {
    if '0' <= c && c <= '9' {
        Some(c as int - '0' as int)
    } else if 'a' <= c && c <= 'f' {
        Some(c as int - 'a' as int + 10)
    } else if 'A' <= c && c <= 'F' {
        Some(c as int - 'A' as int + 10)
    } else {
        None
    }
}

/// The byte that a two-character hex numeral stands for, as
/// `u8::from_str_radix(_, 16)` reads it: a leading `+` is a sign, so `+f`
/// is 15.
pub open spec fn pair_byte(c0: char, c1: char) -> Option<u8> {
    if c0 == '+' {
        match hex_value(c1) {
            Some(v) => Some(v as u8),
            None => None,
        }
    } else {
        match (hex_value(c0), hex_value(c1)) {
            (Some(a), Some(b)) => Some((a * 16 + b) as u8),
            _ => None,
        }
    }
}

/// The bytes of consecutive two-character hex numerals; `None` when one of
/// them is not a numeral.
pub open spec fn pair_bytes(s: Seq<char>) -> Option<Seq<u8>>
    decreases s.len(),
{
    if s.len() < 2 {
        Some(seq![])
    } else {
        match pair_bytes(s.subrange(0, s.len() - 2)) {
            Some(bs) => match pair_byte(s[s.len() - 2], s[s.len() - 1]) {
                Some(b) => Some(bs.push(b)),
                None => None,
            },
            None => None,
        }
    }
}

/// The message of a rejected field encoding.
pub open spec fn bad_encoding_text() -> Seq<char> {
    "Invalid config encoding"@
}

/// The message that `String::from_utf8` gives for bytes that are not UTF-8.
pub uninterp spec fn utf8_rejection(bytes: Seq<u8>) -> Seq<char>;

/// What a hex-encoded field decodes to: only ASCII text of even length is
/// read; each pair of characters is one byte, and the bytes must be UTF-8.
pub open spec fn unhex_text(s: Seq<char>) -> Result<Seq<char>, Seq<char>> {
    if !is_ascii_chars(s) || s.len() % 2 != 0 {
        Err(bad_encoding_text())
    } else {
        match pair_bytes(s) {
            None => Err(int_error_text(IntError::InvalidDigit)),
            Some(bs) => if valid_utf8(bs) {
                Ok(decode_utf8(bs))
            } else {
                Err(utf8_rejection(bs))
            },
        }
    }
}

/// `String::from_utf8`, its error turned into its message.  The standard
/// library documents that it succeeds exactly on valid UTF-8, with the
/// characters that the bytes encode; the message of the error is named, not
/// stated.
#[verifier::external_body]
fn string_from_utf8(bytes: Vec<u8>) -> (res: Result<String, String>)
    ensures
        res is Ok <==> valid_utf8(bytes@),
        res matches Ok(s) ==> s@ == decode_utf8(bytes@),
        res matches Err(m) ==> m@ == utf8_rejection(bytes@),
{
    String::from_utf8(bytes).map_err(|e| e.to_string())
}

/// The hex digit character of `d`.
fn hex_digit_of(d: u8) -> (c: char)
    requires
        d < 16,
    ensures
        c == hex_digit(d as int),
{
    let table = ['0', '1', '2', '3', '4', '5', '6', '7', '8', '9', 'a', 'b', 'c', 'd', 'e', 'f'];
    assert(table@ == seq!['0', '1', '2', '3', '4', '5', '6', '7', '8', '9', 'a', 'b', 'c', 'd', 'e', 'f']);
    table[d as usize]
}

/// Encodes each UTF-8 byte of `s` as two lower-case hex digits.
pub fn hex(s: &str) -> (out: String)
    ensures
        out@ == hex_text(s@),
{
    let cs = hex_chars(s);
    string_of(&cs)
}

/// The hex encoding of `s`, as characters.
pub fn hex_chars(s: &str) -> (out: Vec<char>)
    ensures
        out@ == hex_text(s@),
{
    let bytes = s.as_bytes();
    let mut out: Vec<char> = Vec::new();
    for i in 0..bytes.len()
        invariant
            bytes@ == encode_utf8(s@),
            out@ == hex_bytes(bytes@.take(i as int)),
    {
        let b = bytes[i];
        assert(bytes@.take(i + 1).drop_last() == bytes@.take(i as int));
        out.push(hex_digit_of(b / 16));
        out.push(hex_digit_of(b % 16));
    }
    assert(bytes@.take(bytes@.len() as int) == bytes@);
    out
}

/// The value of a hex digit.
fn hex_value_of(c: char) -> (v: Option<u8>)
    ensures
        v matches Some(x) ==> hex_value(c) == Some(x as int),
        v is None ==> hex_value(c) is None,
{
    if '0' <= c && c <= '9' {
        Some((c as u32 - '0' as u32) as u8)
    } else if 'a' <= c && c <= 'f' {
        Some((c as u32 - 'a' as u32 + 10) as u8)
    } else if 'A' <= c && c <= 'F' {
        Some((c as u32 - 'A' as u32 + 10) as u8)
    } else {
        None
    }
}

/// The byte of a two-character hex numeral.
fn pair_byte_of(c0: char, c1: char) -> (b: Option<u8>)
    ensures
        b == pair_byte(c0, c1),
{
    if c0 == '+' {
        hex_value_of(c1)
    } else {
        match (hex_value_of(c0), hex_value_of(c1)) {
            (Some(a), Some(b)) => Some(a * 16 + b),
            _ => None,
        }
    }
}

/// Decodes a field written by `hex`.
pub fn unhex(s: &str) -> (r: Result<String, String>)
    ensures
        r matches Ok(t) ==> unhex_text(s@) == Ok::<Seq<char>, Seq<char>>(t@),
        r matches Err(m) ==> unhex_text(s@) == Err::<Seq<char>, Seq<char>>(m@),
{
    let cs = chars_of(s);
    unhex_chars(&cs)
}

/// No character is below the NUL character.
proof fn lemma_char_floor(c: char)
    ensures
        '\0' <= c,
{
}

/// Whether every character is ASCII.
fn all_ascii(cs: &[char]) -> (b: bool)
    ensures
        b == is_ascii_chars(cs@),
{
    for i in 0..cs.len()
        invariant
            forall|j: int| 0 <= j < i ==> '\0' <= #[trigger] cs@[j] <= '\u{7f}',
    {
        if cs[i] > '\u{7f}' {
            return false;
        }
        proof {
            lemma_char_floor(cs@[i as int]);
        }
    }
    true
}

/// Decodes a hex-encoded field given as characters.
pub fn unhex_chars(cs: &[char]) -> (r: Result<String, String>)
    ensures
        r matches Ok(t) ==> unhex_text(cs@) == Ok::<Seq<char>, Seq<char>>(t@),
        r matches Err(m) ==> unhex_text(cs@) == Err::<Seq<char>, Seq<char>>(m@),
{
    if !all_ascii(cs) || cs.len() % 2 != 0 {
        return Err("Invalid config encoding".to_owned());
    }
    let mut bytes: Vec<u8> = Vec::new();
    let mut i: usize = 0;
    while i < cs.len()
        invariant
            cs@.len() % 2 == 0,
            is_ascii_chars(cs@),
            i % 2 == 0,
            i <= cs@.len(),
            pair_bytes(cs@.subrange(0, i as int)) == Some(bytes@),
        decreases cs.len() - i,
    {
        let ghost sub = cs@.subrange(0, i + 2);
        assert(sub.subrange(0, sub.len() - 2) == cs@.subrange(0, i as int));
        assert(sub[i as int] == cs@[i as int] && sub[i + 1] == cs@[i + 1]);
        match pair_byte_of(cs[i], cs[i + 1]) {
            Some(b) => bytes.push(b),
            None => {
                proof {
                    lemma_pair_bytes_prefix_none(cs@, i as int + 2);
                }
                return Err(IntError::InvalidDigit.text());
            },
        }
        i = i + 2;
    }
    assert(cs@.subrange(0, cs@.len() as int) == cs@);
    string_from_utf8(bytes)
}

/// Once a prefix of pairs fails to read, the whole text fails to read.
proof fn lemma_pair_bytes_prefix_none(s: Seq<char>, n: int)
    requires
        0 <= n <= s.len(),
        n % 2 == 0,
        s.len() % 2 == 0,
        pair_bytes(s.subrange(0, n)) is None,
    ensures
        pair_bytes(s) is None,
    decreases s.len() - n,
{
    if n < s.len() {
        let t = s.subrange(0, n + 2);
        assert(t.subrange(0, t.len() - 2) == s.subrange(0, n));
        lemma_pair_bytes_prefix_none(s, n + 2);
    } else {
        assert(s.subrange(0, n) == s);
    }
}


/// A hex digit is read back as its value, and is ASCII.
proof fn lemma_hex_digit(d: int)
    requires
        0 <= d < 16,
    ensures
        hex_value(hex_digit(d)) == Some(d),
        hex_digit(d) != '+',
        '\0' <= hex_digit(d) <= '\u{7f}',
{
    let t = seq!['0', '1', '2', '3', '4', '5', '6', '7', '8', '9', 'a', 'b', 'c', 'd', 'e', 'f'];
    assert(t[0] == '0' && t[1] == '1' && t[2] == '2' && t[3] == '3');
    assert(t[4] == '4' && t[5] == '5' && t[6] == '6' && t[7] == '7');
    assert(t[8] == '8' && t[9] == '9' && t[10] == 'a' && t[11] == 'b');
    assert(t[12] == 'c' && t[13] == 'd' && t[14] == 'e' && t[15] == 'f');
}

/// The hex digits of bytes are ASCII, two per byte, and read back as the
/// bytes.
pub proof fn lemma_hex_bytes(bs: Seq<u8>)
    ensures
        forall|i: int| 0 <= i < hex_bytes(bs).len() ==> #[trigger] hex_value(hex_bytes(bs)[i]) is Some,
        hex_bytes(bs).len() == 2 * bs.len(),
        is_ascii_chars(hex_bytes(bs)),
        pair_bytes(hex_bytes(bs)) == Some(bs),
    decreases bs.len(),
{
    if bs.len() > 0 {
        let init = bs.drop_last();
        let b = bs.last();
        lemma_hex_bytes(init);
        lemma_hex_digit(b as int / 16);
        lemma_hex_digit(b as int % 16);
        let h = hex_bytes(bs);
        let pair = seq![hex_digit(b as int / 16), hex_digit(b as int % 16)];
        assert(h == hex_bytes(init) + pair);
        assert(h.subrange(0, h.len() - 2) == hex_bytes(init));
        assert(h[h.len() - 2] == pair[0] && h[h.len() - 1] == pair[1]);
        assert((b as int / 16) * 16 + b as int % 16 == b as int);
        assert(init.push(b) == bs);
        assert forall|i| 0 <= i < h.len() implies '\0' <= #[trigger] h[i] <= '\u{7f}' by {
            if i < h.len() - 2 {
                assert(h[i] == hex_bytes(init)[i]);
            }
        }
        assert forall|i| 0 <= i < h.len() implies #[trigger] hex_value(h[i]) is Some by {
            if i < h.len() - 2 {
                assert(h[i] == hex_bytes(init)[i]);
            }
        }
    }
}

/// Decoding the hex encoding of a text gives back the text.
pub proof fn law_unhex_hex(s: Seq<char>)
    ensures
        unhex_text(hex_text(s)) == Ok::<Seq<char>, Seq<char>>(s),
{
    let bs = encode_utf8(s);
    lemma_hex_bytes(bs);
    assert((2 * bs.len()) % 2 == 0);
    encode_utf8_valid_utf8(s);
    encode_utf8_decode_utf8(s);
}

} // verus!
