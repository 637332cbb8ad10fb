//! Repair of `\uXXXX` escapes: a scanner that finds them and a bit-level
//! encoder that writes a scalar value as a byte sequence.

use crate::error::FormatError;
use vstd::prelude::*;
use vstd::utf8::{
    decode_utf8, encode_scalar, encode_utf8, encode_utf8_decode_utf8, encode_utf8_valid_utf8,
    valid_utf8,
};

verus! {

/// The byte `10xxxxxx` that carries the six bits of `scalar` above bit `shift`.
pub open spec fn continuation(scalar: u32, shift: u32) -> u8 {
    (0x80u32 | ((scalar >> shift) & 0x3f)) as u8
}

/// The byte that opens a sequence: `prefix` over the bits of `scalar` above bit `shift`.
pub open spec fn leading(prefix: u32, scalar: u32, shift: u32) -> u8 {
    (prefix | (scalar >> shift)) as u8
}

/// What the encoder writes for a value above U+FFFF, which is outside the
/// range it supports. There is still one continuation byte for every six
/// bits, but a leading byte only where the bits above them are not all zero.
pub open spec fn beyond_bmp_bytes(scalar: u32) -> Seq<u8> {
    if scalar < 0x4_0000 {
        seq![continuation(scalar, 12), continuation(scalar, 6), continuation(scalar, 0)]
    } else if scalar < 0x20_0000 {
        seq![
            leading(0xF0, scalar, 18),
            continuation(scalar, 12),
            continuation(scalar, 6),
            continuation(scalar, 0),
        ]
    } else if scalar < 0x100_0000 {
        seq![
            continuation(scalar, 18),
            continuation(scalar, 12),
            continuation(scalar, 6),
            continuation(scalar, 0),
        ]
    } else if scalar < 0x400_0000 {
        seq![
            leading(0xF8, scalar, 24),
            continuation(scalar, 18),
            continuation(scalar, 12),
            continuation(scalar, 6),
            continuation(scalar, 0),
        ]
    } else if scalar < 0x4000_0000 {
        seq![
            continuation(scalar, 24),
            continuation(scalar, 18),
            continuation(scalar, 12),
            continuation(scalar, 6),
            continuation(scalar, 0),
        ]
    } else if scalar < 0x8000_0000 {
        seq![
            leading(0xFC, scalar, 30),
            continuation(scalar, 24),
            continuation(scalar, 18),
            continuation(scalar, 12),
            continuation(scalar, 6),
            continuation(scalar, 0),
        ]
    } else {
        seq![
            continuation(scalar, 30),
            continuation(scalar, 24),
            continuation(scalar, 18),
            continuation(scalar, 12),
            continuation(scalar, 6),
            continuation(scalar, 0),
        ]
    }
}

/// The bytes that stand for `scalar`: its UTF-8 form of one, two or three
/// bytes up to U+FFFF, and `beyond_bmp_bytes` above.
pub open spec fn utf8_bytes(scalar: u32) -> Seq<u8> {
    if scalar < 0x80 {
        seq![scalar as u8]
    } else if scalar < 0x800 {
        seq![leading(0xC0, scalar, 6), continuation(scalar, 0)]
    } else if scalar < 0x1_0000 {
        seq![leading(0xE0, scalar, 12), continuation(scalar, 6), continuation(scalar, 0)]
    } else {
        beyond_bmp_bytes(scalar)
    }
}

/// The bits of `scalar` that are left when `groups` groups of six have been taken off.
pub open spec fn bits_left(scalar: u32, groups: int) -> u32 {
    if groups == 0 {
        scalar
    } else if groups == 1 {
        scalar >> 6
    } else if groups == 2 {
        scalar >> 12
    } else if groups == 3 {
        scalar >> 18
    } else if groups == 4 {
        scalar >> 24
    } else if groups == 5 {
        scalar >> 30
    } else {
        0
    }
}

/// The payload bits that a leading byte has room for in front of `groups` continuation bytes.
pub open spec fn leading_mask(groups: int) -> u32 {
    if groups == 0 {
        0x3f
    } else if groups == 1 {
        0x1f
    } else if groups == 2 {
        0x0f
    } else if groups == 3 {
        0x07
    } else if groups == 4 {
        0x03
    } else if groups == 5 {
        0x01
    } else {
        0x00
    }
}

/// The marker bits of a leading byte in front of `groups` continuation bytes.
pub open spec fn leading_prefix(groups: int) -> u8 {
    if groups == 0 {
        0x80
    } else if groups == 1 {
        0xC0
    } else if groups == 2 {
        0xE0
    } else if groups == 3 {
        0xF0
    } else if groups == 4 {
        0xF8
    } else if groups == 5 {
        0xFC
    } else {
        0xFE
    }
}

/// The least value that does not fit in a leading byte and `groups` continuation bytes.
pub open spec fn capacity(groups: int) -> int {
    if groups == 0 {
        0x80
    } else if groups == 1 {
        0x800
    } else if groups == 2 {
        0x1_0000
    } else if groups == 3 {
        0x20_0000
    } else if groups == 4 {
        0x400_0000
    } else if groups == 5 {
        0x8000_0000
    } else {
        0x1_0000_0000
    }
}

/// The least value with a bit set above its lowest `groups` groups of six bits.
pub open spec fn exhausted_below(groups: int) -> int {
    if groups == 1 {
        0x40
    } else if groups == 2 {
        0x1000
    } else if groups == 3 {
        0x4_0000
    } else if groups == 4 {
        0x100_0000
    } else if groups == 5 {
        0x4000_0000
    } else {
        0x1_0000_0000
    }
}

/// One turn of the encoder's loop, from `groups` continuation bytes to one more.
proof fn lemma_encoder_step(scalar: u32, groups: int, rest: u32, mask: u32, prefix: u8)
    requires
        0 <= groups <= 5,
        rest == bits_left(scalar, groups),
        mask == leading_mask(groups),
        prefix == leading_prefix(groups),
    ensures
        rest & 0x3f < 0x100,
        ((rest & 0x3f) as u8) | 0x80u8 == continuation(scalar, (6 * groups) as u32),
        rest >> 6 == bits_left(scalar, groups + 1),
        mask >> 1 == leading_mask(groups + 1),
        (prefix >> 1) | 0x80u8 == leading_prefix(groups + 1),
        ((rest >> 6) & (mask >> 1) == rest >> 6) <==> scalar < capacity(groups + 1),
        (rest >> 6 == 0) <==> scalar < exhausted_below(groups + 1),
        groups < 5 && scalar < capacity(groups + 1) ==> rest >> 6 < 0x100 && (((rest >> 6) as u8) | ((
        prefix >> 1) | 0x80u8)) == leading(
            leading_prefix(groups + 1) as u32,
            scalar,
            (6 * (groups + 1)) as u32,
        ),
{
    assert(rest & 0x3f < 0x100) by (bit_vector);
    if groups == 0 {
        assert(((scalar & 0x3f) as u8) | 0x80u8 == (0x80u32 | ((scalar >> 0u32) & 0x3f)) as u8
            && 0x3fu32 >> 1 == 0x1fu32 && (0x80u8 >> 1) | 0x80u8 == 0xC0u8 && (((scalar >> 6)
            & 0x1fu32 == scalar >> 6) <==> scalar < 0x800u32) && ((scalar >> 6 == 0) <==> scalar
            < 0x40u32) && (scalar < 0x800u32 ==> scalar >> 6 < 0x100 && (((scalar >> 6) as u8)
            | 0xC0u8) == (0xC0u32 | (scalar >> 6u32)) as u8)) by (bit_vector);
    } else if groups == 1 {
        assert((((scalar >> 6) & 0x3f) as u8) | 0x80u8 == (0x80u32 | ((scalar >> 6u32) & 0x3f)) as u8
            && (scalar >> 6) >> 6 == scalar >> 12 && 0x1fu32 >> 1 == 0x0fu32 && (0xC0u8 >> 1)
            | 0x80u8 == 0xE0u8 && (((scalar >> 12) & 0x0fu32 == scalar >> 12) <==> scalar
            < 0x1_0000u32) && ((scalar >> 12 == 0) <==> scalar < 0x1000u32) && (scalar
            < 0x1_0000u32 ==> scalar >> 12 < 0x100 && (((scalar >> 12) as u8) | 0xE0u8) == (
        0xE0u32 | (scalar >> 12u32)) as u8)) by (bit_vector);
    } else if groups == 2 {
        assert((((scalar >> 12) & 0x3f) as u8) | 0x80u8 == (0x80u32 | ((scalar >> 12u32) & 0x3f)) as u8
            && (scalar >> 12) >> 6 == scalar >> 18 && 0x0fu32 >> 1 == 0x07u32 && (0xE0u8 >> 1)
            | 0x80u8 == 0xF0u8 && (((scalar >> 18) & 0x07u32 == scalar >> 18) <==> scalar
            < 0x20_0000u32) && ((scalar >> 18 == 0) <==> scalar < 0x4_0000u32) && (scalar
            < 0x20_0000u32 ==> scalar >> 18 < 0x100 && (((scalar >> 18) as u8) | 0xF0u8) == (
        0xF0u32 | (scalar >> 18u32)) as u8)) by (bit_vector);
    } else if groups == 3 {
        assert((((scalar >> 18) & 0x3f) as u8) | 0x80u8 == (0x80u32 | ((scalar >> 18u32) & 0x3f)) as u8
            && (scalar >> 18) >> 6 == scalar >> 24 && 0x07u32 >> 1 == 0x03u32 && (0xF0u8 >> 1)
            | 0x80u8 == 0xF8u8 && (((scalar >> 24) & 0x03u32 == scalar >> 24) <==> scalar
            < 0x400_0000u32) && ((scalar >> 24 == 0) <==> scalar < 0x100_0000u32) && (scalar
            < 0x400_0000u32 ==> scalar >> 24 < 0x100 && (((scalar >> 24) as u8) | 0xF8u8) == (
        0xF8u32 | (scalar >> 24u32)) as u8)) by (bit_vector);
    } else if groups == 4 {
        assert((((scalar >> 24) & 0x3f) as u8) | 0x80u8 == (0x80u32 | ((scalar >> 24u32) & 0x3f)) as u8
            && (scalar >> 24) >> 6 == scalar >> 30 && 0x03u32 >> 1 == 0x01u32 && (0xF8u8 >> 1)
            | 0x80u8 == 0xFCu8 && (((scalar >> 30) & 0x01u32 == scalar >> 30) <==> scalar
            < 0x8000_0000u32) && ((scalar >> 30 == 0) <==> scalar < 0x4000_0000u32) && (scalar
            < 0x8000_0000u32 ==> scalar >> 30 < 0x100 && (((scalar >> 30) as u8) | 0xFCu8) == (
        0xFCu32 | (scalar >> 30u32)) as u8)) by (bit_vector);
    } else {
        assert((((scalar >> 30) & 0x3f) as u8) | 0x80u8 == (0x80u32 | ((scalar >> 30u32) & 0x3f)) as u8
            && (scalar >> 30) >> 6 == 0 && 0x01u32 >> 1 == 0x00u32 && (0xFCu8 >> 1) | 0x80u8
            == 0xFEu8 && ((scalar >> 30) >> 6) & (0x01u32 >> 1) == (scalar >> 30) >> 6 && (
        scalar >> 30) >> 6 < 0x100) by (bit_vector);
    }
}

/// The elements of `bytes` in the opposite order.
fn reversed(bytes: Vec<u8>) -> (res: Vec<u8>)
    ensures
        res@ == bytes@.reverse(),
{
    let mut res: Vec<u8> = Vec::with_capacity(bytes.len());
    let mut i: usize = bytes.len();
    while i > 0
        invariant
            i <= bytes.len(),
            res@.len() == bytes.len() - i,
            forall|j: int| 0 <= j < res@.len() ==> res@[j] == bytes@[bytes.len() - 1 - j],
        decreases i,
    {
        i -= 1;
        res.push(bytes[i]);
    }
    res
}

/// Writes a scalar value as bytes.
///
/// The six low bits go into a continuation byte, again and again, while the
/// room that a leading byte would have shrinks by one bit each time. The
/// sequence is closed by a leading byte as soon as the bits that are left fit
/// into it; a value below `0x80` is a single byte with no marker at all.
/// The bytes are gathered from the last to the first and turned round at the
/// end.
///
/// Up to U+FFFF the result is the UTF-8 form of the value. Above, the encoder
/// is outside the range it supports: where no bits are left after the last
/// continuation byte, it writes no leading byte.
pub fn unicode_to_utf8(scalar: u32) -> (res: Vec<u8>)
    ensures
        res@ == utf8_bytes(scalar),
{
    let mut res: Vec<u8> = Vec::with_capacity(4);
    if scalar < 0x80 {
        res.push(scalar as u8);
        return res;
    }
    let mut rest: u32 = scalar;
    let mut first_byte_mask: u32 = 0x3f;
    let mut first_byte_prefix: u8 = 0x80;
    let ghost mut groups: int = 0;
    loop
        invariant_except_break
            0 <= groups <= 5,
            scalar >= capacity(groups),
            rest == bits_left(scalar, groups),
            first_byte_mask == leading_mask(groups),
            first_byte_prefix == leading_prefix(groups),
            res@.len() == groups,
            forall|i: int| 0 <= i < groups ==> res@[i] == continuation(scalar, (6 * i) as u32),
        ensures
            res@.reverse() == utf8_bytes(scalar),
        decreases 6 - groups,
    {
        proof {
            lemma_encoder_step(scalar, groups, rest, first_byte_mask, first_byte_prefix);
        }
        let cur_octet: u8 = (rest & 0x3f) as u8;
        res.push(cur_octet | 0x80);
        rest = rest >> 6;
        first_byte_mask = first_byte_mask >> 1;
        first_byte_prefix = first_byte_prefix >> 1 | 0x80;
        proof {
            groups = groups + 1;
        }
        if rest & first_byte_mask == rest {
            if rest != 0 || scalar <= 0xFFFF {
                res.push(rest as u8 | first_byte_prefix);
            }
            assert(res@.reverse() =~= utf8_bytes(scalar));
            break;
        }
    }
    reversed(res)
}

/// The number that a hexadecimal digit stands for, in either case.
pub open spec fn hex_value(digit: u8) -> Option<u32> {
    if 0x30 <= digit <= 0x39 {
        Some((digit - 0x30) as u32)
    } else if 0x41 <= digit <= 0x46 {
        Some((digit - 0x41 + 10) as u32)
    } else if 0x61 <= digit <= 0x66 {
        Some((digit - 0x61 + 10) as u32)
    } else {
        None
    }
}

/// The code point of the escape that starts at `at`: a backslash, the letter
/// `u` and four hexadecimal digits. `None` where no such escape starts there.
pub open spec fn escape_at(bytes: Seq<u8>, at: int) -> Option<u32> {
    if 0 <= at && at + 6 <= bytes.len() && bytes[at] == 0x5c && bytes[at + 1] == 0x75 {
        match (
            hex_value(bytes[at + 2]),
            hex_value(bytes[at + 3]),
            hex_value(bytes[at + 4]),
            hex_value(bytes[at + 5]),
        ) {
            (Some(a), Some(b), Some(c), Some(d)) => Some((((a * 16 + b) * 16 + c) * 16 + d) as u32),
            _ => None,
        }
    } else {
        None
    }
}

/// The bytes from `from` on with their escapes repaired: read from left to
/// right, each escape gives way to the bytes of its code point, and every
/// other byte stays.
pub open spec fn unescaped(bytes: Seq<u8>, from: int) -> Seq<u8>
    decreases bytes.len() - from,
{
    if from < 0 || from >= bytes.len() {
        Seq::empty()
    } else {
        match escape_at(bytes, from) {
            Some(scalar) => utf8_bytes(scalar) + unescaped(bytes, from + 6),
            None => seq![bytes[from]] + unescaped(bytes, from + 1),
        }
    }
}

/// Reads one hexadecimal digit.
fn hex_digit(digit: u8) -> (value: Option<u32>)
    ensures
        value == hex_value(digit),
        value matches Some(v) ==> v < 16,
{
    if 0x30 <= digit && digit <= 0x39 {
        Some((digit - 0x30) as u32)
    } else if 0x41 <= digit && digit <= 0x46 {
        Some((digit - 0x41 + 10) as u32)
    } else if 0x61 <= digit && digit <= 0x66 {
        Some((digit - 0x61 + 10) as u32)
    } else {
        None
    }
}

/// Reads the escape that starts at `at`, if one does.
fn read_escape(bytes: &[u8], at: usize) -> (scalar: Option<u32>)
    requires
        at + 6 <= bytes.len(),
    ensures
        scalar == escape_at(bytes@, at as int),
{
    if bytes[at] != 0x5c || bytes[at + 1] != 0x75 {
        return None;
    }
    let a = match hex_digit(bytes[at + 2]) {
        Some(v) => v,
        None => return None,
    };
    let b = match hex_digit(bytes[at + 3]) {
        Some(v) => v,
        None => return None,
    };
    let c = match hex_digit(bytes[at + 4]) {
        Some(v) => v,
        None => return None,
    };
    let d = match hex_digit(bytes[at + 5]) {
        Some(v) => v,
        None => return None,
    };
    Some(((a * 16 + b) * 16 + c) * 16 + d)
}

/// Repairs the escapes in a sequence of bytes.
pub fn unescape_bytes(in_bytes: &[u8]) -> (res: Vec<u8>)
    ensures
        res@ == unescaped(in_bytes@, 0),
{
    let in_len = in_bytes.len();
    let mut res: Vec<u8> = Vec::with_capacity(in_len);
    let mut i: usize = 0;
    while i < in_len
        invariant
            in_len == in_bytes.len(),
            i <= in_len,
            unescaped(in_bytes@, 0) == res@ + unescaped(in_bytes@, i as int),
        decreases in_len - i,
    {
        let escape = if in_len - i >= 6 {
            read_escape(in_bytes, i)
        } else {
            None
        };
        match escape {
            Some(scalar) => {
                let mut encoded = unicode_to_utf8(scalar);
                proof {
                    let tail = unescaped(in_bytes@, i + 6);
                    assert(res@ + (encoded@ + tail) =~= (res@ + encoded@) + tail);
                }
                res.append(&mut encoded);
                i += 6;
            },
            None => {
                proof {
                    let tail = unescaped(in_bytes@, i + 1);
                    assert(res@ + (seq![in_bytes@[i as int]] + tail) =~= res@.push(in_bytes@[i as int])
                        + tail);
                }
                res.push(in_bytes[i]);
                i += 1;
            },
        }
    }
    proof {
        assert(res@ + Seq::<u8>::empty() =~= res@);
    }
    res
}

/// The bytes of a text with their escapes repaired.
pub open spec fn repaired(text: Seq<char>) -> Seq<u8> {
    unescaped(encode_utf8(text), 0)
}

/// Repairs the `\uXXXX` escapes of a string.
///
/// The string is read as bytes. Each escape is replaced by what
/// `unicode_to_utf8` writes for its code point; everything else passes
/// through as it is. The bytes that come of this are taken as a string
/// again, which fails where they are not well-formed UTF-8.
pub fn unescape_utf8(in_string: &str) -> (res: Result<String, FormatError>)
    ensures
        match res {
            Ok(text) => valid_utf8(repaired(in_string@)) && text@ == decode_utf8(
                repaired(in_string@),
            ),
            Err(_) => !valid_utf8(repaired(in_string@)),
        },
{
    let res = unescape_bytes(in_string.as_bytes());
    match String::from_utf8(res) {
        Ok(text) => Ok(text),
        Err(err) => Err(FormatError::from_utf8_error(err)),
    }
}

/// Up to U+FFFF, surrogates left out, the encoder writes UTF-8.
pub proof fn lemma_utf8_in_plane(scalar: u32)
    requires
        scalar <= 0xFFFF,
        !(0xD800 <= scalar <= 0xDFFF),
    ensures
        utf8_bytes(scalar) == encode_scalar(scalar),
{
    if scalar < 0x80 {
        assert((scalar & 0x7F) as u8 == scalar as u8) by (bit_vector)
            requires
                scalar < 0x80,
        ;
    } else if scalar < 0x800 {
        assert((0xC0u32 | (scalar >> 6u32)) as u8 == 0xC0u8 | ((scalar >> 6) & 0x1F) as u8 && (0x80u32
            | ((scalar >> 0u32) & 0x3f)) as u8 == 0x80u8 | (scalar & 0x3F) as u8) by (bit_vector)
            requires
                scalar < 0x800,
        ;
    } else {
        assert((0xE0u32 | (scalar >> 12u32)) as u8 == 0xE0u8 | ((scalar >> 12) & 0x0F) as u8 && (0x80u32
            | ((scalar >> 6u32) & 0x3f)) as u8 == 0x80u8 | ((scalar >> 6) & 0x3F) as u8 && (0x80u32
            | ((scalar >> 0u32) & 0x3f)) as u8 == 0x80u8 | (scalar & 0x3F) as u8) by (bit_vector)
            requires
                scalar < 0x1_0000,
        ;
    }
}

/// The bytes that the encoder writes for several values, one behind the other.
pub open spec fn all_utf8_bytes(scalars: Seq<u32>) -> Seq<u8>
    decreases scalars.len(),
{
    if scalars.len() == 0 {
        Seq::empty()
    } else {
        utf8_bytes(scalars[0]) + all_utf8_bytes(scalars.drop_first())
    }
}

/// Whether `bytes` is nothing but escapes, one behind the other, and
/// `scalars` are their code points.
pub open spec fn only_escapes(bytes: Seq<u8>, scalars: Seq<u32>) -> bool {
    &&& bytes.len() == 6 * scalars.len()
    &&& forall|i: int| 0 <= i < scalars.len() ==> escape_at(bytes, 6 * i) == Some(#[trigger] scalars[i])
}

/// The hexadecimal digit, in lower case, for a number below 16.
pub open spec fn hex_digit_of(value: int) -> u8 {
    if value < 10 {
        (0x30 + value) as u8
    } else {
        (0x61 + value - 10) as u8
    }
}

/// The escape that stands for a code point up to U+FFFF.
pub open spec fn escape_of(scalar: u32) -> Seq<u8> {
    seq![
        0x5c,
        0x75,
        hex_digit_of(scalar as int / 4096),
        hex_digit_of(scalar as int / 256 % 16),
        hex_digit_of(scalar as int / 16 % 16),
        hex_digit_of(scalar as int % 16),
    ]
}

/// The escapes of several code points, one behind the other.
pub open spec fn escaped(scalars: Seq<u32>) -> Seq<u8>
    decreases scalars.len(),
{
    if scalars.len() == 0 {
        Seq::empty()
    } else {
        escaped(scalars.drop_last()) + escape_of(scalars.last())
    }
}

/// Text made of escapes alone is repaired to the bytes of their code points.
proof fn lemma_unescape_from(bytes: Seq<u8>, scalars: Seq<u32>, done: int)
    requires
        only_escapes(bytes, scalars),
        0 <= done <= scalars.len(),
    ensures
        unescaped(bytes, 6 * done) == all_utf8_bytes(scalars.skip(done)),
    decreases scalars.len() - done,
{
    if done < scalars.len() {
        lemma_unescape_from(bytes, scalars, done + 1);
        assert(scalars.skip(done).drop_first() =~= scalars.skip(done + 1));
        assert(scalars.skip(done)[0] == scalars[done]);
    }
}

/// The escape of a code point up to U+FFFF is read as that code point.
pub proof fn lemma_escape_of(scalar: u32)
    requires
        scalar <= 0xFFFF,
    ensures
        escape_of(scalar).len() == 6,
        escape_at(escape_of(scalar), 0) == Some(scalar),
{
    let a = scalar as int / 4096;
    let b = scalar as int / 256 % 16;
    let c = scalar as int / 16 % 16;
    let d = scalar as int % 16;
    assert(hex_value(hex_digit_of(a)) == Some(a as u32));
    assert(hex_value(hex_digit_of(b)) == Some(b as u32));
    assert(hex_value(hex_digit_of(c)) == Some(c as u32));
    assert(hex_value(hex_digit_of(d)) == Some(d as u32));
    assert(((a * 16 + b) * 16 + c) * 16 + d == scalar);
}

/// Whether an escape starts at a place depends on the six bytes there alone.
proof fn lemma_escape_at_moved(x: Seq<u8>, i: int, y: Seq<u8>, j: int)
    requires
        0 <= i,
        i + 6 <= x.len(),
        0 <= j,
        j + 6 <= y.len(),
        x.subrange(i, i + 6) == y.subrange(j, j + 6),
    ensures
        escape_at(x, i) == escape_at(y, j),
{
    let part = x.subrange(i, i + 6);
    let same = y.subrange(j, j + 6);
    assert(x[i] == part[0] && y[j] == same[0]);
    assert(x[i + 1] == part[1] && y[j + 1] == same[1]);
    assert(x[i + 2] == part[2] && y[j + 2] == same[2]);
    assert(x[i + 3] == part[3] && y[j + 3] == same[3]);
    assert(x[i + 4] == part[4] && y[j + 4] == same[4]);
    assert(x[i + 5] == part[5] && y[j + 5] == same[5]);
}

/// The escapes of code points up to U+FFFF are escapes of exactly these.
pub proof fn lemma_escaped_only_escapes(scalars: Seq<u32>)
    requires
        forall|i: int| 0 <= i < scalars.len() ==> #[trigger] scalars[i] <= 0xFFFF,
    ensures
        only_escapes(escaped(scalars), scalars),
    decreases scalars.len(),
{
    if scalars.len() > 0 {
        let front = scalars.drop_last();
        let last = scalars.last();
        lemma_escaped_only_escapes(front);
        lemma_escape_of(last);
        let bytes = escaped(scalars);
        assert(bytes == escaped(front) + escape_of(last));
        assert forall|i: int| 0 <= i < scalars.len() implies escape_at(bytes, 6 * i) == Some(
            #[trigger] scalars[i],
        ) by {
            if i < front.len() {
                assert(front[i] == scalars[i]);
                assert(bytes.subrange(6 * i, 6 * i + 6) =~= escaped(front).subrange(
                    6 * i,
                    6 * i + 6,
                ));
                lemma_escape_at_moved(bytes, 6 * i, escaped(front), 6 * i);
            } else {
                assert(bytes.subrange(6 * i, 6 * i + 6) =~= escape_of(last).subrange(0, 6));
                lemma_escape_at_moved(bytes, 6 * i, escape_of(last), 0);
            }
        }
    }
}

/// The round trip of escapes: text made of escapes alone, with digits of
/// either case, is repaired to what the encoder writes for their code
/// points.
pub proof fn lemma_unescape_escapes(bytes: Seq<u8>, scalars: Seq<u32>)
    requires
        only_escapes(bytes, scalars),
    ensures
        unescaped(bytes, 0) == all_utf8_bytes(scalars),
{
    lemma_unescape_from(bytes, scalars, 0);
    assert(scalars.skip(0) =~= scalars);
}

/// What the encoder writes for the code points of characters up to U+FFFF
/// is their UTF-8 encoding.
pub proof fn lemma_all_utf8_in_plane(chars: Seq<char>)
    requires
        forall|i: int| 0 <= i < chars.len() ==> #[trigger] chars[i] as u32 <= 0xFFFF,
    ensures
        all_utf8_bytes(chars.map_values(|c: char| c as u32)) == encode_utf8(chars),
    decreases chars.len(),
{
    let scalars = chars.map_values(|c: char| c as u32);
    if chars.len() > 0 {
        lemma_all_utf8_in_plane(chars.drop_first());
        assert(scalars.drop_first() =~= chars.drop_first().map_values(|c: char| c as u32));
        vstd::utf8::char_is_scalar(chars[0]);
        lemma_utf8_in_plane(chars[0] as u32);
    }
}

/// The round trip of escapes, for text: where the bytes of `text` are the
/// escapes of the characters `chars`, none of them above U+FFFF, repairing
/// `text` succeeds and gives `chars`.
pub proof fn lemma_escape_round_trip(text: Seq<char>, chars: Seq<char>)
    requires
        forall|i: int| 0 <= i < chars.len() ==> #[trigger] chars[i] as u32 <= 0xFFFF,
        only_escapes(encode_utf8(text), chars.map_values(|c: char| c as u32)),
    ensures
        valid_utf8(repaired(text)),
        decode_utf8(repaired(text)) == chars,
{
    lemma_unescape_escapes(encode_utf8(text), chars.map_values(|c: char| c as u32));
    lemma_all_utf8_in_plane(chars);
    encode_utf8_valid_utf8(chars);
    encode_utf8_decode_utf8(chars);
}

/// A byte with its highest bit set is no backslash.
proof fn lemma_high_byte(x: u8)
    by (bit_vector)
    ensures
        0x80u8 | x != 0x5cu8,
        0xC0u8 | x != 0x5cu8,
        0xE0u8 | x != 0x5cu8,
        0xF0u8 | x != 0x5cu8,
{
}

/// The UTF-8 encoding of a character other than the backslash holds no backslash.
proof fn lemma_encode_scalar_plain(c: char)
    requires
        c != '\\',
    ensures
        forall|j: int|
            0 <= j < encode_scalar(c as u32).len() ==> #[trigger] encode_scalar(c as u32)[j]
                != 0x5c,
        encode_scalar(c as u32).len() > 0,
{
    let v = c as u32;
    assert(('\\' as u32) == 0x5c);
    assert(v != 0x5c);
    vstd::utf8::char_is_scalar(c);
    if v <= 0x7F {
        assert((v & 0x7F) as u8 != 0x5cu8) by (bit_vector)
            requires
                v <= 0x7F,
                v != 0x5c,
        ;
    } else {
        lemma_high_byte(((v >> 6) & 0x1F) as u8);
        lemma_high_byte(((v >> 12) & 0x0F) as u8);
        lemma_high_byte(((v >> 18) & 0x7) as u8);
        lemma_high_byte((v & 0x3F) as u8);
        lemma_high_byte(((v >> 6) & 0x3F) as u8);
        lemma_high_byte(((v >> 12) & 0x3F) as u8);
    }
}

/// The UTF-8 encoding of text without a backslash holds no backslash.
proof fn lemma_encode_plain(text: Seq<char>)
    requires
        forall|i: int| 0 <= i < text.len() ==> #[trigger] text[i] != '\\',
    ensures
        forall|j: int|
            0 <= j < encode_utf8(text).len() ==> #[trigger] encode_utf8(text)[j] != 0x5c,
    decreases text.len(),
{
    if text.len() > 0 {
        lemma_encode_scalar_plain(text[0]);
        lemma_encode_plain(text.drop_first());
        let first = encode_scalar(text[0] as u32);
        let rest = encode_utf8(text.drop_first());
        assert(encode_utf8(text) == first + rest);
        assert forall|j: int| 0 <= j < encode_utf8(text).len() implies #[trigger] encode_utf8(
            text,
        )[j] != 0x5c by {
            if j < first.len() {
                assert(encode_utf8(text)[j] == first[j]);
            } else {
                assert(encode_utf8(text)[j] == rest[j - first.len()]);
            }
        }
    }
}

/// Bytes without a backslash hold no escape and stay as they are.
proof fn lemma_unescaped_plain(bytes: Seq<u8>, from: int)
    requires
        0 <= from <= bytes.len(),
        forall|j: int| 0 <= j < bytes.len() ==> #[trigger] bytes[j] != 0x5c,
    ensures
        unescaped(bytes, from) == bytes.subrange(from, bytes.len() as int),
    decreases bytes.len() - from,
{
    if from < bytes.len() {
        lemma_unescaped_plain(bytes, from + 1);
        assert(seq![bytes[from]] + bytes.subrange(from + 1, bytes.len() as int) =~= bytes.subrange(
            from,
            bytes.len() as int,
        ));
    } else {
        assert(bytes.subrange(from, bytes.len() as int) =~= Seq::<u8>::empty());
    }
}

/// Text without a backslash is repaired to itself.
pub proof fn lemma_repaired_plain(text: Seq<char>)
    requires
        forall|i: int| 0 <= i < text.len() ==> #[trigger] text[i] != '\\',
    ensures
        repaired(text) == encode_utf8(text),
        valid_utf8(repaired(text)),
        decode_utf8(repaired(text)) == text,
{
    let bytes = encode_utf8(text);
    lemma_encode_plain(text);
    lemma_unescaped_plain(bytes, 0);
    assert(bytes.subrange(0, bytes.len() as int) =~= bytes);
    encode_utf8_valid_utf8(text);
    encode_utf8_decode_utf8(text);
}

} // verus!
