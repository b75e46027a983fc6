//! Reading one code point out of UTF-8 bytes.

use vstd::prelude::*;
use vstd::utf8::*;
use crate::error::Error;

verus! {

/// The character lies in the Basic Multilingual Plane, U+0000 to U+FFFF: one
/// UCS-2 unit can hold it.
pub open spec fn is_bmp(c: char) -> bool {
    c as u32 <= 0xFFFF
}

/// The UCS-2 unit of a character of the Basic Multilingual Plane: its code
/// point.
pub open spec fn ucs2_unit(c: char) -> u16
    recommends
        is_bmp(c),
{
    (c as u32) as u16
}

/// The UCS-2 units of a text, one for each character.
pub open spec fn ucs2_units(chars: Seq<char>) -> Seq<u16> {
    Seq::new(chars.len(), |i: int| ucs2_unit(chars[i]))
}

/// The number of characters before the first one that lies outside the Basic
/// Multilingual Plane; the length of the text where there is none.
pub open spec fn bmp_prefix_len(chars: Seq<char>) -> nat
    decreases chars.len(),
{
    if chars.len() == 0 || !is_bmp(chars[0]) {
        0
    } else {
        1 + bmp_prefix_len(chars.drop_first())
    }
}

/// `bmp_prefix_len` is the index of the first character outside the Basic
/// Multilingual Plane.
pub proof fn lemma_bmp_prefix_len(chars: Seq<char>)
    ensures
        bmp_prefix_len(chars) <= chars.len(),
        forall|j: int| 0 <= j < bmp_prefix_len(chars) ==> is_bmp(#[trigger] chars[j]),
        bmp_prefix_len(chars) < chars.len() ==> !is_bmp(chars[bmp_prefix_len(chars) as int]),
    decreases chars.len(),
{
    if chars.len() != 0 && is_bmp(chars[0]) {
        let rest = chars.drop_first();
        lemma_bmp_prefix_len(rest);
        assert forall|j: int| 0 <= j < bmp_prefix_len(chars) implies is_bmp(
            #[trigger] chars[j],
        ) by {
            if j > 0 {
                assert(chars[j] == rest[j - 1]);
            }
        }
        if bmp_prefix_len(chars) < chars.len() {
            assert(chars[bmp_prefix_len(chars) as int] == rest[bmp_prefix_len(rest) as int]);
        }
    }
}

/// Where the first `k` characters lie in the Basic Multilingual Plane,
/// `bmp_prefix_len` is at least `k`; it is `k` where the text ends there or
/// the next character lies outside.
pub proof fn lemma_bmp_prefix_found(chars: Seq<char>, k: int)
    requires
        0 <= k <= chars.len(),
        forall|j: int| 0 <= j < k ==> is_bmp(#[trigger] chars[j]),
    ensures
        bmp_prefix_len(chars) >= k,
        k == chars.len() || !is_bmp(chars[k]) ==> bmp_prefix_len(chars) == k,
{
    lemma_bmp_prefix_len(chars);
    let p = bmp_prefix_len(chars) as int;
    if p < k {
        assert(is_bmp(chars[p]));
    }
}

/// How the characters of a text lie in its UTF-8 bytes: where the bytes from
/// offset `i` on encode the characters from index `k` on, the bytes at `i`
/// are the encoding of character `k`, and behind it the rest follows.
pub proof fn lemma_char_at_offset(chars: Seq<char>, k: int, bytes: Seq<u8>, i: int)
    requires
        0 <= k <= chars.len(),
        0 <= i <= bytes.len(),
        bytes.skip(i) == encode_utf8(chars.skip(k)),
    ensures
        valid_utf8(bytes.skip(i)),
        i == bytes.len() <==> k == chars.len(),
        i < bytes.len() ==> {
            let n = length_of_first_scalar(bytes.skip(i));
            &&& decode_first_scalar(bytes.skip(i)) == chars[k] as u32
            &&& 1 <= n <= 4
            &&& i + n <= bytes.len()
            &&& bytes.skip(i + n) == encode_utf8(chars.skip(k + 1))
        },
{
    let tail = chars.skip(k);
    encode_utf8_valid_utf8(tail);
    if k < chars.len() {
        encode_utf8_first_scalar(tail);
        let n = encode_scalar(tail[0] as u32).len() as int;
        assert(encode_utf8(tail) == encode_scalar(tail[0] as u32) + encode_utf8(tail.drop_first()));
        assert(tail.drop_first() =~= chars.skip(k + 1));
        assert(bytes.skip(i + n) =~= bytes.skip(i).skip(n));
        assert(encode_utf8(tail).skip(n) =~= encode_utf8(tail.drop_first()));
    }
}

/// Value returned by `ucs2_from_utf8_at_offset`.
pub(crate) struct Ucs2CharFromUtf8 {
    /// UCS-2 character.
    pub val: u16,
    /// Number of bytes needed to encode the character in UTF-8.
    pub num_bytes: u8,
}

/// Get a UCS-2 character from a UTF-8 byte slice at the given offset.
///
/// The bytes from `offset` on must be well-formed UTF-8, as the bytes of a
/// `str` are from each of its characters on; no other bytes reach this
/// function. The length of the sequence is read from the high bits of its
/// first byte; a sequence of four bytes holds a code point above U+FFFF and
/// is rejected.
pub(crate) fn ucs2_from_utf8_at_offset(bytes: &[u8], offset: usize) -> (r: Result<
    Ucs2CharFromUtf8,
    Error,
>)
    requires
        offset < bytes@.len(),
        valid_utf8(bytes@.skip(offset as int)),
    ensures
        match r {
            Ok(ch) => {
                &&& decode_first_scalar(bytes@.skip(offset as int)) <= 0xFFFF
                &&& ch.val == decode_first_scalar(bytes@.skip(offset as int))
                &&& ch.num_bytes == length_of_first_scalar(bytes@.skip(offset as int))
            },
            Err(e) => {
                &&& e == Error::MultiByte
                &&& decode_first_scalar(bytes@.skip(offset as int)) > 0xFFFF
            },
        },
{
    let ghost rest = bytes@.skip(offset as int);
    assert(valid_first_scalar(rest));
    assert(rest[0] == bytes@[offset as int]);
    let lead: u8 = bytes[offset];
    proof {
        utf8_byte_ranges_bitwise(lead);
    }
    let ch: u16;
    let ch_len: u8;

    if lead & 0b1000_0000 == 0b0000_0000 {
        ch = lead as u16;
        ch_len = 1;
        assert(lead as u16 == (lead & 0x7F) as u32) by (bit_vector)
            requires
                lead & 0b1000_0000 == 0b0000_0000,
        ;
    } else if lead & 0b1110_0000 == 0b1100_0000 {
        // 2 byte codepoint
        assert(rest[1] == bytes@[offset + 1]);
        let next: u8 = bytes[offset + 1];
        let a: u16 = (lead & 0b0001_1111) as u16;
        let b: u16 = (next & 0b0011_1111) as u16;
        assert(a << 6 | b == (((lead & 0x1F) as u32) << 6) | ((next & 0x3F) as u32)) by (bit_vector)
            requires
                a == (lead & 0b0001_1111) as u16,
                b == (next & 0b0011_1111) as u16,
        ;
        ch = a << 6 | b;
        ch_len = 2;
    } else if lead & 0b1111_0000 == 0b1110_0000 {
        // 3 byte codepoint
        assert(rest[1] == bytes@[offset + 1]);
        assert(rest[2] == bytes@[offset + 2]);
        let mid: u8 = bytes[offset + 1];
        let last: u8 = bytes[offset + 2];
        let a: u16 = (lead & 0b0000_1111) as u16;
        let b: u16 = (mid & 0b0011_1111) as u16;
        let c: u16 = (last & 0b0011_1111) as u16;
        assert(a << 12 | b << 6 | c == (((lead & 0x0F) as u32) << 12) | (((mid & 0x3F) as u32) << 6)
            | ((last & 0x3F) as u32)) by (bit_vector)
            requires
                a == (lead & 0b0000_1111) as u16,
                b == (mid & 0b0011_1111) as u16,
                c == (last & 0b0011_1111) as u16,
        ;
        ch = a << 12 | b << 6 | c;
        ch_len = 3;
    } else if lead & 0b1111_0000 == 0b1111_0000 {
        assert(!is_leading_byte_width_1(lead) && !is_leading_byte_width_2(lead)
            && !is_leading_byte_width_3(lead));
        return Err(Error::MultiByte);  // UTF-16
    } else {
        assert(lead & 0b1100_0000 == 0b1000_0000) by (bit_vector)
            requires
                lead & 0b1000_0000 != 0b0000_0000,
                lead & 0b1110_0000 != 0b1100_0000,
                lead & 0b1111_0000 != 0b1110_0000,
                lead & 0b1111_0000 != 0b1111_0000,
        ;
        return vstd::pervasive::unreached();
    }

    Ok(Ucs2CharFromUtf8 { val: ch, num_bytes: ch_len })
}

} // verus!
