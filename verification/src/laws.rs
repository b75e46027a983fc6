//! What holds of the two directions together, and of text as bytes.

use vstd::prelude::*;
use vstd::utf8::{encode_scalar, encode_utf8};
use crate::codepoint::{bmp_prefix_len, is_bmp, lemma_bmp_prefix_len, ucs2_unit, ucs2_units};
use crate::decode::{unit_to_utf8, units_to_utf8};

verus! {

/// The UCS-2 unit of a character of the Basic Multilingual Plane becomes, in
/// UTF-8, the encoding of that character.
pub proof fn lemma_unit_round_trip(c: char)
    requires
        is_bmp(c),
    ensures
        unit_to_utf8(ucs2_unit(c)) == encode_scalar(c as u32),
{
    let scalar = c as u32;
    let unit = ucs2_unit(c);
    if scalar < 0x80 {
        assert(unit as u8 == (scalar & 0x7F) as u8) by (bit_vector)
            requires
                unit == scalar,
                scalar < 0x80,
        ;
    } else if scalar < 0x800 {
        assert((0xC0 + unit / 64) as u8 == 0xC0 | ((scalar >> 6) & 0x1F) as u8 && (0x80 + unit
            % 64) as u8 == 0x80 | (scalar & 0x3F) as u8)
            by (bit_vector)
            requires
                unit == scalar,
                0x80 <= scalar < 0x800,
        ;
    } else {
        assert((0xE0 + unit / 4096) as u8 == 0xE0 | ((scalar >> 12) & 0x0F) as u8 && (0x80 + (unit
            / 64) % 64) as u8 == 0x80 | ((scalar >> 6) & 0x3F) as u8 && (0x80 + unit % 64) as u8
            == 0x80 | (scalar & 0x3F) as u8)
            by (bit_vector)
            requires
                unit == scalar,
                0x800 <= scalar <= 0xFFFF,
        ;
    }
    assert(unit_to_utf8(unit) =~= encode_scalar(scalar));
}

/// The bytes of two sequences of units, one after the other, are the bytes
/// of the units taken as one sequence.
pub proof fn lemma_units_to_utf8_concat(front: Seq<u16>, back: Seq<u16>)
    ensures
        units_to_utf8(front + back) == units_to_utf8(front) + units_to_utf8(back),
    decreases back.len(),
{
    if back.len() == 0 {
        assert(front + back =~= front);
    } else {
        assert((front + back).drop_last() =~= front + back.drop_last());
        lemma_units_to_utf8_concat(front, back.drop_last());
    }
}

/// Round trip: a text whose characters all lie in the Basic Multilingual
/// Plane, turned into UCS-2 units and those turned back into UTF-8, gives the
/// bytes of the text again.
pub proof fn lemma_round_trip(chars: Seq<char>)
    requires
        bmp_prefix_len(chars) == chars.len(),
    ensures
        units_to_utf8(ucs2_units(chars)) == encode_utf8(chars),
    decreases chars.len(),
{
    if chars.len() == 0 {
        assert(ucs2_units(chars) =~= Seq::<u16>::empty());
    } else {
        let first = seq![ucs2_unit(chars[0])];
        let rest = chars.drop_first();
        lemma_unit_round_trip(chars[0]);
        lemma_round_trip(rest);
        assert(ucs2_units(chars) =~= first + ucs2_units(rest));
        lemma_units_to_utf8_concat(first, ucs2_units(rest));
        assert(units_to_utf8(first) =~= unit_to_utf8(first[0])) by {
            assert(units_to_utf8(first.drop_last()) =~= Seq::<u8>::empty());
        }
    }
}

/// Units take between one and three bytes each.
pub proof fn lemma_units_to_utf8_len_bounds(units: Seq<u16>)
    ensures
        units.len() <= units_to_utf8(units).len() <= 3 * units.len(),
    decreases units.len(),
{
    if units.len() != 0 {
        lemma_units_to_utf8_len_bounds(units.drop_last());
    }
}

/// The bytes `0xF0` to `0xF4` start the UTF-8 sequences of four bytes. The
/// encoding of a character holds one of them exactly where the character
/// lies outside the Basic Multilingual Plane.
pub proof fn lemma_four_byte_lead_of_char(c: char)
    ensures
        !is_bmp(c) <==> exists|i: int|
            0 <= i < encode_scalar(c as u32).len() && 0xF0 <= #[trigger] encode_scalar(
                c as u32,
            )[i] <= 0xF4,
{
    let scalar = c as u32;
    let bytes = encode_scalar(scalar);
    if scalar < 0x80 {
        assert((scalar & 0x7F) as u8 <= 0x7F) by (bit_vector);
    } else if scalar < 0x800 {
        assert(0xC0 | ((scalar >> 6) & 0x1F) as u8 <= 0xDF) by (bit_vector);
        assert(0x80 | (scalar & 0x3F) as u8 <= 0xBF) by (bit_vector);
    } else if scalar <= 0xFFFF {
        assert(0xE0 | ((scalar >> 12) & 0x0F) as u8 <= 0xEF) by (bit_vector);
        assert(0x80 | ((scalar >> 6) & 0x3F) as u8 <= 0xBF) by (bit_vector);
        assert(0x80 | (scalar & 0x3F) as u8 <= 0xBF) by (bit_vector);
    } else {
        assert(0xF0 <= 0xF0 | ((scalar >> 18) & 0x7) as u8 <= 0xF4) by (bit_vector)
            requires
                0x10000 <= scalar <= 0x10FFFF,
        ;
        assert(0xF0 <= bytes[0] <= 0xF4);
    }
}

/// A text holds a character outside the Basic Multilingual Plane exactly
/// where its UTF-8 bytes hold one of the lead bytes `0xF0` to `0xF4`.
pub proof fn lemma_four_byte_lead(chars: Seq<char>)
    ensures
        bmp_prefix_len(chars) < chars.len() <==> exists|i: int|
            0 <= i < encode_utf8(chars).len() && 0xF0 <= #[trigger] encode_utf8(chars)[i] <= 0xF4,
    decreases chars.len(),
{
    lemma_bmp_prefix_len(chars);
    if chars.len() != 0 {
        let head = encode_scalar(chars[0] as u32);
        let rest = chars.drop_first();
        let tail = encode_utf8(rest);
        let bytes = encode_utf8(chars);
        assert(bytes == head + tail);
        lemma_four_byte_lead_of_char(chars[0]);
        lemma_four_byte_lead(rest);
        lemma_bmp_prefix_len(rest);
        if bmp_prefix_len(chars) < chars.len() {
            if !is_bmp(chars[0]) {
                let i = choose|i: int| 0 <= i < head.len() && 0xF0 <= #[trigger] head[i] <= 0xF4;
                assert(bytes[i] == head[i]);
            } else {
                let i = choose|i: int| 0 <= i < tail.len() && 0xF0 <= #[trigger] tail[i] <= 0xF4;
                assert(bytes[head.len() + i] == tail[i]);
            }
        }
        if exists|i: int| 0 <= i < bytes.len() && 0xF0 <= #[trigger] bytes[i] <= 0xF4 {
            let i = choose|i: int| 0 <= i < bytes.len() && 0xF0 <= #[trigger] bytes[i] <= 0xF4;
            if i < head.len() {
                assert(bytes[i] == head[i]);
            } else {
                assert(bytes[i] == tail[i - head.len()]);
            }
        }
    }
}

} // verus!
