//! Sizing and filling a fixed array with the UCS-2 form of a text and a
//! trailing null.

use vstd::prelude::*;
use vstd::utf8::encode_utf8;
use crate::codepoint::{
    bmp_prefix_len, is_bmp, lemma_bmp_prefix_found, lemma_bmp_prefix_len, lemma_char_at_offset,
    ucs2_from_utf8_at_offset, ucs2_unit, ucs2_units,
};
use crate::error::Error;

verus! {

/// Count the number of UCS-2 characters in a string. Return an error if
/// the string cannot be encoded in UCS-2.
pub fn str_num_ucs2_chars(s: &str) -> (r: Result<usize, Error>)
    ensures
        r is Ok <==> bmp_prefix_len(s@) == s@.len(),
        r matches Ok(n) ==> n == s@.len(),
        r matches Err(e) ==> e == Error::MultiByte,
{
    let ghost chars = s@;
    let bytes = s.as_bytes();
    let len: usize = bytes.len();

    let mut offset: usize = 0;
    let mut num_ucs2_chars: usize = 0;

    proof {
        assert(bytes@.skip(0) =~= bytes@);
        assert(chars.skip(0) =~= chars);
    }
    while offset < len
        invariant
            chars == s@,
            len == bytes@.len(),
            offset <= len,
            num_ucs2_chars <= offset,
            num_ucs2_chars <= chars.len(),
            bytes@.skip(offset as int) == encode_utf8(chars.skip(num_ucs2_chars as int)),
            forall|j: int| 0 <= j < num_ucs2_chars ==> is_bmp(#[trigger] chars[j]),
        decreases len - offset,
    {
        proof {
            lemma_char_at_offset(chars, num_ucs2_chars as int, bytes@, offset as int);
        }
        match ucs2_from_utf8_at_offset(bytes, offset) {
            Ok(ch) => {
                offset += ch.num_bytes as usize;
                num_ucs2_chars += 1;
            },
            Err(err) => {
                proof {
                    lemma_bmp_prefix_found(chars, num_ucs2_chars as int);
                }
                return Err(err);
            },
        }
    }

    proof {
        lemma_char_at_offset(chars, num_ucs2_chars as int, bytes@, offset as int);
        lemma_bmp_prefix_found(chars, num_ucs2_chars as int);
    }
    Ok(num_ucs2_chars)
}

/// Convert a `str` into a null-terminated UCS-2 character array.
///
/// The array must be one longer than the converted string, to leave room for
/// the trailing null character, and the string must hold no null character of
/// its own. A string with a character outside the Basic Multilingual Plane is
/// refused with `Error::MultiByte`; the characters before that one are then
/// all that is looked at.
pub fn str_to_ucs2<const N: usize>(s: &str) -> (r: Result<[u16; N], Error>)
    requires
        forall|j: int| 0 <= j < bmp_prefix_len(s@) ==> #[trigger] s@[j] != '\0',
        bmp_prefix_len(s@) <= N,
        bmp_prefix_len(s@) == s@.len() ==> s@.len() + 1 == N,
    ensures
        r is Ok <==> bmp_prefix_len(s@) == s@.len(),
        r matches Ok(array) ==> array@ == ucs2_units(s@).push(0),
        r matches Err(e) ==> e == Error::MultiByte,
{
    let ghost chars = s@;
    let bytes = s.as_bytes();
    let len: usize = bytes.len();

    let mut output: [u16; N] = [0u16; N];

    let mut output_offset: usize = 0;
    let mut input_offset: usize = 0;
    proof {
        lemma_bmp_prefix_len(chars);
        assert(bytes@.skip(0) =~= bytes@);
        assert(chars.skip(0) =~= chars);
    }
    while input_offset < len
        invariant
            chars == s@,
            len == bytes@.len(),
            input_offset <= len,
            output_offset <= chars.len(),
            output_offset <= bmp_prefix_len(chars) <= N,
            bmp_prefix_len(chars) == chars.len() ==> chars.len() + 1 == N,
            bytes@.skip(input_offset as int) == encode_utf8(chars.skip(output_offset as int)),
            forall|j: int| 0 <= j < output_offset ==> is_bmp(#[trigger] chars[j]),
            forall|j: int| 0 <= j < output_offset ==> output@[j] == ucs2_unit(chars[j]),
            forall|j: int| output_offset <= j < N ==> output@[j] == 0,
        decreases len - input_offset,
    {
        proof {
            lemma_char_at_offset(chars, output_offset as int, bytes@, input_offset as int);
        }
        match ucs2_from_utf8_at_offset(bytes, input_offset) {
            Ok(ch) => {
                proof {
                    lemma_bmp_prefix_found(chars, output_offset + 1);
                }
                output[output_offset] = ch.val;
                output_offset += 1;
                input_offset += ch.num_bytes as usize;
            },
            Err(err) => {
                proof {
                    lemma_bmp_prefix_found(chars, output_offset as int);
                }
                return Err(err);
            },
        }
    }

    proof {
        lemma_char_at_offset(chars, output_offset as int, bytes@, input_offset as int);
        lemma_bmp_prefix_found(chars, output_offset as int);
        assert(output@ =~= ucs2_units(chars).push(0));
    }
    Ok(output)
}

} // verus!
