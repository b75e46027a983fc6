//! UTF-8 to UCS-2.

use vstd::prelude::*;
use vstd::utf8::encode_utf8;
use crate::codepoint::{
    bmp_prefix_len, is_bmp, lemma_bmp_prefix_found, lemma_bmp_prefix_len, lemma_char_at_offset,
    ucs2_from_utf8_at_offset, ucs2_unit, ucs2_units,
};
use crate::error::Error;

verus! {

/// Encodes an input UTF-8 string into a UCS-2 string.
///
/// The returned `usize` represents the length of the returned buffer,
/// measured in 2-byte characters.
///
/// The characters are taken in order. One outside the Basic Multilingual
/// Plane ends the call with `Error::MultiByte`; one for which `buffer` has no
/// room left ends it with `Error::BufferOverflow`. Whatever the outcome,
/// `buffer` then starts with the units of the characters taken before and is
/// unchanged behind them.
pub fn encode(input: &str, buffer: &mut [u16]) -> (r: Result<usize, Error>)
    ensures
        final(buffer)@.len() == old(buffer)@.len(),
        r is Ok <==> bmp_prefix_len(input@) == input@.len() && input@.len() <= old(buffer)@.len(),
        r matches Ok(n) ==> n == input@.len(),
        r == Err::<usize, Error>(Error::MultiByte) <==> bmp_prefix_len(input@) < input@.len()
            && bmp_prefix_len(input@) <= old(buffer)@.len(),
        r == Err::<usize, Error>(Error::BufferOverflow) <==> old(buffer)@.len() < bmp_prefix_len(
            input@,
        ),
        ({
            let taken = if bmp_prefix_len(input@) <= old(buffer)@.len() {
                bmp_prefix_len(input@) as int
            } else {
                old(buffer)@.len() as int
            };
            final(buffer)@ == ucs2_units(input@.take(taken)) + old(buffer)@.skip(taken)
        }),
{
    let ghost before = buffer@;
    let ghost chars = input@;
    let bytes = input.as_bytes();
    let len: usize = bytes.len();
    let buffer_size: usize = buffer.len();
    let mut i: usize = 0;
    let mut k: usize = 0;

    proof {
        lemma_bmp_prefix_len(chars);
        assert(bytes@.skip(0) =~= bytes@);
        assert(chars.skip(0) =~= chars);
        assert(buffer@ =~= ucs2_units(chars.take(0)) + before.skip(0));
    }
    while i < len
        invariant
            chars == input@,
            before == old(buffer)@,
            len == bytes@.len(),
            buffer_size == before.len(),
            buffer@.len() == before.len(),
            i <= len,
            k <= chars.len(),
            k <= buffer_size,
            bytes@.skip(i as int) == encode_utf8(chars.skip(k as int)),
            forall|j: int| 0 <= j < k ==> is_bmp(#[trigger] chars[j]),
            buffer@ == ucs2_units(chars.take(k as int)) + before.skip(k as int),
        decreases len - i,
    {
        proof {
            lemma_char_at_offset(chars, k as int, bytes@, i as int);
        }
        let ch = match ucs2_from_utf8_at_offset(bytes, i) {
            Ok(ch) => ch,
            Err(e) => {
                proof {
                    lemma_bmp_prefix_found(chars, k as int);
                }
                return Err(e);
            },
        };
        if k >= buffer_size {
            proof {
                lemma_bmp_prefix_found(chars, k + 1);
            }
            return Err(Error::BufferOverflow);
        }
        buffer[k] = ch.val;
        assert(buffer@ =~= ucs2_units(chars.take(k + 1)) + before.skip(k + 1));
        k += 1;
        i += ch.num_bytes as usize;
    }

    proof {
        lemma_char_at_offset(chars, k as int, bytes@, i as int);
        lemma_bmp_prefix_found(chars, k as int);
    }
    Ok(k)
}

/// The callback may take the unit and return success.
pub open spec fn unit_accepted<F: FnMut(u16) -> Result<(), Error>>(output: F, unit: u16) -> bool {
    exists|result: Result<(), Error>|
        result is Ok && #[trigger] call_ensures(output, (unit,), result)
}

/// The callback may refuse the unit with the error `e`.
pub open spec fn unit_refused<F: FnMut(u16) -> Result<(), Error>>(
    output: F,
    unit: u16,
    e: Error,
) -> bool {
    call_ensures(output, (unit,), Err(e))
}

/// Encode UTF-8 string to UCS-2 with a custom callback function.
///
/// `output` is a function which receives every encoded character.
///
/// The characters are taken in order, each handed over as one unit. A
/// character outside the Basic Multilingual Plane ends the call with
/// `Error::MultiByte` before anything is handed over for it; the first error
/// that `output` returns ends the call and is returned.
pub fn encode_with<F>(input: &str, output: F) -> (r: Result<(), Error>) where
    F: FnMut(u16) -> Result<(), Error>,

    requires
        forall|k: int|
            0 <= k < bmp_prefix_len(input@) ==> call_requires(
                output,
                (ucs2_unit(#[trigger] input@[k]),),
            ),
    ensures
        match r {
            Ok(_) => {
                &&& bmp_prefix_len(input@) == input@.len()
                &&& forall|k: int|
                    0 <= k < input@.len() ==> unit_accepted(output, ucs2_unit(#[trigger] input@[k]))
            },
            Err(e) => {
                ||| {
                    &&& e == Error::MultiByte
                    &&& bmp_prefix_len(input@) < input@.len()
                    &&& forall|j: int|
                        0 <= j < bmp_prefix_len(input@) ==> unit_accepted(
                            output,
                            ucs2_unit(#[trigger] input@[j]),
                        )
                }
                ||| exists|k: int|
                    {
                        &&& 0 <= k < bmp_prefix_len(input@)
                        &&& unit_refused(output, ucs2_unit(#[trigger] input@[k]), e)
                        &&& forall|j: int|
                            0 <= j < k ==> unit_accepted(output, ucs2_unit(#[trigger] input@[j]))
                    }
            },
        },
{
    let ghost chars = input@;
    let mut sink = output;
    let bytes = input.as_bytes();
    let len: usize = bytes.len();
    let mut i: usize = 0;
    let ghost mut k: int = 0;

    proof {
        lemma_bmp_prefix_len(chars);
        assert(bytes@.skip(0) =~= bytes@);
        assert(chars.skip(0) =~= chars);
    }
    while i < len
        invariant
            chars == input@,
            sink == output,
            len == bytes@.len(),
            i <= len,
            0 <= k <= chars.len(),
            bytes@.skip(i as int) == encode_utf8(chars.skip(k)),
            forall|j: int| 0 <= j < k ==> is_bmp(#[trigger] chars[j]),
            forall|j: int|
                0 <= j < bmp_prefix_len(chars) ==> call_requires(
                    output,
                    (ucs2_unit(#[trigger] chars[j]),),
                ),
            forall|j: int| 0 <= j < k ==> unit_accepted(output, ucs2_unit(#[trigger] chars[j])),
        decreases len - i,
    {
        proof {
            lemma_char_at_offset(chars, k, bytes@, i as int);
        }
        let ch = match ucs2_from_utf8_at_offset(bytes, i) {
            Ok(ch) => ch,
            Err(e) => {
                proof {
                    lemma_bmp_prefix_found(chars, k);
                }
                return Err(e);
            },
        };
        proof {
            lemma_bmp_prefix_found(chars, k + 1);
        }
        i += ch.num_bytes as usize;
        match sink(ch.val) {
            Ok(_) => {},
            Err(e) => {
                assert(unit_refused(output, ucs2_unit(chars[k]), e));
                return Err(e);
            },
        }
        proof {
            k = k + 1;
        }
    }

    proof {
        lemma_char_at_offset(chars, k, bytes@, i as int);
        lemma_bmp_prefix_found(chars, k);
    }
    Ok(())
}

} // verus!
