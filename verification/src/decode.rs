//! UCS-2 to UTF-8.

use vstd::prelude::*;
use vstd::slice::slice_subrange;
use crate::bits::{get_bits, lemma_bit_ranges_of_utf8};
use crate::error::Error;

verus! {

/// The number of bytes that one UCS-2 unit takes in UTF-8.
pub open spec fn utf8_len(unit: u16) -> nat {
    if unit < 0x0080 {
        1
    } else if unit < 0x0800 {
        2
    } else {
        3
    }
}

/// The bytes that one UCS-2 unit becomes in UTF-8. Below 0x80 it is the unit
/// itself. Below 0x800 it is a lead byte `110xxxxx` with the bits 6 to 10 of
/// the unit, then a continuation byte `10xxxxxx` with its bits 0 to 5. From
/// 0x800 on it is a lead byte `1110xxxx` with the bits 12 to 15, then two
/// continuation bytes with the bits 6 to 11 and 0 to 5.
pub open spec fn unit_to_utf8(unit: u16) -> Seq<u8> {
    if unit < 0x0080 {
        seq![unit as u8]
    } else if unit < 0x0800 {
        seq![(0b1100_0000 + unit / 64) as u8, (0b1000_0000 + unit % 64) as u8]
    } else {
        seq![
            (0b1110_0000 + unit / 4096) as u8,
            (0b1000_0000 + (unit / 64) % 64) as u8,
            (0b1000_0000 + unit % 64) as u8,
        ]
    }
}

/// The bytes that a sequence of UCS-2 units becomes in UTF-8, unit by unit.
pub open spec fn units_to_utf8(units: Seq<u16>) -> Seq<u8>
    decreases units.len(),
{
    if units.len() == 0 {
        Seq::empty()
    } else {
        units_to_utf8(units.drop_last()) + unit_to_utf8(units.last())
    }
}

/// How many of the first units can be written whole into `capacity` bytes:
/// the length of the longest prefix of `units` whose UTF-8 form fits.
pub open spec fn fitting_units(units: Seq<u16>, capacity: nat) -> nat
    decreases units.len(),
{
    if units.len() == 0 || units_to_utf8(units).len() <= capacity {
        units.len()
    } else {
        fitting_units(units.drop_last(), capacity)
    }
}

/// Every unit takes between one and three bytes.
pub proof fn lemma_unit_to_utf8_len(unit: u16)
    ensures
        unit_to_utf8(unit).len() == utf8_len(unit),
        1 <= utf8_len(unit) <= 3,
{
}

/// Writing one more unit appends its bytes.
pub proof fn lemma_units_to_utf8_step(units: Seq<u16>, k: int)
    requires
        0 <= k < units.len(),
    ensures
        units_to_utf8(units.take(k + 1)) == units_to_utf8(units.take(k)) + unit_to_utf8(units[k]),
        units_to_utf8(units.take(k + 1)).len() == units_to_utf8(units.take(k)).len() + utf8_len(
            units[k],
        ),
{
    assert(units.take(k + 1).drop_last() =~= units.take(k));
    lemma_unit_to_utf8_len(units[k]);
}

/// A longer prefix takes no fewer bytes.
pub proof fn lemma_units_to_utf8_monotonic(units: Seq<u16>, j: int, k: int)
    requires
        0 <= j <= k <= units.len(),
    ensures
        units_to_utf8(units.take(j)).len() <= units_to_utf8(units.take(k)).len(),
    decreases k - j,
{
    if j < k {
        lemma_units_to_utf8_monotonic(units, j, k - 1);
        lemma_units_to_utf8_step(units, k - 1);
    }
}

/// Where the first `k` units fit and the unit after them does not, `k` units
/// are what fits.
pub proof fn lemma_fitting_units(units: Seq<u16>, capacity: nat, k: int)
    requires
        0 <= k <= units.len(),
        units_to_utf8(units.take(k)).len() <= capacity,
        k < units.len() ==> units_to_utf8(units.take(k + 1)).len() > capacity,
    ensures
        fitting_units(units, capacity) == k,
    decreases units.len() - k,
{
    assert(units.take(units.len() as int) =~= units);
    if k < units.len() {
        lemma_units_to_utf8_monotonic(units, k + 1, units.len() as int);
        let shorter = units.drop_last();
        assert(shorter.take(k) =~= units.take(k));
        if k < shorter.len() {
            assert(shorter.take(k + 1) =~= units.take(k + 1));
        }
        lemma_fitting_units(shorter, capacity, k);
    }
}

/// The UTF-8 bytes of one unit, and how many of the three are in use.
fn expand_unit(unit: u16) -> (group: ([u8; 3], usize))
    ensures
        group.1 == utf8_len(unit),
        group.0@.take(group.1 as int) == unit_to_utf8(unit),
{
    proof {
        lemma_bit_ranges_of_utf8(unit);
    }
    if unit < 0x0080 {
        let group: ([u8; 3], usize) = ([unit as u8, 0, 0], 1);
        assert(group.0@.take(1) =~= unit_to_utf8(unit));
        group
    } else if unit < 0x0800 {
        let first: u8 = 0b1100_0000 + get_bits(unit, 6, 11) as u8;
        let last: u8 = 0b1000_0000 + get_bits(unit, 0, 6) as u8;
        let group: ([u8; 3], usize) = ([first, last, 0], 2);
        assert(group.0@.take(2) =~= unit_to_utf8(unit));
        group
    } else {
        let first: u8 = 0b1110_0000 + get_bits(unit, 12, 16) as u8;
        let mid: u8 = 0b1000_0000 + get_bits(unit, 6, 12) as u8;
        let last: u8 = 0b1000_0000 + get_bits(unit, 0, 6) as u8;
        let group: ([u8; 3], usize) = ([first, mid, last], 3);
        assert(group.0@.take(3) =~= unit_to_utf8(unit));
        group
    }
}

/// The callback may take the bytes `group` and return success.
pub open spec fn group_accepted<F: FnMut(&[u8]) -> Result<(), Error>>(
    output: F,
    group: Seq<u8>,
) -> bool {
    exists|bytes: &[u8], result: Result<(), Error>|
        bytes@ == group && result is Ok && #[trigger] call_ensures(output, (bytes,), result)
}

/// The callback may refuse the bytes `group` with the error `e`.
pub open spec fn group_refused<F: FnMut(&[u8]) -> Result<(), Error>>(
    output: F,
    group: Seq<u8>,
    e: Error,
) -> bool {
    exists|bytes: &[u8]| bytes@ == group && #[trigger] call_ensures(output, (bytes,), Err(e))
}

/// Decode UCS-2 string to UTF-8 with a custom callback function.
///
/// `output` is a function which receives every decoded character.
/// Due to the nature of UCS-2, the function can receive an UTF-8 character
/// of up to three bytes, for every input character.
///
/// The units are handed over in order, each as one group of bytes. The first
/// error that `output` returns ends the call and is returned; where it
/// returns none, the result is the number of bytes handed over. That number
/// must fit in `usize`, which it does for `input` of up to a third of
/// `usize::MAX` units.
pub fn decode_with<F>(input: &[u16], output: F) -> (r: Result<usize, Error>) where
    F: FnMut(&[u8]) -> Result<(), Error>,

    requires
        units_to_utf8(input@).len() <= usize::MAX,
        forall|k: int, bytes: &[u8]|
            0 <= k < input@.len() && bytes@ == unit_to_utf8(#[trigger] input@[k])
                ==> #[trigger] call_requires(output, (bytes,)),
    ensures
        match r {
            Ok(n) => {
                &&& n == units_to_utf8(input@).len()
                &&& forall|k: int|
                    0 <= k < input@.len() ==> group_accepted(
                        output,
                        unit_to_utf8(#[trigger] input@[k]),
                    )
            },
            Err(e) => exists|k: int|
                {
                    &&& 0 <= k < input@.len()
                    &&& group_refused(output, unit_to_utf8(#[trigger] input@[k]), e)
                    &&& forall|j: int|
                        0 <= j < k ==> group_accepted(output, unit_to_utf8(#[trigger] input@[j]))
                },
        },
{
    let mut sink = output;
    let mut written: usize = 0;
    let mut k: usize = 0;

    assert(input@.take(0) =~= Seq::<u16>::empty());
    while k < input.len()
        invariant
            k <= input@.len(),
            sink == output,
            units_to_utf8(input@).len() <= usize::MAX,
            forall|k: int, bytes: &[u8]|
                0 <= k < input@.len() && bytes@ == unit_to_utf8(#[trigger] input@[k])
                    ==> #[trigger] call_requires(output, (bytes,)),
            written == units_to_utf8(input@.take(k as int)).len(),
            forall|j: int|
                0 <= j < k ==> group_accepted(output, unit_to_utf8(#[trigger] input@[j])),
        decreases input@.len() - k,
    {
        let unit: u16 = input[k];
        let (bytes, n) = expand_unit(unit);
        let group = slice_subrange(bytes.as_slice(), 0, n);
        proof {
            lemma_units_to_utf8_step(input@, k as int);
            lemma_units_to_utf8_monotonic(input@, k + 1, input@.len() as int);
            assert(input@.take(input@.len() as int) =~= input@);
            assert(group@ =~= unit_to_utf8(input@[k as int]));
        }
        let result = sink(group);
        match result {
            Ok(_) => {
                assert(group_accepted(output, unit_to_utf8(input@[k as int])));
            },
            Err(e) => {
                assert(group_refused(output, unit_to_utf8(input@[k as int]), e));
                return Err(e);
            },
        }
        written += n;
        k += 1;
    }

    assert(input@.take(k as int) =~= input@);
    Ok(written)
}

/// Decode an input UCS-2 string into a UTF-8 string.
///
/// The returned `usize` represents the length of the returned buffer,
/// in bytes. Due to the nature of UCS-2, the output buffer could end up with
/// three bytes for every character in the input buffer.
///
/// The bytes of a unit are written together or not at all: where the next
/// unit does not fit whole into what is left of `output`, nothing of it is
/// written and the call ends with `Error::BufferOverflow`. Whatever the
/// outcome, `output` then starts with the bytes of the units that did fit and
/// is unchanged behind them.
pub fn decode(input: &[u16], output: &mut [u8]) -> (r: Result<usize, Error>)
    ensures
        final(output)@.len() == old(output)@.len(),
        r is Ok <==> units_to_utf8(input@).len() <= old(output)@.len(),
        r matches Ok(n) ==> n == units_to_utf8(input@).len(),
        r matches Err(e) ==> e == Error::BufferOverflow,
        ({
            let fit = fitting_units(input@, old(output)@.len());
            let written = units_to_utf8(input@.take(fit as int));
            final(output)@ == written + old(output)@.skip(written.len() as int)
        }),
{
    let ghost before = output@;
    let buffer_size: usize = output.len();
    let mut i: usize = 0;
    let mut k: usize = 0;

    assert(input@.take(0) =~= Seq::<u16>::empty());
    assert(output@ =~= units_to_utf8(input@.take(0)) + before.skip(0));
    while k < input.len()
        invariant
            k <= input@.len(),
            i <= buffer_size,
            before == old(output)@,
            buffer_size == before.len(),
            output@.len() == before.len(),
            i == units_to_utf8(input@.take(k as int)).len(),
            output@ == units_to_utf8(input@.take(k as int)) + before.skip(i as int),
        decreases input@.len() - k,
    {
        let (bytes, n) = expand_unit(input[k]);
        proof {
            lemma_units_to_utf8_step(input@, k as int);
        }
        if buffer_size - i < n {
            proof {
                lemma_fitting_units(input@, before.len(), k as int);
                lemma_units_to_utf8_monotonic(input@, k + 1, input@.len() as int);
                assert(input@.take(input@.len() as int) =~= input@);
            }
            return Err(Error::BufferOverflow);
        }
        output[i] = bytes[0];
        if n > 1 {
            output[i + 1] = bytes[1];
        }
        if n > 2 {
            output[i + 2] = bytes[2];
        }
        assert(output@ =~= units_to_utf8(input@.take(k as int)) + bytes@.take(n as int)
            + before.skip(i + n));
        i += n;
        k += 1;
    }

    proof {
        assert(input@.take(k as int) =~= input@);
        lemma_fitting_units(input@, before.len(), k as int);
    }
    Ok(i)
}

} // verus!
