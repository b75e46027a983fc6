//! Bit ranges of a 16-bit value.

use vstd::prelude::*;
use vstd::arithmetic::power2::{lemma2_to64, pow2};
use bit_field::BitField;

verus! {

/// The number that the bits `start..end` of `value` spell, bit 0 being the
/// least significant: `value` shifted right by `start`, cut to `end - start`
/// bits.
pub open spec fn bit_range(value: u16, start: nat, end: nat) -> nat
    recommends
        start <= end <= 16,
{
    (value as nat / pow2(start)) % pow2((end - start) as nat)
}

/// The bit ranges that UTF-8 is cut along, with the powers of two written out.
pub proof fn lemma_bit_ranges_of_utf8(value: u16)
    ensures
        bit_range(value, 0, 6) == value % 64,
        bit_range(value, 6, 11) == (value / 64) % 32,
        bit_range(value, 6, 12) == (value / 64) % 64,
        bit_range(value, 12, 16) == value / 4096,
{
    lemma2_to64();
    let v = value as nat;
    let (one, sixteen, thirty_two) = (pow2(0), pow2(4), pow2(5));
    let (sixty_four, four_kib) = (pow2(6), pow2(12));
    assert((v / one) % sixty_four == v % 64 && (v / sixty_four) % thirty_two == (v / 64) % 32 && (v
        / sixty_four) % sixty_four == (v / 64) % 64 && (v / four_kib) % sixteen == (v / 4096) % 16)
        by (nonlinear_arith)
        requires
            one == 1,
            sixteen == 16,
            thirty_two == 32,
            sixty_four == 64,
            four_kib == 4096,
    ;
}

/// Calls `bit_field::BitField::get_bits` on a `u16` with the range
/// `start..end`. Not verified: the contract restates what the crate documents,
/// that the result holds the bits `start..end` of `value`, moved down to bit 0.
/// The crate panics where the range does not lie in the 16 bits, or where
/// `start` is 16; `requires` keeps those calls out.
#[verifier::external_body]
pub(crate) fn get_bits(value: u16, start: usize, end: usize) -> (bits: u16)
    requires
        start < 16,
        start <= end <= 16,
    ensures
        bits == bit_range(value, start as nat, end as nat),
{
    value.get_bits(start..end)
}

} // verus!
