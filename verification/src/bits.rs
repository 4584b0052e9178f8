use vstd::prelude::*;

use bit_field::BitField;

verus! {

/// `x` with bits `start..end` replaced by `value`, as `BitField::set_bits`
/// computes it for a 16-bit integer.
pub open spec fn set_bits_u16(x: u16, start: u16, end: u16, value: u16) -> u16 {
    (x & !((((!0u16) << (16 - end) as u16) >> (16 - end) as u16) >> start << start)) | (value << start)
}

/// Whether `value` fits in the bits `start..end` of a 16-bit integer, as
/// `BitField::set_bits` checks it.
pub open spec fn fits_bits_u16(start: u16, end: u16, value: u16) -> bool {
    value << (16 - (end - start)) as u16 >> (16 - (end - start)) as u16 == value
}

/// `x` with bits `start..end` replaced by `value`, as `BitField::set_bits`
/// computes it for a 64-bit integer.
pub open spec fn set_bits_u64(x: u64, start: u64, end: u64, value: u64) -> u64 {
    (x & !((((!0u64) << (64 - end) as u64) >> (64 - end) as u64) >> start << start)) | (value << start)
}

/// Whether `value` fits in the bits `start..end` of a 64-bit integer, as
/// `BitField::set_bits` checks it.
pub open spec fn fits_bits_u64(start: u64, end: u64, value: u64) -> bool {
    value << (64 - (end - start)) as u64 >> (64 - (end - start)) as u64 == value
}

/// Bits `start..end` of `x`, shifted down to bit 0, as `BitField::get_bits`
/// computes them for a 64-bit integer.
pub open spec fn get_bits_u64(x: u64, start: u64, end: u64) -> u64 {
    x << (64 - end) as u64 >> (64 - end) as u64 >> start
}

/// `<u16 as bit_field::BitField>::set_bits` on the range `start..end`: it
/// replaces those bits of `*x` by `value`. It panics where the range is
/// empty or out of bounds or `value` does not fit; the requires leave those
/// inputs out.
#[verifier::external_body]
pub(crate) fn u16_set_bits(x: &mut u16, start: usize, end: usize, value: u16)
    requires
        start < end <= 16,
        fits_bits_u16(start as u16, end as u16, value),
    ensures
        *final(x) == set_bits_u16(*old(x), start as u16, end as u16, value),
{
    x.set_bits(start..end, value);
}

/// `<u16 as bit_field::BitField>::set_bit`: sets bit `bit` of `*x` to
/// `value`. It panics for a bit out of range; the requires leave it out.
#[verifier::external_body]
pub(crate) fn u16_set_bit(x: &mut u16, bit: usize, value: bool)
    requires
        bit < 16,
    ensures
        *final(x) == (if value {
            *old(x) | (1u16 << bit as u16)
        } else {
            *old(x) & !(1u16 << bit as u16)
        }),
{
    x.set_bit(bit, value);
}

/// `<u64 as bit_field::BitField>::set_bits` on the range `start..end`: it
/// replaces those bits of `*x` by `value`. It panics where the range is
/// empty or out of bounds or `value` does not fit; the requires leave those
/// inputs out.
#[verifier::external_body]
pub(crate) fn u64_set_bits(x: &mut u64, start: usize, end: usize, value: u64)
    requires
        start < end <= 64,
        fits_bits_u64(start as u64, end as u64, value),
    ensures
        *final(x) == set_bits_u64(*old(x), start as u64, end as u64, value),
{
    x.set_bits(start..end, value);
}

/// `<u64 as bit_field::BitField>::get_bits` on the range `start..end`: bits
/// `start..end` of `x`, shifted down. It panics where the range is out of
/// bounds; the requires leave that out (and the empty range, which gives 0).
#[verifier::external_body]
pub(crate) fn u64_get_bits(x: u64, start: usize, end: usize) -> (r: u64)
    requires
        start < end <= 64,
    ensures
        r == get_bits_u64(x, start as u64, end as u64),
{
    x.get_bits(start..end)
}

} // verus!
