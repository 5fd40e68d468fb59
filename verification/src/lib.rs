//! Bit-field accessors for values that wrap a fixed-size array of bytes, such
//! as protocol headers and device registers.
//!
//! The crate has three layers.
//!
//! * The bit primitives of this file read and write one byte: an inclusive
//!   range of bits with [`get_bit_range`] and [`set_bit_range`], a bit flag
//!   with [`get_bit`] and [`set_bit`]. Their contracts are stated over the
//!   spec functions [`bit_range`], [`with_bit_range`], [`bit_flag`] and
//!   [`with_bit_flag`]; [`laws`] proves what these mean bit by bit.
//! * [`field`] describes a field: its name, annotations, type, direction and
//!   position. [`grammar`] reads a list of fields from text; [`canonical`]
//!   says how a list is written down and proves that it is read back as it
//!   was.
//! * [`generate`] turns a list of fields into [`accessor`]s or refuses the
//!   list; an accessor applies a primitive at its field's byte of a host.
//!
//! The bit flag is not a single bit. Its mask is `!1 << pos`, the bits above
//! `pos`: [`set_bit`] writes them all and [`get_bit`] asks whether they are
//! all set. The behaviour is kept as it is and stated exactly; a field of one
//! isolated bit is a range with `lsb == msb`.

use vstd::prelude::*;

pub mod accessor;
pub mod canonical;
pub mod field;
pub mod generate;
pub mod grammar;
pub mod laws;
pub mod text;

verus! {

/// Whether bit `n` of `b` is one, bit 0 being the least significant.
pub open spec fn bit_is_set(b: u8, n: u8) -> bool {
    (b >> n) & 1 == 1
}

/// The mask that covers the bits `lsb..=msb` of a byte: all ones, with the
/// bits above `msb` and below `lsb` shifted out.
pub open spec fn range_mask(lsb: u8, msb: u8) -> u8
    recommends
        lsb <= msb <= 7,
{
    ((!0u8 << ((7 - msb) as u8)) >> ((7 - msb + lsb) as u8)) << lsb
}

/// The value with the `width` lowest bits set, `(1 << width) - 1`.
pub open spec fn low_mask(width: u8) -> u8
    recommends
        1 <= width <= 8,
{
    !0u8 >> ((8 - width) as u8)
}

/// The value held by the bits `lsb..=msb` of `b`, moved down to bit 0.
pub open spec fn bit_range(b: u8, lsb: u8, msb: u8) -> u8
    recommends
        lsb <= msb <= 7,
{
    (b & range_mask(lsb, msb)) >> lsb
}

/// The byte `b` with its bits `lsb..=msb` replaced by the low bits of `value`.
pub open spec fn with_bit_range(b: u8, lsb: u8, msb: u8, value: u8) -> u8
    recommends
        lsb <= msb <= 7,
{
    (b & !range_mask(lsb, msb)) | ((value << lsb) & range_mask(lsb, msb))
}

/// The mask of the single-bit accessors: the complement of bit 0, shifted up
/// by `pos`. It covers the bits above `pos` and never bit `pos` itself (see
/// [`laws::lemma_bit_mask_bits`]); at `pos == 7` it is empty.
pub open spec fn bit_mask(pos: u8) -> u8
    recommends
        pos <= 7,
{
    !1u8 << pos
}

/// What [`get_bit`] reports for `b` at `pos`: whether every bit of
/// [`bit_mask`]`(pos)` is set in `b`.
pub open spec fn bit_flag(b: u8, pos: u8) -> bool
    recommends
        pos <= 7,
{
    b & bit_mask(pos) == bit_mask(pos)
}

/// What [`set_bit`] leaves in `b` at `pos`: the bits of [`bit_mask`]`(pos)`
/// all set or all cleared, the others as they were.
pub open spec fn with_bit_flag(b: u8, pos: u8, value: bool) -> u8
    recommends
        pos <= 7,
{
    if value {
        (b & !bit_mask(pos)) | bit_mask(pos)
    } else {
        b & !bit_mask(pos)
    }
}

/// Set `value` in byte `b` in the range of the bit positions `lsb` (least
/// significant bit) and `msb` (most significant bit), both inclusive. The other
/// bits are not touched.
pub fn set_bit_range(b: &mut u8, lsb: u8, msb: u8, value: u8)
    requires
        lsb <= msb <= 7,
    ensures
        *final(b) == with_bit_range(*old(b), lsb, msb, value),
        forall|n: u8|
            n <= 7 ==> #[trigger] bit_is_set(*final(b), n) == if lsb <= n <= msb {
                bit_is_set(value, (n - lsb) as u8)
            } else {
                bit_is_set(*old(b), n)
            },
{
    let mask: u8 = !0u8 << (7 - msb) >> (7 - msb + lsb) << lsb;
    proof {
        laws::lemma_with_bit_range_bits(*b, lsb, msb, value);
    }
    *b &= !mask;
    *b |= (value << lsb) & mask;
}

/// Return the value of byte `b` in the range of the bit positions `lsb`
/// (least significant bit) and `msb` (most significant bit), both inclusive.
pub fn get_bit_range(b: &u8, lsb: u8, msb: u8) -> (value: u8)
    requires
        lsb <= msb <= 7,
    ensures
        value == bit_range(*b, lsb, msb),
        value <= low_mask((msb - lsb + 1) as u8),
        forall|n: u8|
            n <= 7 ==> #[trigger] bit_is_set(value, n) == (n <= msb - lsb && bit_is_set(
                *b,
                (n + lsb) as u8,
            )),
{
    let mask: u8 = !0u8 << (7 - msb) >> (7 - msb + lsb) << lsb;
    proof {
        laws::lemma_bit_range_bits(*b, lsb, msb);
        laws::lemma_bit_range_bound(*b, lsb, msb);
    }
    (*b & mask) >> lsb
}

/// Set the bit flag at position `pos` of byte `b`.
///
/// The mask is `!1 << pos`, which is not the single bit `pos`: the call writes
/// `value` to every bit above `pos` and leaves bit `pos` and the bits below it
/// alone. For one isolated bit use [`set_bit_range`] with `lsb == msb`.
pub fn set_bit(b: &mut u8, pos: u8, value: bool)
    requires
        pos <= 7,
    ensures
        *final(b) == with_bit_flag(*old(b), pos, value),
        forall|n: u8|
            n <= 7 ==> #[trigger] bit_is_set(*final(b), n) == if pos < n {
                value
            } else {
                bit_is_set(*old(b), n)
            },
{
    let mask: u8 = !1u8 << pos;
    proof {
        laws::lemma_with_bit_flag_bits(*b, pos, value);
    }
    *b &= !mask;
    if value {
        *b |= mask;
    }
}

/// Get the bit flag at position `pos` of byte `b`.
///
/// The mask is `!1 << pos`, as in [`set_bit`]: the result is `true` exactly
/// when every bit above `pos` is set, so at `pos == 7` it is always `true`.
pub fn get_bit(b: &u8, pos: u8) -> (value: bool)
    requires
        pos <= 7,
    ensures
        value == bit_flag(*b, pos),
        value <==> forall|n: u8| pos < n <= 7 ==> #[trigger] bit_is_set(*b, n),
{
    let mask: u8 = !1u8 << pos;
    proof {
        laws::lemma_bit_flag_bits(*b, pos);
    }
    (*b & mask) == mask
}

} // verus!
