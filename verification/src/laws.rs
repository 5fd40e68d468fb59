//! Laws of the bit primitives, each proved from the definitions of the spec
//! functions that the primitives' contracts are stated over.

use vstd::prelude::*;

use crate::field::Position;
use crate::{
    bit_flag, bit_is_set, bit_mask, bit_range, low_mask, range_mask, with_bit_flag,
    with_bit_range,
};

verus! {

/// The range mask has exactly the bits `lsb..=msb` set.
pub proof fn lemma_range_mask_bits(lsb: u8, msb: u8)
    requires
        lsb <= msb <= 7,
    ensures
        forall|n: u8|
            n <= 7 ==> (#[trigger] bit_is_set(range_mask(lsb, msb), n) <==> lsb <= n <= msb),
{
    assert forall|n: u8| n <= 7 implies (#[trigger] bit_is_set(range_mask(lsb, msb), n) <==> lsb
        <= n <= msb) by {
        assert(((((!0u8 << ((7 - msb) as u8)) >> ((7 - msb + lsb) as u8)) << lsb) >> n) & 1 == 1
            <==> lsb <= n <= msb) by (bit_vector)
            requires
                lsb <= msb <= 7,
                n <= 7,
        ;
    }
}

/// Reading a range yields, at bit `n` of the result, bit `n + lsb` of the
/// byte, and nothing above the width of the range.
pub proof fn lemma_bit_range_bits(b: u8, lsb: u8, msb: u8)
    requires
        lsb <= msb <= 7,
    ensures
        forall|n: u8|
            n <= 7 ==> #[trigger] bit_is_set(bit_range(b, lsb, msb), n) == (n <= msb - lsb
                && bit_is_set(b, (n + lsb) as u8)),
{
    assert forall|n: u8| n <= 7 implies #[trigger] bit_is_set(bit_range(b, lsb, msb), n) == (n
        <= msb - lsb && bit_is_set(b, (n + lsb) as u8)) by {
        assert(((((b & (((!0u8 << ((7 - msb) as u8)) >> ((7 - msb + lsb) as u8)) << lsb)) >> lsb)
            >> n) & 1 == 1) == (n <= msb - lsb && (b >> ((n + lsb) as u8)) & 1 == 1))
            by (bit_vector)
            requires
                lsb <= msb <= 7,
                n <= 7,
        ;
    }
}

/// A range that is read fits in its width.
pub proof fn lemma_bit_range_bound(b: u8, lsb: u8, msb: u8)
    requires
        lsb <= msb <= 7,
    ensures
        bit_range(b, lsb, msb) <= low_mask((msb - lsb + 1) as u8),
        bit_range(b, lsb, msb) & low_mask((msb - lsb + 1) as u8) == bit_range(b, lsb, msb),
{
    assert(((b & (((!0u8 << ((7 - msb) as u8)) >> ((7 - msb + lsb) as u8)) << lsb)) >> lsb) <= (!0u8
        >> ((8 - ((msb - lsb + 1) as u8)) as u8)) && ((b & (((!0u8 << ((7 - msb) as u8)) >> ((7
        - msb + lsb) as u8)) << lsb)) >> lsb) & (!0u8 >> ((8 - ((msb - lsb + 1) as u8)) as u8))
        == ((b & (((!0u8 << ((7 - msb) as u8)) >> ((7 - msb + lsb) as u8)) << lsb)) >> lsb))
        by (bit_vector)
        requires
            lsb <= msb <= 7,
    ;
}

/// Writing a range puts bit `n - lsb` of the value at each bit `n` of the
/// range and leaves every bit outside the range unchanged.
pub proof fn lemma_with_bit_range_bits(b: u8, lsb: u8, msb: u8, value: u8)
    requires
        lsb <= msb <= 7,
    ensures
        forall|n: u8|
            n <= 7 ==> #[trigger] bit_is_set(with_bit_range(b, lsb, msb, value), n) == if lsb <= n
                <= msb {
                bit_is_set(value, (n - lsb) as u8)
            } else {
                bit_is_set(b, n)
            },
{
    assert forall|n: u8| n <= 7 implies #[trigger] bit_is_set(
        with_bit_range(b, lsb, msb, value),
        n,
    ) == if lsb <= n <= msb {
        bit_is_set(value, (n - lsb) as u8)
    } else {
        bit_is_set(b, n)
    } by {
        let mask = range_mask(lsb, msb);
        assert(mask == ((!0u8 << ((7 - msb) as u8)) >> ((7 - msb + lsb) as u8)) << lsb);
        assert(((((b & !mask) | ((value << lsb) & mask)) >> n) & 1 == 1) == if lsb <= n <= msb {
            (value >> ((n - lsb) as u8)) & 1 == 1
        } else {
            (b >> n) & 1 == 1
        }) by (bit_vector)
            requires
                lsb <= msb <= 7,
                n <= 7,
                mask == ((!0u8 << ((7 - msb) as u8)) >> ((7 - msb + lsb) as u8)) << lsb,
        ;
    }
}

/// Reading a range back after writing it yields the value that was written,
/// cut to the width of the range.
pub proof fn lemma_get_after_set(b: u8, lsb: u8, msb: u8, value: u8)
    requires
        lsb <= msb <= 7,
    ensures
        bit_range(with_bit_range(b, lsb, msb, value), lsb, msb) == value & low_mask(
            (msb - lsb + 1) as u8,
        ),
        bit_range(with_bit_range(b, lsb, msb, value), lsb, msb) == value & (((1u16 << ((msb - lsb
            + 1) as u16)) - 1) as u8),
{
    assert(!0u8 >> ((8 - ((msb - lsb + 1) as u8)) as u8) == (((1u16 << ((msb - lsb + 1) as u16))
        - 1) as u8)) by (bit_vector)
        requires
            lsb <= msb <= 7,
    ;
    let mask = range_mask(lsb, msb);
    assert(mask == ((!0u8 << ((7 - msb) as u8)) >> ((7 - msb + lsb) as u8)) << lsb);
    assert(((((b & !mask) | ((value << lsb) & mask)) & mask) >> lsb) == value & (!0u8 >> ((8 - ((
        msb - lsb + 1) as u8)) as u8))) by (bit_vector)
        requires
            lsb <= msb <= 7,
            mask == ((!0u8 << ((7 - msb) as u8)) >> ((7 - msb + lsb) as u8)) << lsb,
    ;
}

/// The low mask of a width is one less than two to that width.
pub proof fn lemma_low_mask_value(width: u8)
    requires
        1 <= width <= 8,
    ensures
        low_mask(width) as int == (1u16 << width) - 1,
{
    assert((!0u8 >> ((8 - width) as u8)) as int == (1u16 << width) - 1) by (bit_vector)
        requires
            1 <= width <= 8,
    ;
}

/// Over the whole byte, writing replaces the byte by the value and reading
/// returns the byte.
pub proof fn lemma_full_range(b: u8, value: u8)
    ensures
        with_bit_range(b, 0, 7, value) == value,
        bit_range(b, 0, 7) == b,
        bit_range(with_bit_range(b, 0, 7, value), 0, 7) == value,
{
    let mask = range_mask(0, 7);
    assert(mask == 0xff) by (bit_vector)
        requires
            mask == ((!0u8 << ((7 - 7u8) as u8)) >> ((7 - 7u8 + 0u8) as u8)) << 0u8,
    ;
    assert((b & !0xffu8) | ((value << 0u8) & 0xffu8) == value) by (bit_vector);
    assert((b & 0xffu8) >> 0u8 == b) by (bit_vector);
    assert((value & 0xffu8) >> 0u8 == value) by (bit_vector);
}

/// A range of one bit, `lsb == msb == n`, is the single bit `n`: reading gives
/// that bit as 0 or 1, and writing stores bit 0 of the value there and changes
/// no other bit.
pub proof fn lemma_single_bit_range(b: u8, n: u8, value: u8)
    requires
        n <= 7,
    ensures
        range_mask(n, n) == 1u8 << n,
        bit_range(b, n, n) == (b >> n) & 1,
        bit_range(b, n, n) == if bit_is_set(b, n) { 1u8 } else { 0u8 },
        bit_is_set(with_bit_range(b, n, n, value), n) == bit_is_set(value, 0),
        forall|k: u8|
            k <= 7 && k != n ==> #[trigger] bit_is_set(with_bit_range(b, n, n, value), k)
                == bit_is_set(b, k),
        bit_range(with_bit_range(b, n, n, value), n, n) == value & 1,
{
    let mask = range_mask(n, n);
    assert(mask == 1u8 << n) by (bit_vector)
        requires
            n <= 7,
            mask == ((!0u8 << ((7 - n) as u8)) >> ((7 - n + n) as u8)) << n,
    ;
    assert((b & (1u8 << n)) >> n == (b >> n) & 1) by (bit_vector)
        requires
            n <= 7,
    ;
    assert((b >> n) & 1 == 0 || (b >> n) & 1 == 1) by (bit_vector);
    lemma_with_bit_range_bits(b, n, n, value);
    lemma_get_after_set(b, n, n, value);
    assert(low_mask(1) == 1) by (bit_vector);
    assert(bit_is_set(with_bit_range(b, n, n, value), n) == bit_is_set(value, (n - n) as u8));
}

/// The mask of the single-bit accessors has exactly the bits above `pos` set.
pub proof fn lemma_bit_mask_bits(pos: u8)
    requires
        pos <= 7,
    ensures
        forall|n: u8| n <= 7 ==> (#[trigger] bit_is_set(bit_mask(pos), n) <==> pos < n),
        pos == 7 ==> bit_mask(pos) == 0,
{
    assert forall|n: u8| n <= 7 implies (#[trigger] bit_is_set(bit_mask(pos), n) <==> pos
        < n) by {
        assert((((!1u8 << pos) >> n) & 1 == 1) <==> pos < n) by (bit_vector)
            requires
                pos <= 7,
                n <= 7,
        ;
    }
    assert(pos == 7 ==> (!1u8 << pos) == 0) by (bit_vector);
}

/// The flag that `get_bit` reports is set exactly when every bit above `pos`
/// is set.
pub proof fn lemma_bit_flag_bits(b: u8, pos: u8)
    requires
        pos <= 7,
    ensures
        bit_flag(b, pos) <==> forall|n: u8| pos < n <= 7 ==> #[trigger] bit_is_set(b, n),
{
    let all = forall|n: u8| pos < n <= 7 ==> #[trigger] bit_is_set(b, n);
    if bit_flag(b, pos) {
        assert forall|n: u8| pos < n <= 7 implies #[trigger] bit_is_set(b, n) by {
            assert((b >> n) & 1 == 1) by (bit_vector)
                requires
                    b & (!1u8 << pos) == (!1u8 << pos),
                    pos < n <= 7,
            ;
        }
    }
    if all {
        assert(bit_is_set(b, 1) || pos >= 1);
        assert(bit_is_set(b, 2) || pos >= 2);
        assert(bit_is_set(b, 3) || pos >= 3);
        assert(bit_is_set(b, 4) || pos >= 4);
        assert(bit_is_set(b, 5) || pos >= 5);
        assert(bit_is_set(b, 6) || pos >= 6);
        assert(bit_is_set(b, 7) || pos >= 7);
        assert(b & (!1u8 << pos) == (!1u8 << pos)) by (bit_vector)
            requires
                pos <= 7,
                (b >> 1u8) & 1 == 1 || pos >= 1,
                (b >> 2u8) & 1 == 1 || pos >= 2,
                (b >> 3u8) & 1 == 1 || pos >= 3,
                (b >> 4u8) & 1 == 1 || pos >= 4,
                (b >> 5u8) & 1 == 1 || pos >= 5,
                (b >> 6u8) & 1 == 1 || pos >= 6,
                (b >> 7u8) & 1 == 1 || pos >= 7,
        ;
    }
}

/// Setting the flag writes `value` to every bit above `pos` and leaves bit
/// `pos` and the bits below it unchanged.
pub proof fn lemma_with_bit_flag_bits(b: u8, pos: u8, value: bool)
    requires
        pos <= 7,
    ensures
        forall|n: u8|
            n <= 7 ==> #[trigger] bit_is_set(with_bit_flag(b, pos, value), n) == if pos < n {
                value
            } else {
                bit_is_set(b, n)
            },
{
    assert forall|n: u8| n <= 7 implies #[trigger] bit_is_set(with_bit_flag(b, pos, value), n)
        == if pos < n {
        value
    } else {
        bit_is_set(b, n)
    } by {
        assert(((((b & !(!1u8 << pos)) | (!1u8 << pos)) >> n) & 1 == 1) == if pos < n {
            true
        } else {
            (b >> n) & 1 == 1
        }) by (bit_vector)
            requires
                pos <= 7,
                n <= 7,
        ;
        assert((((b & !(!1u8 << pos)) >> n) & 1 == 1) == if pos < n {
            false
        } else {
            (b >> n) & 1 == 1
        }) by (bit_vector)
            requires
                pos <= 7,
                n <= 7,
        ;
    }
}

/// Below the top bit, the flag that was set is the flag that is read back;
/// at `pos == 7` the mask is empty, nothing is written and the flag reads as
/// `true` whatever was set.
pub proof fn lemma_get_after_set_bit(b: u8, pos: u8, value: bool)
    requires
        pos <= 7,
    ensures
        pos < 7 ==> bit_flag(with_bit_flag(b, pos, value), pos) == value,
        pos == 7 ==> with_bit_flag(b, pos, value) == b && bit_flag(b, pos),
{
    let m = bit_mask(pos);
    assert(((b & !m) | m) & m == m) by (bit_vector);
    assert(pos < 7 ==> (b & !m) & m != m) by (bit_vector)
        requires
            m == !1u8 << pos,
    ;
    assert(pos == 7 ==> m == 0) by (bit_vector)
        requires
            m == !1u8 << pos,
    ;
    assert(m == 0 ==> (b & !m) | m == b && b & !m == b && b & m == m) by (bit_vector);
}

/// Writing at a position keeps the host's length and changes no byte but the
/// one that the position names.
pub proof fn lemma_stored_frame(position: Position, host: Seq<u8>, raw: u8)
    requires
        position.byte_index() < host.len(),
    ensures
        position.stored(host, raw).len() == host.len(),
        forall|k: int|
            0 <= k < host.len() && k != position.byte_index() ==> #[trigger] position.stored(
                host,
                raw,
            )[k] == host[k],
{
}

/// What a range setter stored is what the range getter of the same field
/// reads, cut to the width of the range; the bits of the byte outside the
/// range are unchanged.
pub proof fn lemma_range_stored_then_read(
    byte: usize,
    lsb: u8,
    msb: u8,
    host: Seq<u8>,
    raw: u8,
)
    requires
        lsb <= msb <= 7,
        byte < host.len(),
    ensures
        ({
            let position = Position::Range { byte, lsb, msb };
            &&& position.raw_in(position.stored(host, raw)) == raw & low_mask(
                (msb - lsb + 1) as u8,
            )
            &&& forall|n: u8|
                n <= 7 && !(lsb <= n <= msb) ==> #[trigger] bit_is_set(
                    position.stored(host, raw)[byte as int],
                    n,
                ) == bit_is_set(host[byte as int], n)
        }),
{
    lemma_get_after_set(host[byte as int], lsb, msb, raw);
    lemma_with_bit_range_bits(host[byte as int], lsb, msb, raw);
}

/// Below the top bit, the flag that a single-bit setter stored is the flag
/// that the getter of the same field reads.
pub proof fn lemma_bit_stored_then_read(byte: usize, bit: u8, host: Seq<u8>, value: bool)
    requires
        bit < 7,
        byte < host.len(),
    ensures
        ({
            let position = Position::Bit { byte, bit };
            position.raw_in(position.stored(host, if value { 1u8 } else { 0u8 })) == if value {
                1u8
            } else {
                0u8
            }
        }),
{
    lemma_get_after_set_bit(host[byte as int], bit, value);
}

} // verus!
