//! Accessors: what generation produces for a field. Each is bound to one byte
//! index and one bit or bit range and reads or writes the host's bytes there
//! through the bit primitives.

use vstd::prelude::*;
use vstd::std_specs::convert::{FromSpec, IntoSpec, TryFromSpec};

use crate::field::Position;
use crate::{
    bit_flag, bit_range, get_bit, get_bit_range, set_bit, set_bit_range, with_bit_flag,
    with_bit_range,
};

verus! {

/// What an accessor does.
#[derive(Clone, Copy, Debug, PartialEq, Eq, Structural)]
pub enum AccessorKind {
    /// Reads a single-bit field as a `bool`.
    GetBit,
    /// Writes a single-bit field from a `bool`.
    SetBit,
    /// Reads a range field and converts the raw value to the field's type.
    GetRange,
    /// Reads a range field; yields nothing when the raw value has no
    /// counterpart in the field's type.
    TryGetRange,
    /// Converts a value of the field's type to its raw value and writes it
    /// to a range field.
    SetRange,
}

/// One generated accessor.
#[derive(Clone, Debug)]
pub struct Accessor {
    /// `get_<identifier>` or `set_<identifier>`.
    pub name: Vec<u8>,
    /// The field's annotations, unchanged.
    pub metadata: Vec<Vec<u8>>,
    /// The field's type, for a range field.
    pub semantic_type: Option<Vec<u8>>,
    /// What the accessor does.
    pub kind: AccessorKind,
    /// Where it does it.
    pub position: Position,
}

impl Accessor {
    /// Whether the accessor touches a single bit.
    pub open spec fn on_bit(self) -> bool {
        self.kind is GetBit || self.kind is SetBit
    }

    /// The accessor's invariant: its kind matches the shape of its position,
    /// and the bit numbers are those of a byte.
    pub open spec fn wf(self) -> bool {
        &&& self.position.bits_valid()
        &&& self.on_bit() <==> self.position is Bit
    }

    /// Whether the accessor may be used on a host of `host_len` bytes.
    pub open spec fn fits(self, host_len: nat) -> bool {
        self.wf() && self.position.byte_index() < host_len
    }

    /// Read a single-bit field.
    pub fn get_bit(&self, host: &[u8]) -> (value: bool)
        requires
            self.fits(host@.len()),
            self.kind is GetBit,
        ensures
            value == (self.position.raw_in(host@) == 1),
            self.position matches Position::Bit { byte, bit } && value == bit_flag(
                host@[byte as int],
                bit,
            ),
    {
        match self.position {
            Position::Bit { byte, bit } => get_bit(&host[byte], bit),
            Position::Range { .. } => false,
        }
    }

    /// Write a single-bit field. Only the field's byte changes.
    pub fn set_bit(&self, host: &mut [u8], value: bool)
        requires
            self.fits(old(host)@.len()),
            self.kind is SetBit,
        ensures
            final(host)@ == self.position.stored(old(host)@, if value { 1u8 } else { 0u8 }),
            self.position matches Position::Bit { byte, bit } && final(host)@ == old(
                host,
            )@.update(byte as int, with_bit_flag(old(host)@[byte as int], bit, value)),
    {
        match self.position {
            Position::Bit { byte, bit } => {
                let mut b: u8 = host[byte];
                set_bit(&mut b, bit, value);
                host[byte] = b;
            },
            Position::Range { .. } => {},
        }
    }

    /// Read the raw value of a range field.
    pub fn get_raw(&self, host: &[u8]) -> (raw: u8)
        requires
            self.fits(host@.len()),
            self.kind is GetRange || self.kind is TryGetRange,
        ensures
            raw == self.position.raw_in(host@),
            self.position matches Position::Range { byte, lsb, msb } && raw == bit_range(
                host@[byte as int],
                lsb,
                msb,
            ),
    {
        match self.position {
            Position::Range { byte, lsb, msb } => get_bit_range(&host[byte], lsb, msb),
            Position::Bit { .. } => 0,
        }
    }

    /// Write the raw value of a range field. Only the field's byte changes.
    pub fn set_raw(&self, host: &mut [u8], raw: u8)
        requires
            self.fits(old(host)@.len()),
            self.kind is SetRange,
        ensures
            final(host)@ == self.position.stored(old(host)@, raw),
            self.position matches Position::Range { byte, lsb, msb } && final(host)@ == old(
                host,
            )@.update(byte as int, with_bit_range(old(host)@[byte as int], lsb, msb, raw)),
    {
        match self.position {
            Position::Range { byte, lsb, msb } => {
                let mut b: u8 = host[byte];
                set_bit_range(&mut b, lsb, msb, raw);
                host[byte] = b;
            },
            Position::Bit { .. } => {},
        }
    }

    /// Read a range field as its type `T`: the raw value, converted by
    /// `T::from`.
    pub fn get<T: From<u8>>(&self, host: &[u8]) -> (value: T)
        requires
            self.fits(host@.len()),
            self.kind is GetRange,
        ensures
            call_ensures(T::from, (self.position.raw_in(host@),), value),
            T::obeys_from_spec() ==> value == T::from_spec(self.position.raw_in(host@)),
    {
        T::from(self.get_raw(host))
    }

    /// Read a range field as its type `T` where not every raw value has a
    /// counterpart in `T`: the raw value, converted by `T::try_from`, and
    /// `None` where that conversion fails.
    pub fn try_get<T: TryFrom<u8>>(&self, host: &[u8]) -> (value: Option<T>)
        requires
            self.fits(host@.len()),
            self.kind is TryGetRange,
        ensures
            exists|outcome: Result<T, T::Error>|
                #![trigger call_ensures(T::try_from, (self.position.raw_in(host@),), outcome)]
                call_ensures(T::try_from, (self.position.raw_in(host@),), outcome)
                    && value == present(outcome),
            T::obeys_try_from_spec() ==> value == present(
                T::try_from_spec(self.position.raw_in(host@)),
            ),
    {
        let outcome = T::try_from(self.get_raw(host));
        present_value(outcome)
    }

    /// Write a range field from a value of its type `T`: the value is
    /// converted by `into` and the raw value stored. Only the field's byte
    /// changes.
    pub fn set<T: Into<u8>>(&self, host: &mut [u8], value: T)
        requires
            self.fits(old(host)@.len()),
            self.kind is SetRange,
        ensures
            exists|raw: u8|
                #![trigger self.position.stored(old(host)@, raw)]
                call_ensures(T::into, (value,), raw) && final(host)@ == self.position.stored(
                    old(host)@,
                    raw,
                ),
            T::obeys_into_spec() ==> final(host)@ == self.position.stored(
                old(host)@,
                value.into_spec(),
            ),
    {
        let raw: u8 = value.into();
        self.set_raw(host, raw);
    }
}

/// What a fallible conversion found, if anything.
pub open spec fn present<T, E>(outcome: Result<T, E>) -> Option<T> {
    match outcome {
        Ok(v) => Some(v),
        Err(_) => None,
    }
}

/// The value of a fallible conversion that succeeded, `None` of one that
/// did not.
pub fn present_value<T, E>(outcome: Result<T, E>) -> (value: Option<T>)
    ensures
        value == present(outcome),
{
    match outcome {
        Ok(v) => Some(v),
        Err(_) => None,
    }
}

} // verus!
