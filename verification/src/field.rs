//! The declarative description of one field: what the field grammar denotes
//! and what accessor generation consumes.

use vstd::prelude::*;

use crate::text::{is_identifier, lines_view, optional_view};
use crate::{bit_flag, bit_range, with_bit_flag, with_bit_range};

verus! {

/// Which accessors a field gets.
#[derive(Clone, Copy, Debug, PartialEq, Eq, Structural)]
pub enum Direction {
    /// `r`: a getter only.
    ReadOnly,
    /// `w`: a setter only.
    WriteOnly,
    /// `rw`: a getter and a setter.
    ReadWrite,
    /// `tr`: a getter only, which yields nothing when the stored raw value
    /// has no counterpart in the field's type. For range fields only.
    TryRead,
}

impl Direction {
    /// Whether a getter is generated.
    pub open spec fn reads(self) -> bool {
        !(self is WriteOnly)
    }

    /// Whether a setter is generated.
    pub open spec fn writes(self) -> bool {
        self is WriteOnly || self is ReadWrite
    }

    /// Whether a getter is generated.
    pub fn includes_read(&self) -> (yes: bool)
        ensures
            yes == self.reads(),
    {
        match self {
            Direction::WriteOnly => false,
            _ => true,
        }
    }

    /// Whether a setter is generated.
    pub fn includes_write(&self) -> (yes: bool)
        ensures
            yes == self.writes(),
    {
        match self {
            Direction::WriteOnly | Direction::ReadWrite => true,
            _ => false,
        }
    }
}

/// Where a field lives in the host's bytes.
#[derive(Clone, Copy, Debug, PartialEq, Eq, Structural)]
pub enum Position {
    /// One bit of one byte.
    Bit { byte: usize, bit: u8 },
    /// The bits `lsb..=msb` of one byte.
    Range { byte: usize, lsb: u8, msb: u8 },
}

impl Position {
    /// The index of the byte that holds the field.
    pub open spec fn byte_index(self) -> usize {
        match self {
            Position::Bit { byte, .. } => byte,
            Position::Range { byte, .. } => byte,
        }
    }

    /// Whether the bit numbers are those of a byte: `bit <= 7`, or
    /// `lsb <= msb <= 7`.
    pub open spec fn bits_valid(self) -> bool {
        match self {
            Position::Bit { bit, .. } => bit <= 7,
            Position::Range { lsb, msb, .. } => lsb <= msb <= 7,
        }
    }

    /// Whether the position lies in a host of `host_len` bytes.
    pub open spec fn valid_in(self, host_len: usize) -> bool {
        self.bits_valid() && self.byte_index() < host_len
    }

    /// What is read at this position of `host`: the flag of a single bit as
    /// 0 or 1, or the raw value of a range.
    pub open spec fn raw_in(self, host: Seq<u8>) -> u8 {
        match self {
            Position::Bit { byte, bit } => if bit_flag(host[byte as int], bit) {
                1u8
            } else {
                0u8
            },
            Position::Range { byte, lsb, msb } => bit_range(host[byte as int], lsb, msb),
        }
    }

    /// The host after `raw` was written at this position: one byte changed as
    /// the bit primitives say, every other byte as it was. A single bit is
    /// set for any `raw` but 0.
    pub open spec fn stored(self, host: Seq<u8>, raw: u8) -> Seq<u8> {
        match self {
            Position::Bit { byte, bit } => host.update(
                byte as int,
                with_bit_flag(host[byte as int], bit, raw != 0),
            ),
            Position::Range { byte, lsb, msb } => host.update(
                byte as int,
                with_bit_range(host[byte as int], lsb, msb, raw),
            ),
        }
    }

    /// The index of the byte that holds the field.
    pub fn byte(&self) -> (index: usize)
        ensures
            index == self.byte_index(),
    {
        match self {
            Position::Bit { byte, .. } => *byte,
            Position::Range { byte, .. } => *byte,
        }
    }

    /// Whether the position lies in a host of `host_len` bytes.
    pub fn is_valid_in(&self, host_len: usize) -> (valid: bool)
        ensures
            valid == self.valid_in(host_len),
    {
        match self {
            Position::Bit { byte, bit } => *bit <= 7 && *byte < host_len,
            Position::Range { byte, lsb, msb } => *lsb <= *msb && *msb <= 7 && *byte < host_len,
        }
    }
}

/// Why a list of fields yields no accessors.
#[derive(Clone, Copy, Debug, PartialEq, Eq, Structural)]
pub enum GenerationError {
    /// The text is not an instance of the field grammar, or a field combines
    /// what the grammar keeps apart.
    MalformedGrammar,
    /// Two fields of one unit have the same identifier.
    DuplicateIdentifier,
    /// A bit number above 7, an `lsb` above its `msb`, or a byte index outside
    /// the host.
    PositionOutOfRange,
}

/// One field, as declared.
#[derive(Clone, Debug)]
pub struct FieldSpec {
    /// The name from which `get_<identifier>` and `set_<identifier>` derive.
    pub identifier: Vec<u8>,
    /// The annotations that preceded the field, each as it was written.
    pub metadata: Vec<Vec<u8>>,
    /// The type of a range field; `None` makes the field a single bit.
    pub semantic_type: Option<Vec<u8>>,
    /// Which accessors are wanted.
    pub direction: Direction,
    /// The byte and the bit or bits that the field occupies.
    pub position: Position,
}

/// The mathematical value of a [`FieldSpec`].
pub struct FieldModel {
    pub identifier: Seq<u8>,
    pub metadata: Seq<Seq<u8>>,
    pub semantic_type: Option<Seq<u8>>,
    pub direction: Direction,
    pub position: Position,
}

impl View for FieldSpec {
    type V = FieldModel;

    open spec fn view(&self) -> FieldModel {
        FieldModel {
            identifier: self.identifier@,
            metadata: lines_view(self.metadata@),
            semantic_type: optional_view(self.semantic_type),
            direction: self.direction,
            position: self.position,
        }
    }
}

/// The values of a list of fields.
pub open spec fn field_models(fields: Seq<FieldSpec>) -> Seq<FieldModel> {
    fields.map_values(|f: FieldSpec| f@)
}

impl FieldModel {
    /// Whether the field is one that the grammar can denote: its name is an
    /// identifier, a type goes with a range and no type with a single bit,
    /// the type is an identifier, and only a range is read fallibly.
    pub open spec fn coherent(self) -> bool {
        &&& is_identifier(self.identifier)
        &&& match self.position {
            Position::Bit { .. } => self.semantic_type is None && !(self.direction is TryRead),
            Position::Range { .. } => self.semantic_type matches Some(name) && is_identifier(
                name,
            ),
        }
    }
}

} // verus!
