//! Accessor generation: a list of fields becomes a list of accessors, or is
//! refused as a whole.
//!
//! Fields are taken in order; a field that reads yields its getter, one that
//! writes its setter, one that does both the getter first. Nothing is
//! generated if any field is refused.

use vstd::prelude::*;

use crate::accessor::{Accessor, AccessorKind};
use crate::field::{
    field_models, Direction, FieldModel, FieldSpec, GenerationError, Position,
};
use crate::grammar::{parse, parse_fields};
use crate::text::{
    append_bytes, copy_lines, copy_optional, identifier, lines_view, optional_view, same_bytes,
};

verus! {

/// The mathematical value of an [`Accessor`].
pub struct AccessorModel {
    pub name: Seq<u8>,
    pub metadata: Seq<Seq<u8>>,
    pub semantic_type: Option<Seq<u8>>,
    pub kind: AccessorKind,
    pub position: Position,
}

impl View for Accessor {
    type V = AccessorModel;

    open spec fn view(&self) -> AccessorModel {
        AccessorModel {
            name: self.name@,
            metadata: lines_view(self.metadata@),
            semantic_type: optional_view(self.semantic_type),
            kind: self.kind,
            position: self.position,
        }
    }
}

/// The values of a list of accessors.
pub open spec fn accessor_models(accessors: Seq<Accessor>) -> Seq<AccessorModel> {
    accessors.map_values(|a: Accessor| a@)
}

/// The bytes of `get_`.
pub open spec fn getter_prefix() -> Seq<u8> {
    seq![0x67u8, 0x65u8, 0x74u8, 0x5fu8]
}

/// The bytes of `set_`.
pub open spec fn setter_prefix() -> Seq<u8> {
    seq![0x73u8, 0x65u8, 0x74u8, 0x5fu8]
}

/// The getter of a field: named `get_<identifier>`, with the field's
/// annotations, type and position.
pub open spec fn getter_of(field: FieldModel) -> AccessorModel {
    AccessorModel {
        name: getter_prefix() + field.identifier,
        metadata: field.metadata,
        semantic_type: field.semantic_type,
        kind: match field.position {
            Position::Bit { .. } => AccessorKind::GetBit,
            Position::Range { .. } => if field.direction is TryRead {
                AccessorKind::TryGetRange
            } else {
                AccessorKind::GetRange
            },
        },
        position: field.position,
    }
}

/// The setter of a field: named `set_<identifier>`, with the field's
/// annotations, type and position.
pub open spec fn setter_of(field: FieldModel) -> AccessorModel {
    AccessorModel {
        name: setter_prefix() + field.identifier,
        metadata: field.metadata,
        semantic_type: field.semantic_type,
        kind: match field.position {
            Position::Bit { .. } => AccessorKind::SetBit,
            Position::Range { .. } => AccessorKind::SetRange,
        },
        position: field.position,
    }
}

/// The accessors of one field, the getter before the setter.
pub open spec fn accessors_of(field: FieldModel) -> Seq<AccessorModel> {
    let getter = if field.direction.reads() {
        seq![getter_of(field)]
    } else {
        Seq::empty()
    };
    let setter = if field.direction.writes() {
        seq![setter_of(field)]
    } else {
        Seq::empty()
    };
    getter + setter
}

/// The accessors of a list of fields, field by field in the order given.
pub open spec fn expand(fields: Seq<FieldModel>) -> Seq<AccessorModel>
    decreases fields.len(),
{
    if fields.len() == 0 {
        Seq::empty()
    } else {
        expand(fields.drop_last()) + accessors_of(fields.last())
    }
}

/// Whether an earlier field of the list has the identifier of field `i`.
pub open spec fn repeats_identifier(fields: Seq<FieldModel>, i: int) -> bool {
    exists|j: int| 0 <= j < i && (#[trigger] fields[j]).identifier == fields[i].identifier
}

/// Why field `i` of the list is refused for a host of `host_len` bytes, if it
/// is: because it is not coherent, else because of its position, else
/// because its identifier was used before.
pub open spec fn field_error(fields: Seq<FieldModel>, i: int, host_len: usize) -> Option<
    GenerationError,
> {
    if !fields[i].coherent() {
        Some(GenerationError::MalformedGrammar)
    } else if !fields[i].position.valid_in(host_len) {
        Some(GenerationError::PositionOutOfRange)
    } else if repeats_identifier(fields, i) {
        Some(GenerationError::DuplicateIdentifier)
    } else {
        None
    }
}

/// Whether every field of the list is accepted.
pub open spec fn unit_accepted(fields: Seq<FieldModel>, host_len: usize) -> bool {
    forall|i: int| 0 <= i < fields.len() ==> (#[trigger] field_error(fields, i, host_len)) is None
}

/// Whether `error` is the reason for which the first refused field of the
/// list is refused.
pub open spec fn unit_refused(
    fields: Seq<FieldModel>,
    host_len: usize,
    error: GenerationError,
) -> bool {
    exists|i: int|
        0 <= i < fields.len() && #[trigger] field_error(fields, i, host_len) == Some(error)
            && forall|j: int| 0 <= j < i ==> (#[trigger] field_error(fields, j, host_len)) is None
}

/// Whether the field's parts agree with each other.
pub fn coherent(field: &FieldSpec) -> (yes: bool)
    ensures
        yes == field@.coherent(),
{
    if !identifier(field.identifier.as_slice()) {
        return false;
    }
    match field.position {
        Position::Bit { .. } => {
            field.semantic_type.is_none() && !matches!(field.direction, Direction::TryRead)
        },
        Position::Range { .. } => match &field.semantic_type {
            Some(name) => identifier(name.as_slice()),
            None => false,
        },
    }
}

/// Why field `i` of the list is refused, if it is.
pub fn check_field(fields: &Vec<FieldSpec>, i: usize, host_len: usize) -> (error: Option<
    GenerationError,
>)
    requires
        i < fields.len(),
    ensures
        error == field_error(field_models(fields@), i as int, host_len),
{
    let field = &fields[i];
    if !coherent(field) {
        return Some(GenerationError::MalformedGrammar);
    }
    if !field.position.is_valid_in(host_len) {
        return Some(GenerationError::PositionOutOfRange);
    }
    let ghost models = field_models(fields@);
    let mut j: usize = 0;
    while j < i
        invariant
            j <= i < fields.len(),
            models == field_models(fields@),
            field == fields@[i as int],
            models[i as int].coherent(),
            models[i as int].position.valid_in(host_len),
            forall|k: int|
                0 <= k < j ==> (#[trigger] models[k]).identifier != models[i as int].identifier,
        decreases i - j,
    {
        if same_bytes(fields[j].identifier.as_slice(), field.identifier.as_slice()) {
            assert(models[j as int].identifier == models[i as int].identifier);
            assert(repeats_identifier(models, i as int));
            return Some(GenerationError::DuplicateIdentifier);
        }
        j += 1;
    }
    None
}

/// The getter of a field.
pub fn getter(field: &FieldSpec) -> (accessor: Accessor)
    ensures
        accessor@ == getter_of(field@),
{
    let mut name: Vec<u8> = Vec::new();
    name.push(0x67u8);
    name.push(0x65u8);
    name.push(0x74u8);
    name.push(0x5fu8);
    assert(name@ =~= getter_prefix());
    append_bytes(&mut name, field.identifier.as_slice());
    let kind = match field.position {
        Position::Bit { .. } => AccessorKind::GetBit,
        Position::Range { .. } => match field.direction {
            Direction::TryRead => AccessorKind::TryGetRange,
            _ => AccessorKind::GetRange,
        },
    };
    Accessor {
        name,
        metadata: copy_lines(&field.metadata),
        semantic_type: copy_optional(&field.semantic_type),
        kind,
        position: field.position,
    }
}

/// The setter of a field.
pub fn setter(field: &FieldSpec) -> (accessor: Accessor)
    ensures
        accessor@ == setter_of(field@),
{
    let mut name: Vec<u8> = Vec::new();
    name.push(0x73u8);
    name.push(0x65u8);
    name.push(0x74u8);
    name.push(0x5fu8);
    assert(name@ =~= setter_prefix());
    append_bytes(&mut name, field.identifier.as_slice());
    let kind = match field.position {
        Position::Bit { .. } => AccessorKind::SetBit,
        Position::Range { .. } => AccessorKind::SetRange,
    };
    Accessor {
        name,
        metadata: copy_lines(&field.metadata),
        semantic_type: copy_optional(&field.semantic_type),
        kind,
        position: field.position,
    }
}

/// Generate the accessors of a list of fields for a host of `host_len` bytes.
///
/// The list is accepted when every field is coherent, lies in the host and has
/// an identifier of its own; the accessors are then those of [`expand`], and
/// each may be used on any host of that many bytes. Otherwise the error is
/// that of the first refused field, and nothing is generated.
pub fn generate(fields: &Vec<FieldSpec>, host_len: usize) -> (result: Result<
    Vec<Accessor>,
    GenerationError,
>)
    ensures
        match result {
            Ok(accessors) => {
                &&& unit_accepted(field_models(fields@), host_len)
                &&& accessor_models(accessors@) == expand(field_models(fields@))
                &&& forall|k: int|
                    0 <= k < accessors.len() ==> (#[trigger] accessors[k]).fits(host_len as nat)
            },
            Err(error) => unit_refused(field_models(fields@), host_len, error),
        },
{
    let ghost models = field_models(fields@);
    let mut accessors: Vec<Accessor> = Vec::new();
    let mut i: usize = 0;
    assert(models.take(0) =~= Seq::<FieldModel>::empty());
    assert(accessor_models(accessors@) =~= expand(models.take(0)));
    while i < fields.len()
        invariant
            i <= fields.len(),
            models == field_models(fields@),
            forall|j: int| 0 <= j < i ==> (#[trigger] field_error(models, j, host_len)) is None,
            accessor_models(accessors@) == expand(models.take(i as int)),
            forall|k: int|
                0 <= k < accessors.len() ==> (#[trigger] accessors[k]).fits(host_len as nat),
        decreases fields.len() - i,
    {
        let field = &fields[i];
        match check_field(fields, i, host_len) {
            Some(error) => {
                return Err(error);
            },
            None => {},
        }
        let ghost before = accessors@;
        if field.direction.includes_read() {
            accessors.push(getter(field));
        }
        let ghost between = accessors@;
        if field.direction.includes_write() {
            accessors.push(setter(field));
        }
        proof {
            let prefix = models.take(i + 1);
            assert(prefix.drop_last() =~= models.take(i as int));
            assert(prefix.last() == field@);
            assert(accessor_models(accessors@) =~= accessor_models(before) + accessors_of(
                field@,
            ));
        }
        i += 1;
    }
    assert(models.take(i as int) =~= models);
    Ok(accessors)
}

/// A list in which two fields have the same identifier is never accepted.
pub proof fn lemma_duplicate_not_accepted(
    fields: Seq<FieldModel>,
    host_len: usize,
    i: int,
    j: int,
)
    requires
        0 <= i < j < fields.len(),
        fields[i].identifier == fields[j].identifier,
    ensures
        !unit_accepted(fields, host_len),
{
    assert(repeats_identifier(fields, j));
    assert(field_error(fields, j, host_len) is Some);
}

/// A list whose fields are all coherent and lie in the host is refused only
/// for a repeated identifier, and is refused if it has one.
pub proof fn lemma_only_duplicates_left(
    fields: Seq<FieldModel>,
    host_len: usize,
    error: GenerationError,
)
    requires
        forall|k: int|
            0 <= k < fields.len() ==> (#[trigger] fields[k]).coherent()
                && fields[k].position.valid_in(host_len),
        unit_refused(fields, host_len, error),
    ensures
        error == GenerationError::DuplicateIdentifier,
        exists|i: int, j: int|
            0 <= i < j < fields.len() && (#[trigger] fields[i]).identifier
                == (#[trigger] fields[j]).identifier,
{
    let j = choose|j: int|
        0 <= j < fields.len() && #[trigger] field_error(fields, j, host_len) == Some(error)
            && forall|k: int| 0 <= k < j ==> (#[trigger] field_error(fields, k, host_len)) is None;
    assert(fields[j].coherent());
    assert(repeats_identifier(fields, j));
    let i = choose|i: int| 0 <= i < j && (#[trigger] fields[i]).identifier == fields[j].identifier;
    assert(fields[i].identifier == fields[j].identifier);
}

/// A list is either accepted or refused for exactly one reason.
pub proof fn lemma_accepted_or_refused(fields: Seq<FieldModel>, host_len: usize)
    ensures
        unit_accepted(fields, host_len) <==> forall|error: GenerationError|
            !unit_refused(fields, host_len, error),
        forall|first: GenerationError, second: GenerationError|
            unit_refused(fields, host_len, first) && unit_refused(fields, host_len, second)
                ==> first == second,
{
    if !unit_accepted(fields, host_len) {
        let some = choose|i: int|
            0 <= i < fields.len() && (#[trigger] field_error(fields, i, host_len)) is Some;
        lemma_first_refused(fields, host_len, some);
    }
    assert forall|first: GenerationError, second: GenerationError|
        unit_refused(fields, host_len, first) && unit_refused(
            fields,
            host_len,
            second,
        ) implies first == second by {
        let a = choose|i: int|
            0 <= i < fields.len() && #[trigger] field_error(fields, i, host_len) == Some(first)
                && forall|j: int|
                0 <= j < i ==> (#[trigger] field_error(fields, j, host_len)) is None;
        let b = choose|i: int|
            0 <= i < fields.len() && #[trigger] field_error(fields, i, host_len) == Some(second)
                && forall|j: int|
                0 <= j < i ==> (#[trigger] field_error(fields, j, host_len)) is None;
        if a < b {
            assert(field_error(fields, a, host_len) is None);
        }
        if b < a {
            assert(field_error(fields, b, host_len) is None);
        }
    }
}

/// Where some field up to `last` is refused, the list is refused for the
/// reason of the first such field.
proof fn lemma_first_refused(fields: Seq<FieldModel>, host_len: usize, last: int)
    requires
        0 <= last < fields.len(),
        field_error(fields, last, host_len) is Some,
    ensures
        exists|error: GenerationError| unit_refused(fields, host_len, error),
    decreases last,
{
    if exists|k: int| 0 <= k < last && (#[trigger] field_error(fields, k, host_len)) is Some {
        let k = choose|k: int|
            0 <= k < last && (#[trigger] field_error(fields, k, host_len)) is Some;
        lemma_first_refused(fields, host_len, k);
    } else {
        let error = field_error(fields, last, host_len)->Some_0;
        assert(field_error(fields, last, host_len) == Some(error));
        assert(unit_refused(fields, host_len, error));
    }
}

/// Whether `accessor` is what `field` yields as its getter or its setter.
pub open spec fn made_from(accessor: AccessorModel, field: FieldModel) -> bool {
    ||| field.direction.reads() && accessor == getter_of(field)
    ||| field.direction.writes() && accessor == setter_of(field)
}

/// Every accessor of a list is the getter or the setter of one of its fields.
pub proof fn lemma_expand_members(fields: Seq<FieldModel>, a: int)
    requires
        0 <= a < expand(fields).len(),
    ensures
        exists|k: int| 0 <= k < fields.len() && made_from(expand(fields)[a], #[trigger] fields[k]),
    decreases fields.len(),
{
    let rest = expand(fields.drop_last());
    let last = fields.len() - 1;
    if a < rest.len() {
        lemma_expand_members(fields.drop_last(), a);
        let k = choose|k: int|
            0 <= k < fields.drop_last().len() && made_from(
                rest[a],
                #[trigger] fields.drop_last()[k],
            );
        assert(made_from(expand(fields)[a], fields[k]));
    } else {
        assert(made_from(expand(fields)[a], fields[last]));
    }
}

/// Accessors made from fields with different identifiers have different
/// names.
pub proof fn lemma_names_differ(
    first: AccessorModel,
    first_field: FieldModel,
    second: AccessorModel,
    second_field: FieldModel,
)
    requires
        made_from(first, first_field),
        made_from(second, second_field),
        first_field.identifier != second_field.identifier,
    ensures
        first.name != second.name,
{
    if first.name == second.name {
        let a = first_field.identifier;
        let b = second_field.identifier;
        assert(getter_prefix().len() == 4 && setter_prefix().len() == 4);
        assert(first.name.len() == 4 + a.len() && second.name.len() == 4 + b.len());
        assert(a.len() == b.len());
        assert forall|k: int| 0 <= k < a.len() implies a[k] == b[k] by {
            assert(first.name[4 + k] == a[k]);
            assert(second.name[4 + k] == b[k]);
        }
        assert(a =~= b);
    }
}

/// The accessors of an accepted list have names of their own: no two of
/// them are called the same.
pub proof fn lemma_accessor_names_distinct(
    fields: Seq<FieldModel>,
    host_len: usize,
    a: int,
    b: int,
)
    requires
        unit_accepted(fields, host_len),
        0 <= a < b < expand(fields).len(),
    ensures
        expand(fields)[a].name != expand(fields)[b].name,
    decreases fields.len(),
{
    let init = fields.drop_last();
    let last = fields.len() - 1;
    let rest = expand(init);
    let own = accessors_of(fields[last]);
    assert(field_error(fields, last, host_len) is None);
    if b < rest.len() {
        assert forall|i: int| 0 <= i < init.len() implies (#[trigger] field_error(
            init,
            i,
            host_len,
        )) is None by {
            assert(field_error(fields, i, host_len) is None);
            if repeats_identifier(init, i) {
                let j = choose|j: int|
                    0 <= j < i && (#[trigger] init[j]).identifier == init[i].identifier;
                assert(fields[j].identifier == fields[i].identifier);
                assert(repeats_identifier(fields, i));
            }
        }
        lemma_accessor_names_distinct(init, host_len, a, b);
    } else if a < rest.len() {
        lemma_expand_members(init, a);
        let k = choose|k: int| 0 <= k < init.len() && made_from(rest[a], #[trigger] init[k]);
        assert(fields[k].identifier != fields[last].identifier);
        assert(made_from(own[b - rest.len()], fields[last]));
        lemma_names_differ(rest[a], init[k], own[b - rest.len()], fields[last]);
    } else {
        assert(own.len() == 2);
        assert(own[0].name[0] == getter_prefix()[0]);
        assert(own[1].name[0] == setter_prefix()[0]);
    }
}

/// Generate the accessors of the unit that `text` denotes, for a host of
/// `host_len` bytes: [`parse`], then [`generate`].
///
/// A text that does not parse yields the parser's error. One that does
/// yields what [`generate`] makes of its fields.
pub fn generate_from_text(text: &[u8], host_len: usize) -> (result: Result<
    Vec<Accessor>,
    GenerationError,
>)
    ensures
        match parse_fields(text@, 0) {
            Err(error) => result == Err::<Vec<Accessor>, GenerationError>(error),
            Ok(fields) => match result {
                Ok(accessors) => {
                    &&& unit_accepted(fields, host_len)
                    &&& accessor_models(accessors@) == expand(fields)
                    &&& forall|k: int|
                        0 <= k < accessors.len() ==> (#[trigger] accessors[k]).fits(
                            host_len as nat,
                        )
                },
                Err(error) => unit_refused(fields, host_len, error),
            },
        },
{
    match parse(text) {
        Ok(fields) => generate(&fields, host_len),
        Err(error) => Err(error),
    }
}

} // verus!
