use u8bits::accessor::{Accessor, AccessorKind};
use u8bits::field::{Direction, FieldSpec, GenerationError, Position};
use u8bits::generate::{generate, generate_from_text};

#[derive(PartialEq, Debug, Clone, Copy)]
enum Member {
    Zero,
    One,
    Two,
    Three,
}

fn member_for(raw: u8) -> Member {
    match raw {
        0 => Member::Zero,
        1 => Member::One,
        2 => Member::Two,
        _ => Member::Three,
    }
}

impl From<u8> for Member {
    fn from(raw: u8) -> Member {
        member_for(raw)
    }
}

impl From<Member> for u8 {
    fn from(value: Member) -> u8 {
        match value {
            Member::Zero => 0,
            Member::One => 1,
            Member::Two => 2,
            Member::Three => 3,
        }
    }
}

#[derive(PartialEq, Debug)]
enum Mode {
    Off,
    Slow,
    Fast,
}

impl TryFrom<u8> for Mode {
    type Error = u8;

    fn try_from(raw: u8) -> Result<Mode, u8> {
        match raw {
            0 => Ok(Mode::Off),
            1 => Ok(Mode::Slow),
            2 => Ok(Mode::Fast),
            other => Err(other),
        }
    }
}

fn named<'a>(accessors: &'a [Accessor], name: &[u8]) -> &'a Accessor {
    let mut found: Option<&Accessor> = None;
    for accessor in accessors {
        if accessor.name == name {
            assert!(found.is_none());
            found = Some(accessor);
        }
    }
    found.unwrap()
}

fn bit_field(identifier: &[u8], direction: Direction, byte: usize, bit: u8) -> FieldSpec {
    FieldSpec {
        identifier: identifier.to_vec(),
        metadata: Vec::new(),
        semantic_type: None,
        direction,
        position: Position::Bit { byte, bit },
    }
}

fn range_field(
    semantic_type: &[u8],
    identifier: &[u8],
    direction: Direction,
    byte: usize,
    lsb: u8,
    msb: u8,
) -> FieldSpec {
    FieldSpec {
        identifier: identifier.to_vec(),
        metadata: Vec::new(),
        semantic_type: Some(semantic_type.to_vec()),
        direction,
        position: Position::Range { byte, lsb, msb },
    }
}

#[test]
fn single_bit_field_set_then_get() {
    let accessors = generate_from_text(b"foo: rw 0,4;", 2).unwrap();
    let mut host: [u8; 2] = [0x00, 0x00];
    named(&accessors, b"set_foo").set_bit(&mut host, true);
    assert_eq!(named(&accessors, b"get_foo").get_bit(&host), true);
    assert_eq!(host, [0xe0, 0x00]);
    named(&accessors, b"set_foo").set_bit(&mut host, false);
    assert_eq!(named(&accessors, b"get_foo").get_bit(&host), false);
    assert_eq!(host, [0x00, 0x00]);
}

#[test]
fn range_field_set_then_get_keeps_the_low_bits() {
    let accessors = generate_from_text(b"u8, bar: rw 0,6,7;", 2).unwrap();
    let mut host: [u8; 2] = [0x00, 0x00];
    named(&accessors, b"set_bar").set(&mut host, 3u8);
    assert_eq!(named(&accessors, b"get_bar").get::<u8>(&host), 3);
    assert_eq!(host[0] & 0x3f, 0x00);
    assert_eq!(host, [0xc0, 0x00]);

    let mut other: [u8; 2] = [0x2a, 0x77];
    named(&accessors, b"set_bar").set(&mut other, 3u8);
    assert_eq!(named(&accessors, b"get_bar").get::<u8>(&other), 3);
    assert_eq!(other[0] & 0x3f, 0x2a);
    assert_eq!(other, [0xea, 0x77]);
}

#[test]
fn enumeration_field_set_then_get() {
    let accessors = generate_from_text(b"Member, enu: rw 0,0,1;", 2).unwrap();
    let mut host: [u8; 2] = [0x00, 0x00];
    named(&accessors, b"set_enu").set(&mut host, member_for(2));
    assert_eq!(named(&accessors, b"get_enu").get::<Member>(&host), member_for(2));
    assert_eq!(host, [0x02, 0x00]);
    let mut raw: u8 = 0;
    while raw < 4 {
        named(&accessors, b"set_enu").set(&mut host, member_for(raw));
        assert_eq!(named(&accessors, b"get_enu").get::<Member>(&host), member_for(raw));
        assert_eq!(named(&accessors, b"get_enu").get_raw(&host), raw);
        raw += 1;
    }
}

#[test]
fn duplicate_identifier_is_refused_and_nothing_is_generated() {
    let result = generate_from_text(b"foo: rw 0,4; u8, bar: rw 0,6,7; foo: r 1,0;", 2);
    assert_eq!(result.err(), Some(GenerationError::DuplicateIdentifier));

    let fields = vec![
        bit_field(b"foo", Direction::ReadOnly, 0, 1),
        bit_field(b"foo", Direction::WriteOnly, 0, 1),
    ];
    assert_eq!(generate(&fields, 1).err(), Some(GenerationError::DuplicateIdentifier));
}

#[test]
fn fallible_read_of_an_unmapped_raw_value_is_absent() {
    let accessors =
        generate_from_text(b"Mode, mode: tr 1,2,3; u8, raw_mode: w 1,2,3;", 2).unwrap();
    let mut host: [u8; 2] = [0x00, 0x00];
    let getter = named(&accessors, b"get_mode");
    let setter = named(&accessors, b"set_raw_mode");
    assert_eq!(getter.kind, AccessorKind::TryGetRange);
    setter.set(&mut host, 3u8);
    assert_eq!(host, [0x00, 0x0c]);
    assert_eq!(getter.try_get::<Mode>(&host), None);
    setter.set(&mut host, 2u8);
    assert_eq!(getter.try_get::<Mode>(&host), Some(Mode::Fast));
    setter.set(&mut host, 1u8);
    assert_eq!(getter.try_get::<Mode>(&host), Some(Mode::Slow));
    setter.set(&mut host, 0u8);
    assert_eq!(getter.try_get::<Mode>(&host), Some(Mode::Off));
}

#[test]
fn accessors_come_in_field_order_getter_first() {
    let accessors =
        generate_from_text(b"a: rw 0,1; u8, b: w 1,0,3; c: r 1,7; Mode, d: tr 0,2,3;", 2).unwrap();
    let names: Vec<&[u8]> = accessors.iter().map(|a| a.name.as_slice()).collect();
    let expected: Vec<&[u8]> = vec![b"get_a", b"set_a", b"set_b", b"get_c", b"get_d"];
    assert_eq!(names, expected);
    let kinds: Vec<AccessorKind> = accessors.iter().map(|a| a.kind).collect();
    assert_eq!(
        kinds,
        vec![
            AccessorKind::GetBit,
            AccessorKind::SetBit,
            AccessorKind::SetRange,
            AccessorKind::GetBit,
            AccessorKind::TryGetRange,
        ]
    );
    assert_eq!(accessors[0].position, Position::Bit { byte: 0, bit: 1 });
    assert_eq!(accessors[2].position, Position::Range { byte: 1, lsb: 0, msb: 3 });
    assert_eq!(accessors[2].semantic_type, Some(b"u8".to_vec()));
    assert_eq!(accessors[0].semantic_type, None);
}

#[test]
fn metadata_is_copied_onto_every_accessor_of_the_field() {
    let text = b"/// foo is bit 4 of byte 0\n#[inline]\nfoo: rw 0,4;\nu8, bar: r 1,0,3;";
    let accessors = generate_from_text(text, 2).unwrap();
    let expected: Vec<Vec<u8>> =
        vec![b"/// foo is bit 4 of byte 0".to_vec(), b"#[inline]".to_vec()];
    assert_eq!(accessors.len(), 3);
    assert_eq!(accessors[0].metadata, expected);
    assert_eq!(accessors[1].metadata, expected);
    assert!(accessors[2].metadata.is_empty());
}

#[test]
fn empty_unit_generates_nothing() {
    assert!(generate_from_text(b"", 2).unwrap().is_empty());
    assert!(generate_from_text(b"  \n\t ", 0).unwrap().is_empty());
    let none: Vec<FieldSpec> = Vec::new();
    assert!(generate(&none, 0).unwrap().is_empty());
}

#[test]
fn positions_outside_the_host_or_the_byte_are_refused() {
    let out = Some(GenerationError::PositionOutOfRange);
    assert_eq!(generate_from_text(b"foo: rw 2,4;", 2).err(), out);
    assert_eq!(generate_from_text(b"foo: rw 0,8;", 2).err(), out);
    assert_eq!(generate_from_text(b"u8, bar: rw 0,5,4;", 2).err(), out);
    assert_eq!(generate_from_text(b"u8, bar: rw 0,0,8;", 2).err(), out);
    assert_eq!(generate_from_text(b"foo: rw 0;", 0).err(), out);
    assert!(generate_from_text(b"foo: rw 1,7; u8, bar: rw 1,0,7;", 2).is_ok());
    assert_eq!(generate(&vec![bit_field(b"x", Direction::ReadOnly, 0, 9)], 4).err(), out);
    assert_eq!(
        generate(&vec![range_field(b"u8", b"x", Direction::ReadOnly, 4, 0, 1)], 4).err(),
        out
    );
}

#[test]
fn incoherent_fields_are_refused_as_malformed() {
    let malformed = Some(GenerationError::MalformedGrammar);
    let mut typed_bit = bit_field(b"x", Direction::ReadOnly, 0, 1);
    typed_bit.semantic_type = Some(b"u8".to_vec());
    assert_eq!(generate(&vec![typed_bit], 1).err(), malformed);
    let mut untyped_range = range_field(b"u8", b"x", Direction::ReadOnly, 0, 0, 1);
    untyped_range.semantic_type = None;
    assert_eq!(generate(&vec![untyped_range], 1).err(), malformed);
    assert_eq!(generate(&vec![bit_field(b"x", Direction::TryRead, 0, 1)], 1).err(), malformed);
    assert_eq!(generate(&vec![bit_field(b"", Direction::ReadOnly, 0, 1)], 1).err(), malformed);
    assert_eq!(generate(&vec![bit_field(b"1x", Direction::ReadOnly, 0, 1)], 1).err(), malformed);
    assert_eq!(
        generate(&vec![range_field(b"a b", b"x", Direction::ReadOnly, 0, 0, 1)], 1).err(),
        malformed
    );
}

#[test]
fn the_first_refused_field_decides_the_error() {
    let fields = vec![
        bit_field(b"a", Direction::ReadOnly, 0, 1),
        bit_field(b"b", Direction::ReadOnly, 0, 8),
        bit_field(b"a", Direction::ReadOnly, 0, 2),
    ];
    assert_eq!(generate(&fields, 1).err(), Some(GenerationError::PositionOutOfRange));
    let fields = vec![
        bit_field(b"a", Direction::ReadOnly, 0, 1),
        bit_field(b"a", Direction::ReadOnly, 0, 2),
        bit_field(b"b", Direction::ReadOnly, 0, 8),
    ];
    assert_eq!(generate(&fields, 1).err(), Some(GenerationError::DuplicateIdentifier));
    let fields = vec![
        bit_field(b"a", Direction::ReadOnly, 0, 1),
        bit_field(b"a", Direction::TryRead, 5, 9),
    ];
    assert_eq!(generate(&fields, 1).err(), Some(GenerationError::MalformedGrammar));
}

#[test]
fn setters_change_one_byte_only() {
    let accessors = generate_from_text(b"u8, low: rw 1,0,3; flag: rw 2,3;", 4).unwrap();
    let mut host: [u8; 4] = [0x11, 0x22, 0x33, 0x44];
    named(&accessors, b"set_low").set_raw(&mut host, 0xff);
    assert_eq!(host, [0x11, 0x2f, 0x33, 0x44]);
    assert_eq!(named(&accessors, b"get_low").get_raw(&host), 0x0f);
    named(&accessors, b"set_flag").set_bit(&mut host, true);
    assert_eq!(host, [0x11, 0x2f, 0xf3, 0x44]);
    assert!(named(&accessors, b"get_flag").get_bit(&host));
}

#[test]
fn directions_say_which_accessors_exist() {
    assert!(Direction::ReadOnly.includes_read() && !Direction::ReadOnly.includes_write());
    assert!(!Direction::WriteOnly.includes_read() && Direction::WriteOnly.includes_write());
    assert!(Direction::ReadWrite.includes_read() && Direction::ReadWrite.includes_write());
    assert!(Direction::TryRead.includes_read() && !Direction::TryRead.includes_write());
    assert_eq!(Position::Bit { byte: 3, bit: 1 }.byte(), 3);
    assert_eq!(Position::Range { byte: 5, lsb: 1, msb: 2 }.byte(), 5);
    assert!(Position::Range { byte: 5, lsb: 1, msb: 2 }.is_valid_in(6));
    assert!(!Position::Range { byte: 5, lsb: 1, msb: 2 }.is_valid_in(5));
}

#[test]
fn accessors_of_an_accepted_unit_have_names_of_their_own() {
    let text =
        b"a: rw 0,1; get_a: rw 0,2; set_a: rw 0,3; u8, b: rw 1,0,3; T, c: tr 1,4,5; d: w 1,7;";
    let accessors = generate_from_text(text, 2).unwrap();
    assert_eq!(accessors.len(), 10);
    let mut i: usize = 0;
    while i < accessors.len() {
        let mut j: usize = i + 1;
        while j < accessors.len() {
            assert_ne!(accessors[i].name, accessors[j].name);
            j += 1;
        }
        i += 1;
    }
}
