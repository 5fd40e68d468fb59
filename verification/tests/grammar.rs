use u8bits::field::{Direction, FieldSpec, GenerationError, Position};
use u8bits::grammar::parse;

fn only(text: &[u8]) -> FieldSpec {
    let mut fields = parse(text).unwrap();
    assert_eq!(fields.len(), 1);
    fields.pop().unwrap()
}

fn refused(text: &[u8]) -> GenerationError {
    parse(text).err().unwrap()
}

#[test]
fn parses_a_single_bit_field() {
    let field = only(b"foo: rw 0,4;");
    assert_eq!(field.identifier, b"foo".to_vec());
    assert!(field.metadata.is_empty());
    assert_eq!(field.semantic_type, None);
    assert_eq!(field.direction, Direction::ReadWrite);
    assert_eq!(field.position, Position::Bit { byte: 0, bit: 4 });
}

#[test]
fn parses_a_range_field() {
    let field = only(b"u8, bar: rw 1,0,3;");
    assert_eq!(field.identifier, b"bar".to_vec());
    assert_eq!(field.semantic_type, Some(b"u8".to_vec()));
    assert_eq!(field.direction, Direction::ReadWrite);
    assert_eq!(field.position, Position::Range { byte: 1, lsb: 0, msb: 3 });
}

#[test]
fn parses_each_direction() {
    assert_eq!(only(b"a: r 0,1;").direction, Direction::ReadOnly);
    assert_eq!(only(b"a: w 0,1;").direction, Direction::WriteOnly);
    assert_eq!(only(b"a: rw 0,1;").direction, Direction::ReadWrite);
    assert_eq!(only(b"T, a: tr 0,1,2;").direction, Direction::TryRead);
    assert_eq!(only(b"T, a: r 0,1,2;").direction, Direction::ReadOnly);
}

#[test]
fn a_byte_index_left_out_is_zero() {
    assert_eq!(only(b"foo: r 4;").position, Position::Bit { byte: 0, bit: 4 });
    assert_eq!(only(b"u8, bar: w 6,7;").position, Position::Range { byte: 0, lsb: 6, msb: 7 });
}

#[test]
fn keeps_annotations_as_written() {
    let field = only(b"/// foo is bit 4 of byte 0\n  #[doc(hidden)] #[inline]\n///\nfoo: rw 0,4;");
    let expected: Vec<Vec<u8>> = vec![
        b"/// foo is bit 4 of byte 0".to_vec(),
        b"#[doc(hidden)]".to_vec(),
        b"#[inline]".to_vec(),
        b"///".to_vec(),
    ];
    assert_eq!(field.metadata, expected);
    assert_eq!(field.identifier, b"foo".to_vec());
}

#[test]
fn parses_entries_in_order() {
    let text = b"/// foo\nfoo: rw 0,4;\n/// Enum example\nEnu, enu: rw 0,0,1;\n\
        u8,bar: rw 0,6,7;\n/// foobarcomment\nfoobar: rw 1, 0;\n";
    let fields = parse(text).unwrap();
    let names: Vec<&[u8]> = fields.iter().map(|f| f.identifier.as_slice()).collect();
    let expected: Vec<&[u8]> = vec![b"foo", b"enu", b"bar", b"foobar"];
    assert_eq!(names, expected);
    assert_eq!(fields[1].semantic_type, Some(b"Enu".to_vec()));
    assert_eq!(fields[1].position, Position::Range { byte: 0, lsb: 0, msb: 1 });
    assert_eq!(fields[2].position, Position::Range { byte: 0, lsb: 6, msb: 7 });
    assert_eq!(fields[3].position, Position::Bit { byte: 1, bit: 0 });
    assert_eq!(fields[3].metadata, vec![b"/// foobarcomment".to_vec()]);
    assert!(fields[2].metadata.is_empty());
}

#[test]
fn space_may_stand_between_tokens() {
    let field = only(b" \t\r\nT ,\n name\t:\trw\n 12 ,\t3 , 5 ; \n");
    assert_eq!(field.identifier, b"name".to_vec());
    assert_eq!(field.semantic_type, Some(b"T".to_vec()));
    assert_eq!(field.position, Position::Range { byte: 12, lsb: 3, msb: 5 });
    let tight = only(b"T,name:rw 12,3,5;");
    assert_eq!(tight.position, Position::Range { byte: 12, lsb: 3, msb: 5 });
    assert_eq!(tight.identifier, b"name".to_vec());
}

#[test]
fn an_empty_text_has_no_fields() {
    assert!(parse(b"").unwrap().is_empty());
    assert!(parse(b" \n\t\r ").unwrap().is_empty());
}

#[test]
fn keeps_bit_numbers_that_generation_will_refuse() {
    assert_eq!(only(b"foo: r 0,9;").position, Position::Bit { byte: 0, bit: 9 });
    assert_eq!(only(b"u8, x: r 0,5,4;").position, Position::Range { byte: 0, lsb: 5, msb: 4 });
    assert_eq!(only(b"foo: r 007,255;").position, Position::Bit { byte: 7, bit: 255 });
}

#[test]
fn numbers_too_large_for_their_place_are_out_of_range() {
    assert_eq!(refused(b"foo: r 0,256;"), GenerationError::PositionOutOfRange);
    assert_eq!(refused(b"u8, x: r 0,256,3;"), GenerationError::PositionOutOfRange);
    assert_eq!(refused(b"u8, x: r 0,1,1000;"), GenerationError::PositionOutOfRange);
    assert_eq!(
        refused(b"foo: r 99999999999999999999999999999999999999999,1;"),
        GenerationError::PositionOutOfRange
    );
    assert_eq!(
        refused(b"foo: r 340282366920938463463374607431768211456;"),
        GenerationError::PositionOutOfRange
    );
}

#[test]
fn malformed_texts_are_refused() {
    let texts: Vec<&[u8]> = vec![
        b"foo",
        b"foo:",
        b"foo: rw",
        b"foo: rw 0,4",
        b"foo rw 0,4;",
        b"foo: rx 0,4;",
        b"foo: rw0,4;",
        b"foo: rw ,4;",
        b"foo: rw 0,;",
        b"foo: rw 0 4;",
        b"foo: rw 0,4,1;",
        b"foo: rw;",
        b"u8, bar: rw 1;",
        b"u8, bar: rw 1,2,3,4;",
        b"u8, : rw 1,2;",
        b"u8 bar: rw 1,2;",
        b", bar: rw 1,2;",
        b"4foo: rw 0,4;",
        b"foo: tr 0,4;",
        b"foo: rw 0,4; ;",
        b"foo: rw 0,-4;",
        b"foo: rw 0,0x4;",
        b"// foo\nfoo: rw 0,4;",
        b"#inline\nfoo: rw 0,4;",
        b"#[inline\nfoo: rw 0,4;",
        b"/// only an annotation",
        b"foo: rw 0,4; bar",
        b"foo: RW 0,4;",
    ];
    for text in texts {
        assert_eq!(parse(text).err(), Some(GenerationError::MalformedGrammar), "{:?}", text);
    }
}

#[test]
fn the_first_entry_at_fault_decides_the_error() {
    assert_eq!(refused(b"a: r 0,1; b: r 0,256; c"), GenerationError::PositionOutOfRange);
    assert_eq!(refused(b"a: r 0,1; b r 0,1; c: r 0,256;"), GenerationError::MalformedGrammar);
    assert_eq!(refused(b"a: r 0,256,1;"), GenerationError::MalformedGrammar);
}

#[test]
fn a_text_in_canonical_form_parses_to_its_fields() {
    let text = b"/// foo is bit 4 of byte 0\n#[inline]\nfoo: rw 0,4;\n\
        u8, bar: tr 1,0,3;\nbaz: w 12,7;\n";
    let fields = parse(text).unwrap();
    assert_eq!(fields.len(), 3);
    assert_eq!(fields[0].identifier, b"foo".to_vec());
    assert_eq!(
        fields[0].metadata,
        vec![b"/// foo is bit 4 of byte 0".to_vec(), b"#[inline]".to_vec()]
    );
    assert_eq!(fields[0].semantic_type, None);
    assert_eq!(fields[0].direction, Direction::ReadWrite);
    assert_eq!(fields[0].position, Position::Bit { byte: 0, bit: 4 });
    assert_eq!(fields[1].identifier, b"bar".to_vec());
    assert!(fields[1].metadata.is_empty());
    assert_eq!(fields[1].semantic_type, Some(b"u8".to_vec()));
    assert_eq!(fields[1].direction, Direction::TryRead);
    assert_eq!(fields[1].position, Position::Range { byte: 1, lsb: 0, msb: 3 });
    assert_eq!(fields[2].identifier, b"baz".to_vec());
    assert_eq!(fields[2].direction, Direction::WriteOnly);
    assert_eq!(fields[2].position, Position::Bit { byte: 12, bit: 7 });
}

#[test]
fn the_largest_byte_index_is_read_exactly() {
    let text = format!("foo: r {},7;", usize::MAX);
    assert_eq!(
        only(text.as_bytes()).position,
        Position::Bit { byte: usize::MAX, bit: 7 }
    );
    let text = format!("foo: r {}0,7;", usize::MAX);
    assert_eq!(refused(text.as_bytes()), GenerationError::PositionOutOfRange);
}
