use u8bits::text::{
    append_bytes, copy_bytes, copy_lines, copy_optional, copy_range, digit, identifier,
    identifier_part, identifier_start, same_bytes, space,
};

#[test]
fn character_classes() {
    let mut c: u16 = 0;
    while c < 256 {
        let b: u8 = c as u8;
        let ch: char = b as char;
        assert_eq!(space(b), ch == ' ' || ch == '\t' || ch == '\n' || ch == '\r');
        assert_eq!(digit(b), ch.is_ascii_digit());
        assert_eq!(identifier_start(b), ch.is_ascii_alphabetic() || ch == '_');
        assert_eq!(identifier_part(b), ch.is_ascii_alphanumeric() || ch == '_');
        c += 1;
    }
}

#[test]
fn identifiers() {
    assert!(identifier(b"foo"));
    assert!(identifier(b"_"));
    assert!(identifier(b"_x9"));
    assert!(identifier(b"Enu"));
    assert!(identifier(b"u8"));
    assert!(!identifier(b""));
    assert!(!identifier(b"9x"));
    assert!(!identifier(b"a-b"));
    assert!(!identifier(b"a b"));
    assert!(!identifier(b"caf\xc3\xa9"));
}

#[test]
fn comparing_and_copying_byte_strings() {
    assert!(same_bytes(b"", b""));
    assert!(same_bytes(b"abc", b"abc"));
    assert!(!same_bytes(b"abc", b"abd"));
    assert!(!same_bytes(b"abc", b"ab"));
    assert!(!same_bytes(b"ab", b"abc"));
    assert_eq!(copy_bytes(b"hello"), b"hello".to_vec());
    assert_eq!(copy_bytes(b""), Vec::<u8>::new());
    assert_eq!(copy_range(b"hello world", 6, 11), b"world".to_vec());
    assert_eq!(copy_range(b"hello", 2, 2), Vec::<u8>::new());
    let mut bytes: Vec<u8> = b"get_".to_vec();
    append_bytes(&mut bytes, b"foo");
    assert_eq!(bytes, b"get_foo".to_vec());
    append_bytes(&mut bytes, b"");
    assert_eq!(bytes, b"get_foo".to_vec());
    assert_eq!(copy_optional(&None), None);
    assert_eq!(copy_optional(&Some(b"u8".to_vec())), Some(b"u8".to_vec()));
    let lines: Vec<Vec<u8>> = vec![b"/// a".to_vec(), Vec::new(), b"#[b]".to_vec()];
    assert_eq!(copy_lines(&lines), lines);
    assert_eq!(copy_lines(&Vec::new()), Vec::<Vec<u8>>::new());
}
