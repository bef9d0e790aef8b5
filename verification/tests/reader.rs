use blocks_comm::comm::{AnyKind, CommaSeparated, Deserializer, EnumForm, Error};

#[test]
fn peek_and_next() {
    let mut de = Deserializer::from_str("ab");
    assert_eq!(de.peek_char(), Ok('a'));
    assert_eq!(de.peek_char(), Ok('a'));
    assert_eq!(de.next_char(), Ok('a'));
    assert_eq!(de.next_char(), Ok('b'));
    assert_eq!(de.peek_char(), Err(Error::Eof));
    assert_eq!(de.next_char(), Err(Error::Eof));
    assert_eq!(de.end(), Ok(()));
}

#[test]
fn length_leaves_the_delimiter() {
    let mut de = Deserializer::from_str("305\nx");
    assert_eq!(de.parse_length(), Ok(305));
    assert_eq!(de.next_char(), Ok('\n'));
    let mut de = Deserializer::from_str("12");
    assert_eq!(de.parse_length(), Err(Error::Eof));
    let mut de = Deserializer::from_str("1a\n");
    assert_eq!(de.parse_length(), Err(Error::ExpectedUnsignedInteger));
    assert_eq!(de.next_char(), Ok('a'));
}

#[test]
fn unsigned_errors() {
    assert_eq!(Deserializer::from_str("x").parse_unsigned(), Err(Error::ExpectedUnsignedInteger));
    assert_eq!(Deserializer::from_str("").parse_unsigned(), Err(Error::ExpectedUnsignedInteger));
    assert_eq!(Deserializer::from_str("u12").parse_unsigned(), Err(Error::Eof));
    assert_eq!(Deserializer::from_str("u1a\n").parse_unsigned(), Err(Error::ExpectedUnsignedInteger));
    assert_eq!(Deserializer::from_str("u\n").parse_unsigned(), Ok(0));
}

#[test]
fn unsigned_range_checks() {
    assert!(Deserializer::from_str("u255\n").unsigned_in_range(u8::MAX as u64));
    assert!(!Deserializer::from_str("u256\n").unsigned_in_range(u8::MAX as u64));
    assert!(!Deserializer::from_str("u99999999999999999999\n").unsigned_in_range(u64::MAX));
    assert!(Deserializer::from_str("x99999999999999999999\n").unsigned_in_range(0));
}

#[test]
fn signed_cases() {
    assert_eq!(Deserializer::from_str("i-\n").parse_signed(), Ok(0));
    assert_eq!(Deserializer::from_str("i--1\n").parse_signed(), Err(Error::ExpectedInteger));
    assert_eq!(Deserializer::from_str("u1\n").parse_signed(), Err(Error::ExpectedInteger));
    assert_eq!(Deserializer::from_str("i-5").parse_signed(), Err(Error::Eof));
    assert!(Deserializer::from_str("i-128\n").signed_in_range(128));
    assert!(!Deserializer::from_str("i-128\n").signed_in_range(i8::MAX as u64));
    assert!(Deserializer::from_str("i127\n").signed_in_range(i8::MAX as u64));
}

#[test]
fn bool_cases() {
    let mut de = Deserializer::from_str("bt\nz");
    assert_eq!(de.parse_bool(), Ok(true));
    assert_eq!(de.next_char(), Ok('z'));
    assert_eq!(Deserializer::from_str("bf\n").parse_bool(), Ok(false));
    let mut de = Deserializer::from_str("btx");
    assert_eq!(de.parse_bool(), Err(Error::MissingDelimiter));
    assert_eq!(de.next_char(), Ok('x'));
    assert_eq!(Deserializer::from_str("bt").parse_bool(), Err(Error::MissingDelimiter));
    assert_eq!(Deserializer::from_str("bx\n").parse_bool(), Err(Error::ExpectedBoolean));
    assert_eq!(Deserializer::from_str("b").parse_bool(), Err(Error::Eof));
    assert_eq!(Deserializer::from_str("t").parse_bool(), Err(Error::ExpectedBoolean));
}

#[test]
fn char_errors() {
    assert_eq!(Deserializer::from_str("x").parse_char(), Err(Error::ExpectedChar));
    assert_eq!(Deserializer::from_str("c").parse_char(), Err(Error::Eof));
    assert_eq!(Deserializer::from_str("cab").parse_char(), Err(Error::MissingDelimiter));
    assert_eq!(Deserializer::from_str("ca").parse_char(), Err(Error::MissingDelimiter));
}

#[test]
fn string_cases() {
    let mut de = Deserializer::from_str("\"5\nhello\nz");
    assert_eq!(de.parse_string(), Ok("hello"));
    assert_eq!(de.next_char(), Ok('z'));
    assert_eq!(de.end(), Ok(()));

    let mut de = Deserializer::from_str("\"0\n\n");
    assert_eq!(de.parse_string(), Ok(""));
    assert_eq!(de.end(), Ok(()));

    let mut de = Deserializer::from_str("\"1\n\n\n");
    assert_eq!(de.parse_string(), Ok("\n"));
    assert_eq!(de.end(), Ok(()));

    assert_eq!(Deserializer::from_str("\"2\nabc\n").parse_string(), Err(Error::Syntax));
    assert_eq!(Deserializer::from_str("\"9\nab\n").parse_string(), Err(Error::Eof));
    assert_eq!(Deserializer::from_str("\"2\nab").parse_string(), Err(Error::Eof));
    assert_eq!(Deserializer::from_str("u3\nab\n").parse_string(), Err(Error::ExpectedString));
    assert_eq!(Deserializer::from_str("\"3x").parse_string(), Err(Error::ExpectedUnsignedInteger));
    assert_eq!(Deserializer::from_str("\"3").parse_string(), Err(Error::Eof));
}

#[test]
fn string_counts_utf8_bytes() {
    assert_eq!(Deserializer::from_str("\"2\n\u{e9}\n").parse_string(), Ok("\u{e9}"));
    assert_eq!(Deserializer::from_str("\"1\n\u{e9}\n").parse_string(), Err(Error::Syntax));
    assert_eq!(Deserializer::from_str("\"3\n\u{e9}\n").parse_string(), Err(Error::Eof));
    assert!(Deserializer::from_str("\"3\n").string_length_in_range());
    assert!(!Deserializer::from_str("\"99999999999999999999999\n").string_length_in_range());
}

#[test]
fn double_token_and_finish() {
    let mut de = Deserializer::from_str("d1.5\nz");
    assert_eq!(de.double_token(), Ok("1.5"));
    assert_eq!(de.peek_char(), Ok('\n'));
    assert_eq!(de.finish_double(true), Ok(()));
    assert_eq!(de.peek_char(), Ok('z'));
    let mut de = Deserializer::from_str("dzz\n");
    assert_eq!(de.double_token(), Ok("zz"));
    assert_eq!(de.finish_double(false), Err(Error::ExpectedDouble));
    assert_eq!(Deserializer::from_str("d\n").double_token(), Err(Error::ExpectedDouble));
    assert_eq!(Deserializer::from_str("d1.5").double_token(), Err(Error::Eof));
    assert_eq!(Deserializer::from_str("u1\n").double_token(), Err(Error::ExpectedDouble));
    let mut de = Deserializer::from_str("z");
    assert_eq!(de.finish_double(true), Err(Error::MissingDelimiter));
}

#[test]
fn none_and_unit_errors() {
    assert_eq!(Deserializer::from_str("nx").parse_none(), Err(Error::MissingDelimiter));
    assert_eq!(Deserializer::from_str("").parse_none(), Ok(false));
    assert_eq!(Deserializer::from_str("nx").parse_unit(), Err(Error::MissingDelimiter));
    assert_eq!(Deserializer::from_str("u1\n").parse_unit(), Err(Error::ExpectedNull));
}

#[test]
fn bytes_are_refused() {
    let mut de = Deserializer::from_str("xab");
    assert_eq!(de.parse_bytes(), Error::Syntax);
    assert_eq!(de.peek_char(), Ok('a'));
    assert_eq!(Deserializer::from_str("u").parse_bytes(), Error::ExpectedBytes);
}

#[test]
fn dispatch() {
    let cases = [
        ("n", AnyKind::Unit),
        ("b", AnyKind::Bool),
        ("i", AnyKind::Int),
        ("u", AnyKind::UInt),
        ("d", AnyKind::Double),
        ("\"", AnyKind::Str),
        ("[", AnyKind::Array),
        ("{", AnyKind::Dict),
        ("x", AnyKind::Bytes),
    ];
    for (s, k) in cases {
        assert_eq!(Deserializer::from_str(s).dispatch_any(), Ok(k));
    }
    assert_eq!(Deserializer::from_str("?").dispatch_any(), Err(Error::Syntax));
    assert_eq!(Deserializer::from_str("").dispatch_any(), Err(Error::Eof));
}

#[test]
fn sequence_of_unsigned() {
    let mut de = Deserializer::from_str("[u1\n,u22\n]");
    de.parse_seq_start().unwrap();
    let mut access = CommaSeparated::new();
    let mut items = Vec::new();
    while access.next_element(&mut de).unwrap() {
        items.push(de.parse_unsigned().unwrap());
    }
    de.parse_seq_end().unwrap();
    de.end().unwrap();
    assert_eq!(items, vec![1, 22]);
}

#[test]
fn sequence_errors() {
    assert_eq!(Deserializer::from_str("{").parse_seq_start(), Err(Error::ExpectedArray));
    assert_eq!(Deserializer::from_str("").parse_seq_start(), Err(Error::Eof));
    assert_eq!(Deserializer::from_str("}").parse_seq_end(), Err(Error::ExpectedArrayEnd));
    let mut de = Deserializer::from_str("u1\nu2\n]");
    let mut access = CommaSeparated::new();
    assert_eq!(access.next_element(&mut de), Ok(true));
    assert!(!access.first);
    de.parse_unsigned().unwrap();
    assert_eq!(access.next_element(&mut de), Err(Error::ExpectedArrayComma));
    let mut empty = Deserializer::from_str("]");
    let mut access = CommaSeparated::new();
    assert_eq!(access.next_element(&mut empty), Ok(false));
    assert!(access.first);
}

#[test]
fn map_entries() {
    let mut de = Deserializer::from_str("{u1\n:u2\n,u3\n:u4\n}");
    de.parse_map_start().unwrap();
    let mut access = CommaSeparated::new();
    let mut entries = Vec::new();
    while access.next_key(&mut de).unwrap() {
        let k = de.parse_unsigned().unwrap();
        de.parse_colon().unwrap();
        let v = de.parse_unsigned().unwrap();
        entries.push((k, v));
    }
    de.parse_map_end().unwrap();
    de.end().unwrap();
    assert_eq!(entries, vec![(1, 2), (3, 4)]);
}

#[test]
fn map_errors() {
    assert_eq!(Deserializer::from_str("[").parse_map_start(), Err(Error::ExpectedMap));
    assert_eq!(Deserializer::from_str("]").parse_map_end(), Err(Error::ExpectedMapEnd));
    assert_eq!(Deserializer::from_str(";").parse_colon(), Err(Error::ExpectedMapColon));
    let mut de = Deserializer::from_str(";");
    let mut access = CommaSeparated { first: false };
    assert_eq!(access.next_key(&mut de), Err(Error::ExpectedMapComma));
    let mut de = Deserializer::from_str("");
    assert_eq!(access.next_key(&mut de), Err(Error::Eof));
}

#[test]
fn enum_forms() {
    let mut de = Deserializer::from_str("\"x");
    assert_eq!(de.enum_start(), Ok(EnumForm::Unit));
    assert_eq!(de.peek_char(), Ok('"'));
    let mut de = Deserializer::from_str("{x");
    assert_eq!(de.enum_start(), Ok(EnumForm::Braced));
    assert_eq!(de.peek_char(), Ok('x'));
    let mut de = Deserializer::from_str("[x");
    assert_eq!(de.enum_start(), Err(Error::ExpectedEnum));
    assert_eq!(de.peek_char(), Ok('x'));
    assert_eq!(Deserializer::from_str("").enum_start(), Err(Error::Eof));
}
