use blocks_comm::comm::{
    to_string_bool, to_string_char, to_string_none, to_string_signed, to_string_str,
    to_string_unit, to_string_unsigned, Deserializer, Error, Result,
};

fn to_string_option(value: &Option<usize>) -> String {
    match value {
        None => to_string_none(),
        Some(v) => to_string_unsigned(*v as u64),
    }
}

fn from_str_option(s: &str) -> Result<Option<usize>> {
    let mut de = Deserializer::from_str(s);
    let parsed = if de.parse_none()? {
        None
    } else {
        assert!(de.unsigned_in_range(usize::MAX as u64));
        Some(de.parse_unsigned()? as usize)
    };
    de.end()?;
    Ok(parsed)
}

fn from_str_usize(s: &str) -> Result<usize> {
    let mut de = Deserializer::from_str(s);
    assert!(de.unsigned_in_range(usize::MAX as u64));
    let v = de.parse_unsigned()? as usize;
    de.end()?;
    Ok(v)
}

fn from_str_isize(s: &str) -> Result<isize> {
    let mut de = Deserializer::from_str(s);
    assert!(de.signed_in_range(isize::MAX as u64));
    let v = de.parse_signed()? as isize;
    de.end()?;
    Ok(v)
}

#[test]
fn test_null() -> Result<()> {
    let value: Option<usize> = None;

    let string = to_string_option(&value);
    let parsed = from_str_option(&string)?;

    assert!(parsed == value);

    Ok(())
}

#[test]
fn test_uint() -> Result<()> {
    let value: usize = 420;

    let string = to_string_unsigned(value as u64);
    let parsed = from_str_usize(&string)?;

    assert!(parsed == value);

    Ok(())
}

#[test]
fn test_int() -> Result<()> {
    let value: isize = -420;

    let string = to_string_signed(value as i64);
    let parsed = from_str_isize(&string)?;

    assert!(parsed == value);

    Ok(())
}

#[test]
fn writes_exact_text() {
    assert_eq!(to_string_unsigned(420), "u420\n");
    assert_eq!(to_string_unsigned(0), "u0\n");
    assert_eq!(to_string_unsigned(u64::MAX), "u18446744073709551615\n");
    assert_eq!(to_string_signed(-420), "i-420\n");
    assert_eq!(to_string_signed(7), "i7\n");
    assert_eq!(to_string_signed(0), "i0\n");
    assert_eq!(to_string_signed(i64::MIN), "i-9223372036854775808\n");
    assert_eq!(to_string_none(), "n\n");
    assert_eq!(to_string_unit(), "n\n");
    assert_eq!(to_string_char('x'), "cx\n");
}

#[test]
fn present_option_round_trip() -> Result<()> {
    let value: Option<usize> = Some(17);
    let string = to_string_option(&value);
    assert_eq!(from_str_option(&string)?, value);
    Ok(())
}

#[test]
fn unsigned_round_trip_keeps_what_follows() -> Result<()> {
    for v in [0u64, 9, 10, 99, 100, 12345, u64::MAX] {
        let s = to_string_unsigned(v) + "rest";
        let mut de = Deserializer::from_str(&s);
        assert_eq!(de.parse_unsigned()?, v);
        assert_eq!(de.next_char()?, 'r');
    }
    Ok(())
}

#[test]
fn signed_round_trip() -> Result<()> {
    for v in [0i64, -1, 1, -10, 42, i64::MAX, i64::MIN + 1] {
        let s = to_string_signed(v);
        let mut de = Deserializer::from_str(&s);
        assert!(de.signed_in_range(i64::MAX as u64));
        assert_eq!(de.parse_signed()?, v);
        de.end()?;
    }
    Ok(())
}

#[test]
fn signed_minimum_does_not_fit() {
    let s = to_string_signed(i64::MIN);
    let de = Deserializer::from_str(&s);
    assert!(!de.signed_in_range(i64::MAX as u64));
}

#[test]
fn unit_and_char_round_trip() -> Result<()> {
    let s = to_string_unit();
    let mut de = Deserializer::from_str(&s);
    de.parse_unit()?;
    de.end()?;
    for c in ['a', '\n', 'é', '🦀'] {
        let s = to_string_char(c);
        let mut de = Deserializer::from_str(&s);
        assert_eq!(de.parse_char()?, c);
        de.end()?;
    }
    Ok(())
}

#[test]
fn none_round_trip_and_trailing() {
    let s = to_string_none() + "u1\n";
    let mut de = Deserializer::from_str(&s);
    assert_eq!(de.parse_none(), Ok(true));
    assert_eq!(de.end(), Err(Error::TrailingCharacters));
    assert_eq!(de.parse_none(), Ok(false));
    assert_eq!(de.parse_unsigned(), Ok(1));
    assert_eq!(de.end(), Ok(()));
}

#[test]
fn bool_round_trip() -> Result<()> {
    assert_eq!(to_string_bool(true), "bt\n");
    assert_eq!(to_string_bool(false), "bf\n");
    for b in [true, false] {
        let s = to_string_bool(b) + "u1\n";
        let mut de = Deserializer::from_str(&s);
        assert_eq!(de.parse_bool()?, b);
        assert_eq!(de.parse_unsigned()?, 1);
        de.end()?;
    }
    Ok(())
}

#[test]
fn string_round_trip() -> Result<()> {
    assert_eq!(to_string_str("hello"), "\"5\nhello\n");
    assert_eq!(to_string_str("\u{e9}"), "\"2\n\u{e9}\n");
    for v in ["", "hello", "two\nlines", "\u{e9}t\u{e9}", "\u{1f980}", "\n"] {
        let s = to_string_str(v) + "n\n";
        let mut de = Deserializer::from_str(&s);
        assert!(de.string_length_in_range());
        assert_eq!(de.parse_string()?, v);
        de.parse_unit()?;
        de.end()?;
    }
    Ok(())
}
