use animstore::value::{DataType, DataValue};

#[test]
fn defaults_have_zero_display() {
    assert_eq!(DataType::F32.to_default_value().display(), "0");
    assert_eq!(DataType::I32.to_default_value().display(), "0");
    assert_eq!(DataType::U32.to_default_value().display(), "0");
    assert_eq!(DataType::Char.to_default_value().display(), "\0");
    assert_eq!(DataType::Bool.to_default_value().display(), "false");
    assert_eq!(DataType::OwnedString.to_default_value().display(), "");
}

#[test]
fn default_display_round_trips_for_every_tag_but_text() {
    for tag in [DataType::F32, DataType::I32, DataType::U32, DataType::Char, DataType::Bool] {
        let default = tag.to_default_value();
        let shown = default.display();
        let mut again = tag.to_default_value();
        assert!(again.set_value(&shown).is_ok());
        assert_eq!(again.display(), shown);
        // a second round-trip is stable too
        let mut third = tag.to_default_value();
        assert!(third.set_value(&again.display()).is_ok());
        assert_eq!(third.display(), shown);
    }
}

#[test]
fn set_value_parses_integers() {
    let mut v = DataType::I32.to_default_value();
    assert!(v.set_value("-123").is_ok());
    assert_eq!(v.display(), "-123");
    assert!(v.set_value("+17").is_ok());
    assert_eq!(v.display(), "17");
    assert!(v.set_value("2147483647").is_ok());
    assert_eq!(v.display(), "2147483647");
    assert!(v.set_value("-2147483648").is_ok());
    assert_eq!(v.display(), "-2147483648");
    // out of range or malformed: the prior payload stays
    assert!(v.set_value("2147483648").is_err());
    assert!(v.set_value("12a").is_err());
    assert!(v.set_value("").is_err());
    assert_eq!(v.display(), "-2147483648");

    let mut u = DataType::U32.to_default_value();
    assert!(u.set_value("4294967295").is_ok());
    assert_eq!(u.display(), "4294967295");
    assert!(u.set_value("4294967296").is_err());
    assert!(u.set_value("-1").is_err());
    assert!(u.set_value("007").is_ok());
    assert_eq!(u.display(), "7");
}

#[test]
fn set_value_parses_char_and_bool_and_text() {
    let mut c = DataType::Char.to_default_value();
    assert!(c.set_value("x").is_err() == false);
    assert_eq!(c.display(), "x");
    assert!(c.set_value("xy").is_err());
    assert!(c.set_value("").is_err());
    assert_eq!(c.display(), "x");

    let mut b = DataType::Bool.to_default_value();
    assert!(b.set_value("true").is_ok());
    assert_eq!(b.display(), "true");
    assert!(b.set_value("false").is_ok());
    assert_eq!(b.display(), "false");
    assert!(b.set_value("True").is_err());
    assert!(b.set_value("1").is_err());
    assert_eq!(b.display(), "false");

    let mut t = DataType::OwnedString.to_default_value();
    assert!(t.set_value("anything at all").is_ok());
    assert_eq!(t.display(), "anything at all");
}

#[test]
fn float_values_keep_their_literal() {
    let mut f = DataType::F32.to_default_value();
    assert!(f.set_value("1.5").is_ok());
    assert_eq!(f.display(), "1.5");
    assert!(f.set_value("-2.25e3").is_ok());
    assert_eq!(f.display(), "-2.25e3");
    assert!(f.set_value("inf").is_ok());
    assert!(f.set_value("NaN").is_ok());
    // a rejected literal leaves the prior payload in place
    assert!(f.set_value("abc").is_err());
    assert!(f.set_value("1.2.3").is_err());
    assert_eq!(f.display(), "NaN");
}

#[test]
fn tags_never_change() {
    let mut v = DataType::I32.to_default_value();
    v.set_value("5").unwrap();
    assert!(matches!(v, DataValue::I32(5)));
    let mut f = DataType::F32.to_default_value();
    f.set_value("1.5").unwrap();
    assert!(matches!(f, DataValue::F32(_)));
}
