use date_scheduler::atom::{decode_atom, encode_atom, AtomError};
use date_scheduler::numeral::{parse_u32, push_decimal, push_signed_decimal};

#[test]
fn parse_plain_number() {
    assert_eq!(parse_u32("42"), Some(42));
    assert_eq!(parse_u32("0"), Some(0));
    assert_eq!(parse_u32("007"), Some(7));
}

#[test]
fn parse_accepts_plus_sign() {
    assert_eq!(parse_u32("+7"), Some(7));
    assert_eq!(parse_u32("+"), None);
}

#[test]
fn parse_rejects_bad_text() {
    assert_eq!(parse_u32(""), None);
    assert_eq!(parse_u32("-1"), None);
    assert_eq!(parse_u32("12a"), None);
    assert_eq!(parse_u32(" 1"), None);
}

#[test]
fn parse_limits_of_u32() {
    assert_eq!(parse_u32("4294967295"), Some(u32::MAX));
    assert_eq!(parse_u32("4294967296"), None);
    assert_eq!(parse_u32("99999999999999999999"), None);
}

#[test]
fn write_decimals() {
    let mut s = String::from("n=");
    push_decimal(&mut s, 0);
    assert_eq!(s, "n=0");
    let mut t = String::new();
    push_decimal(&mut t, 1234567890);
    assert_eq!(t, "1234567890");
    let mut u = String::new();
    push_signed_decimal(&mut u, -15);
    assert_eq!(u, "-15");
    let mut v = String::new();
    push_signed_decimal(&mut v, 308);
    assert_eq!(v, "308");
}

#[test]
fn decode_well_formed_atom() {
    assert_eq!(
        decode_atom("date(x,y,3)"),
        Ok((String::from("x"), String::from("y"), 3))
    );
    assert_eq!(
        decode_atom("date(alice,bob,+12)"),
        Ok((String::from("alice"), String::from("bob"), 12))
    );
}

#[test]
fn decode_missing_closing_delimiter() {
    assert_eq!(decode_atom("date(x,y,3"), Err(AtomError::MissingClosing));
    assert_eq!(decode_atom("date("), Err(AtomError::MissingClosing));
}

#[test]
fn decode_missing_prefix() {
    assert_eq!(decode_atom("dat(x,y,3)"), Err(AtomError::MissingPrefix));
    assert_eq!(decode_atom("date"), Err(AtomError::MissingPrefix));
    assert_eq!(decode_atom(""), Err(AtomError::MissingPrefix));
}

#[test]
fn decode_wrong_field_count() {
    assert_eq!(decode_atom("date(x,y)"), Err(AtomError::FieldCount));
    assert_eq!(decode_atom("date(x,y,3,4)"), Err(AtomError::FieldCount));
    assert_eq!(decode_atom("date()"), Err(AtomError::FieldCount));
}

#[test]
fn decode_bad_day() {
    assert_eq!(decode_atom("date(x,y,-1)"), Err(AtomError::BadDay));
    assert_eq!(decode_atom("date(x,y,)"), Err(AtomError::BadDay));
    assert_eq!(decode_atom("date(x,y,d3)"), Err(AtomError::BadDay));
}

#[test]
fn encode_then_decode_round_trip() {
    let text = encode_atom("ann", "bo", 17);
    assert_eq!(text, "date(ann,bo,17)");
    assert_eq!(
        decode_atom(&text),
        Ok((String::from("ann"), String::from("bo"), 17))
    );
    let edge = encode_atom("", "z", u32::MAX);
    assert_eq!(decode_atom(&edge), Ok((String::new(), String::from("z"), u32::MAX)));
}
