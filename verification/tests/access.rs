//! Tests of the public value's accessors and casts.

use hocon::{Error, Hocon};

fn invalid() -> Hocon {
    Hocon::BadValue(Error::InvalidKey)
}

fn not_found() -> Hocon {
    Hocon::BadValue(Error::MissingKey)
}

#[test]
fn access_on_string() {
    let val = Hocon::String(String::from("test"));

    assert_eq!(val.as_bool(), None);
    assert_eq!(val.as_i64(), None);
    assert_eq!(val.as_string(), Some(String::from("test")));
    assert_eq!(val.get_index(0), invalid());
    assert_eq!(val.get_key("a"), invalid());
}

#[test]
fn access_on_real() {
    let val = Hocon::Real(String::from("5.6"));

    assert_eq!(val.as_bool(), None);
    assert_eq!(val.as_i64(), None);
    assert_eq!(val.as_string(), Some(String::from("5.6")));
    assert_eq!(val.get_index(0), invalid());
    assert_eq!(val.get_key("a"), invalid());
}

#[test]
fn access_on_integer() {
    let val = Hocon::Integer(5);

    assert_eq!(val.as_bool(), None);
    assert_eq!(val.as_i64(), Some(5));
    assert_eq!(val.as_string(), Some(String::from("5")));
    assert_eq!(val.get_index(0), invalid());
    assert_eq!(val.get_key("a"), invalid());
}

#[test]
fn access_on_boolean_false() {
    let val = Hocon::Boolean(false);

    assert_eq!(val.as_bool(), Some(false));
    assert_eq!(val.as_i64(), None);
    assert_eq!(val.as_string(), Some(String::from("false")));
    assert_eq!(val.get_index(0), invalid());
    assert_eq!(val.get_key("a"), invalid());
}

#[test]
fn access_on_boolean_true() {
    let val = Hocon::Boolean(true);

    assert_eq!(val.as_bool(), Some(true));
    assert_eq!(val.as_i64(), None);
    assert_eq!(val.as_string(), Some(String::from("true")));
    assert_eq!(val.get_index(0), invalid());
    assert_eq!(val.get_key("a"), invalid());
}

#[test]
fn access_on_null() {
    let val = Hocon::Null;

    assert_eq!(val.as_bool(), None);
    assert_eq!(val.as_i64(), None);
    assert_eq!(val.as_string(), None);
    assert_eq!(val.get_index(0), invalid());
    assert_eq!(val.get_key("a"), invalid());
}

#[test]
fn access_on_bad_value() {
    let val = Hocon::BadValue(Error::DisabledExternalUrl);

    assert_eq!(val.as_bool(), None);
    assert_eq!(val.as_i64(), None);
    assert_eq!(val.as_string(), None);
    assert_eq!(val.get_index(0), invalid());
    assert_eq!(val.get_key("a"), invalid());
}

#[test]
fn access_on_array() {
    let val = Hocon::Array(vec![Hocon::Integer(5), Hocon::Integer(6)]);

    assert_eq!(val.as_bool(), None);
    assert_eq!(val.as_i64(), None);
    assert_eq!(val.as_string(), None);
    assert_eq!(val.get_index(0), Hocon::Integer(5));
    assert_eq!(val.get_index(1), Hocon::Integer(6));
    assert_eq!(val.get_index(2), not_found());
    assert_eq!(val.get_key("a"), invalid());
}

#[test]
fn access_on_hash() {
    let val = Hocon::Hash(vec![
        (String::from("a"), Hocon::Integer(5)),
        (String::from("b"), Hocon::Integer(6)),
    ]);

    assert_eq!(val.as_bool(), None);
    assert_eq!(val.as_i64(), None);
    assert_eq!(val.as_string(), None);
    assert_eq!(val.get_index(0), invalid());
    assert_eq!(val.get_key("a"), Hocon::Integer(5));
    assert_eq!(val.get_key("b"), Hocon::Integer(6));
    assert_eq!(val.get_key("c"), not_found());
}

#[test]
fn access_hash_as_array() {
    let val = Hocon::Hash(vec![
        (String::from("0"), Hocon::Integer(5)),
        (String::from("a"), Hocon::Integer(6)),
        (String::from("2"), Hocon::Integer(7)),
    ]);

    assert_eq!(val.as_bool(), None);
    assert_eq!(val.as_i64(), None);
    assert_eq!(val.as_string(), None);
    assert_eq!(val.get_at(0), Hocon::Integer(5));
    assert_eq!(val.get_at(1), Hocon::Integer(7));
    assert_eq!(val.get_at(2), invalid());
    assert_eq!(val.get_key("0"), Hocon::Integer(5));
    assert_eq!(val.get_key("a"), Hocon::Integer(6));
    assert_eq!(val.get_key("2"), Hocon::Integer(7));
}

#[test]
fn access_array_at_position() {
    let val = Hocon::Array(vec![Hocon::Integer(5), Hocon::Integer(6)]);
    assert_eq!(val.get_at(0), Hocon::Integer(5));
    assert_eq!(val.get_at(1), Hocon::Integer(6));
    assert_eq!(val.get_at(2), not_found());
    assert_eq!(Hocon::Null.get_at(0), invalid());
}

#[test]
fn cast_string() {
    assert_eq!(Hocon::String(String::from("true")).as_bool(), Some(true));
    assert_eq!(Hocon::String(String::from("yes")).as_bool(), Some(true));
    assert_eq!(Hocon::String(String::from("on")).as_bool(), Some(true));
    assert_eq!(Hocon::String(String::from("false")).as_bool(), Some(false));
    assert_eq!(Hocon::String(String::from("no")).as_bool(), Some(false));
    assert_eq!(Hocon::String(String::from("off")).as_bool(), Some(false));

    assert_eq!(Hocon::String(String::from("5.6")).as_i64(), None);
    assert_eq!(Hocon::String(String::from("5")).as_i64(), Some(5));
}

#[test]
fn error_messages() {
    assert_eq!(
        Error::KeyNotFound {
            key: String::from("b")
        }
        .message(),
        "Error looking for key \"b\""
    );
    assert_eq!(
        Error::TooManyIncludes.message(),
        "Error processing deep includes"
    );
    assert_eq!(
        Error::IncludeNotAllowedFromStr.message(),
        "Error processing includes from a str source"
    );
    assert_eq!(
        Error::IO {
            message: String::from("closed")
        }
        .message(),
        "Error during IO: \"closed\""
    );
    assert_eq!(
        Error::File {
            path: String::from("a.conf")
        }
        .message(),
        "Error reading file \"a.conf\""
    );
}

#[test]
fn integer_rendering() {
    assert_eq!(Hocon::Integer(0).as_string(), Some(String::from("0")));
    assert_eq!(Hocon::Integer(-45).as_string(), Some(String::from("-45")));
    assert_eq!(
        Hocon::Integer(i64::MIN).as_string(),
        Some(String::from("-9223372036854775808"))
    );
    assert_eq!(
        Hocon::Integer(i64::MAX).as_string(),
        Some(String::from("9223372036854775807"))
    );
}

#[test]
fn integer_parsing() {
    assert_eq!(Hocon::String(String::from("+7")).as_i64(), Some(7));
    assert_eq!(Hocon::String(String::from("-7")).as_i64(), Some(-7));
    assert_eq!(
        Hocon::String(String::from("9223372036854775807")).as_i64(),
        Some(i64::MAX)
    );
    assert_eq!(
        Hocon::String(String::from("-9223372036854775808")).as_i64(),
        Some(i64::MIN)
    );
    assert_eq!(
        Hocon::String(String::from("9223372036854775808")).as_i64(),
        None
    );
    assert_eq!(Hocon::String(String::from("007")).as_i64(), Some(7));
    assert_eq!(Hocon::String(String::from("")).as_i64(), None);
    assert_eq!(Hocon::String(String::from("+")).as_i64(), None);
}
