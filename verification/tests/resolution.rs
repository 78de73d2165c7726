//! Tests of the resolution engine: streams are built the way the
//! syntax layer hands them over, then merged and finalized.

use hocon::loader::from_properties_str;
use hocon::{Error, Hocon, HoconInternal, HoconLoader, HoconValue, Include};

fn u(s: &str) -> HoconValue {
    HoconValue::UnquotedString(s.to_string())
}

fn st(s: &str) -> HoconValue {
    HoconValue::String(s.to_string())
}

fn subst(path: &str, optional: bool) -> HoconValue {
    HoconValue::PathSubstitution {
        target: Box::new(u(path)),
        optional,
        original: None,
    }
}

fn doc(assignments: Vec<(Vec<HoconValue>, HoconValue)>) -> Hocon {
    HoconLoader::new()
        .no_system()
        .load_parsed(HoconInternal {
            internal: assignments,
        })
        .hocon()
        .expect("during test")
}

#[test]
fn merge_scalars_and_access() {
    let d = doc(vec![
        (vec![u("int")], HoconValue::Integer(56)),
        (vec![u("float")], HoconValue::Real("543.12".to_string())),
        (vec![u("boolean")], HoconValue::Boolean(false)),
        (vec![u("string")], u("test")),
    ]);
    assert_eq!(d.get_key("int"), Hocon::Integer(56));
    assert_eq!(d.get_key("float"), Hocon::Real("543.12".to_string()));
    assert_eq!(d.get_key("boolean"), Hocon::Boolean(false));
    assert_eq!(d.get_key("string"), Hocon::String("test".to_string()));
}

#[test]
fn lib_can_deserialize_struct() {
    // the document {int:56, float:543.12, boolean:false, string: test,
    // vec_sub:[{int:8, float:1.5, option_int:1919}, ...]} as its stream
    let d = doc(vec![
        (vec![u("int")], HoconValue::Integer(56)),
        (vec![u("float")], HoconValue::Real("543.12".to_string())),
        (vec![u("boolean")], HoconValue::Boolean(false)),
        (vec![u("string")], u("test")),
        (
            vec![u("vec_sub"), HoconValue::Integer(0), u("int")],
            HoconValue::Integer(8),
        ),
        (
            vec![u("vec_sub"), HoconValue::Integer(0), u("option_int")],
            HoconValue::Integer(1919),
        ),
        (
            vec![u("vec_sub"), HoconValue::Integer(1), u("int")],
            HoconValue::Integer(8),
        ),
        (
            vec![u("vec_sub"), HoconValue::Integer(2), u("int")],
            HoconValue::Integer(1),
        ),
    ]);
    assert_eq!(d.get_key("int").as_i64(), Some(56));
    assert_eq!(d.get_key("float"), Hocon::Real("543.12".to_string()));
    assert_eq!(d.get_key("boolean").as_bool(), Some(false));
    assert_eq!(d.get_key("string").as_string(), Some("test".to_string()));
    let vs = d.get_key("vec_sub");
    assert_eq!(vs.get_index(0).get_key("int").as_i64(), Some(8));
    assert_eq!(vs.get_index(0).get_key("option_int").as_i64(), Some(1919));
    assert_eq!(vs.get_index(1).get_key("int").as_i64(), Some(8));
    assert_eq!(vs.get_index(2).get_key("int").as_i64(), Some(1));
}

#[test]
fn can_deserialize_struct2() {
    // the same document written with explicit indices vec_sub.1,
    // vec_sub.5, vec_sub.8: the array keeps document order
    let d = doc(vec![
        (vec![u("int")], HoconValue::Integer(56)),
        (vec![u("float")], HoconValue::Real("543.12".to_string())),
        (vec![u("boolean")], HoconValue::Boolean(false)),
        (vec![u("string")], u("test")),
        (vec![u("vec_sub.1"), u("int")], HoconValue::Integer(8)),
        (
            vec![u("vec_sub.1"), u("option_int")],
            HoconValue::Integer(1919),
        ),
        (vec![u("vec_sub.5"), u("int")], HoconValue::Integer(8)),
        (vec![u("vec_sub.8"), u("int")], HoconValue::Integer(1)),
    ]);
    assert_eq!(d.get_key("int").as_i64(), Some(56));
    // explicit numeric keys build an object keyed "1", "5", "8"; a
    // typed reader walks it in numeric order like an array
    let vs = d.get_key("vec_sub");
    assert_eq!(vs.get_key("1").get_key("int").as_i64(), Some(8));
    assert_eq!(vs.get_key("1").get_key("option_int").as_i64(), Some(1919));
    assert_eq!(vs.get_key("5").get_key("int").as_i64(), Some(8));
    assert_eq!(vs.get_key("8").get_key("int").as_i64(), Some(1));
}

#[test]
fn error_deserializing_struct() {
    // {int:"not an int", ...}: the value resolves as a string, so
    // reading it as an integer gives nothing, which is what makes a
    // typed deserialization fail on the field
    let d = doc(vec![
        (vec![u("int")], st("not an int")),
        (vec![u("float")], HoconValue::Real("543.12".to_string())),
    ]);
    assert_eq!(d.get_key("int").as_i64(), None);
    assert_eq!(d.get_key("int").as_string(), Some("not an int".to_string()));
}

#[test]
fn can_display_error() {
    let error = Error::Deserialization {
        message: "my error".to_string(),
    };
    assert_eq!(error.message(), "Error deserializing: \"my error\"");
}

#[test]
fn substitute_before_and_after() {
    // {"a": "before", "before": ${a}, "after": ${b}, "b": "after"}
    let d = doc(vec![
        (vec![st("a")], st("before")),
        (vec![st("before")], subst("a", false)),
        (vec![st("after")], subst("b", false)),
        (vec![st("b")], st("after")),
    ]);
    assert_eq!(d.get_key("before").as_string(), Some("before".to_string()));
    assert_eq!(d.get_key("after").as_string(), Some("after".to_string()));
}

#[test]
fn parse_object_merging() {
    // {"foo": {"a": 42}, "foo": {"b": 43}}
    let d = doc(vec![
        (vec![st("foo"), st("a")], HoconValue::Integer(42)),
        (vec![st("foo"), st("b")], HoconValue::Integer(43)),
    ]);
    assert_eq!(d.get_key("foo").get_key("a").as_i64(), Some(42));
    assert_eq!(d.get_key("foo").get_key("b").as_i64(), Some(43));
}

#[test]
fn parse_change_type_to_object() {
    // {"foo": [0, 1, 2], "foo": {"b": 43}}
    let d = doc(vec![
        (vec![st("foo"), HoconValue::Integer(0)], HoconValue::Integer(0)),
        (vec![st("foo"), HoconValue::Integer(1)], HoconValue::Integer(1)),
        (vec![st("foo"), HoconValue::Integer(2)], HoconValue::Integer(2)),
        (vec![st("foo"), st("b")], HoconValue::Integer(43)),
    ]);
    assert_eq!(d.get_key("foo").get_key("b").as_i64(), Some(43));
    assert_eq!(d.get_key("foo").get_index(0), Hocon::BadValue(Error::InvalidKey));
}

#[test]
fn parse_change_type_to_array() {
    // {"foo": {"b": 43}, "foo": [0, 1, 2]}
    let d = doc(vec![
        (vec![st("foo"), st("b")], HoconValue::Integer(43)),
        (vec![st("foo"), HoconValue::Integer(0)], HoconValue::Integer(0)),
        (vec![st("foo"), HoconValue::Integer(1)], HoconValue::Integer(1)),
        (vec![st("foo"), HoconValue::Integer(2)], HoconValue::Integer(2)),
    ]);
    assert_eq!(d.get_key("foo").get_index(0).as_i64(), Some(0));
    assert_eq!(d.get_key("foo").get_key("b"), Hocon::BadValue(Error::InvalidKey));
}

#[test]
fn parse_reset_array_index() {
    // {"foo": [0, 1, 2], "foo": [5, 6, 7]}: the second array replaces
    let d = doc(vec![
        (vec![st("foo"), HoconValue::Integer(0)], HoconValue::Integer(0)),
        (vec![st("foo"), HoconValue::Integer(1)], HoconValue::Integer(1)),
        (vec![st("foo"), HoconValue::Integer(2)], HoconValue::Integer(2)),
        (vec![st("foo"), HoconValue::Integer(0)], HoconValue::Integer(5)),
        (vec![st("foo"), HoconValue::Integer(1)], HoconValue::Integer(6)),
        (vec![st("foo"), HoconValue::Integer(2)], HoconValue::Integer(7)),
    ]);
    assert_eq!(d.get_key("foo").get_index(0).as_i64(), Some(5));
    assert_eq!(d.get_key("foo").get_index(1).as_i64(), Some(6));
    assert_eq!(d.get_key("foo").get_index(2).as_i64(), Some(7));
    assert_eq!(
        d.get_key("foo").get_index(3),
        Hocon::BadValue(Error::MissingKey)
    );
}

#[test]
fn parse_replace_array() {
    // {a: [1, 2, 3, 4], a: [5, 6]}: no merge of old elements
    let d = doc(vec![
        (vec![u("a"), HoconValue::Integer(0)], HoconValue::Integer(1)),
        (vec![u("a"), HoconValue::Integer(1)], HoconValue::Integer(2)),
        (vec![u("a"), HoconValue::Integer(2)], HoconValue::Integer(3)),
        (vec![u("a"), HoconValue::Integer(3)], HoconValue::Integer(4)),
        (vec![u("a"), HoconValue::Integer(0)], HoconValue::Integer(5)),
        (vec![u("a"), HoconValue::Integer(1)], HoconValue::Integer(6)),
    ]);
    assert_eq!(d.get_key("a").get_index(0).as_i64(), Some(5));
    assert_eq!(d.get_key("a").get_index(1).as_i64(), Some(6));
    assert_eq!(d.get_key("a").get_index(2), Hocon::BadValue(Error::MissingKey));
}

#[test]
fn parse_concat_arrays_with_self_substitution() {
    // {a: [1, 2], a: ${a} [3, 4]} => a = [1, 2, 3, 4]
    let first = HoconInternal::from_array(vec![
        HoconInternal::from_value(HoconValue::Integer(1)),
        HoconInternal::from_value(HoconValue::Integer(2)),
    ])
    .add_to_path(vec![u("a")]);
    let second = HoconInternal::from_array(vec![
        HoconInternal::from_value(HoconValue::PathSubstitutionInParent(Box::new(u("a")))),
        HoconInternal::from_value(HoconValue::Integer(3)),
        HoconInternal::from_value(HoconValue::Integer(4)),
    ])
    .add_to_path(vec![u("a")]);
    let d = HoconLoader::new()
        .no_system()
        .load_parsed(first.add(second))
        .hocon()
        .expect("during test");
    assert_eq!(d.get_key("a").get_index(0).as_i64(), Some(1));
    assert_eq!(d.get_key("a").get_index(1).as_i64(), Some(2));
    assert_eq!(d.get_key("a").get_index(2).as_i64(), Some(3));
    assert_eq!(d.get_key("a").get_index(3).as_i64(), Some(4));
}

#[test]
fn parse_concat_arrays_with_plus_equal() {
    // {a += 1, a += 2}
    let first = HoconInternal::from_value(HoconValue::Integer(1))
        .mark_append("first-append")
        .add_to_path(vec![u("a")]);
    let second = HoconInternal::from_value(HoconValue::Integer(2))
        .mark_append("second-append")
        .add_to_path(vec![u("a")]);
    let d = HoconLoader::new()
        .no_system()
        .load_parsed(first.add(second))
        .hocon()
        .expect("during test");
    assert_eq!(d.get_key("a").get_index(0).as_i64(), Some(1));
    assert_eq!(d.get_key("a").get_index(1).as_i64(), Some(2));
}

#[test]
fn parse_missing_substitution() {
    // {a: {c: ${?b}}} resolves c to an embedded key-not-found marker
    let d = doc(vec![(vec![u("a"), u("c")], subst("b", true))]);
    assert_eq!(
        d.get_key("a").get_key("c"),
        Hocon::BadValue(Error::KeyNotFound {
            key: "b".to_string()
        })
    );
}

#[test]
fn missing_substitution_strict() {
    // the same document in strict mode fails the whole load
    let r = HoconLoader::new()
        .no_system()
        .strict()
        .load_parsed(HoconInternal {
            internal: vec![(vec![u("a"), u("c")], subst("b", true))],
        })
        .hocon();
    assert_eq!(
        r,
        Err(Error::KeyNotFound {
            key: "b".to_string()
        })
    );
}

#[test]
fn optional_substitution_keeps_previous_value() {
    // {a: 1, a: ${?missing}}: the previous value stays
    let d = doc(vec![
        (vec![u("a")], HoconValue::Integer(1)),
        (vec![u("a")], subst("missing", false)),
    ]);
    // a mandatory missing substitution leaves a marker ...
    assert_eq!(
        d.get_key("a"),
        Hocon::BadValue(Error::KeyNotFound {
            key: "missing".to_string()
        })
    );
    let d2 = HoconLoader::new()
        .load_parsed(HoconInternal {
            internal: vec![
                (vec![u("a")], HoconValue::Integer(1)),
                (vec![u("a")], subst("missing", true)),
            ],
        })
        .hocon()
        .expect("during test");
    // ... while an optional one falls back to the displaced value
    assert_eq!(d2.get_key("a").as_i64(), Some(1));
}

#[test]
fn optional_fallback_without_environment() {
    // the displaced value is kept even with the environment fallback
    // disabled
    let d = doc(vec![
        (vec![u("a")], HoconValue::Integer(1)),
        (vec![u("a")], subst("missing", true)),
    ]);
    assert_eq!(d.get_key("a").as_i64(), Some(1));
    // and in strict mode the kept value forestalls the error
    let r = HoconLoader::new()
        .no_system()
        .strict()
        .load_parsed(HoconInternal {
            internal: vec![
                (vec![u("a")], HoconValue::Integer(1)),
                (vec![u("a")], subst("missing", true)),
            ],
        })
        .hocon()
        .expect("during test");
    assert_eq!(r.get_key("a").as_i64(), Some(1));
}

#[test]
fn environment_fallback() {
    let d = HoconLoader::new()
        .with_env(vec![("who".to_string(), "world".to_string())])
        .load_parsed(HoconInternal {
            internal: vec![(vec![st("var")], subst("who", false))],
        })
        .hocon()
        .expect("during test");
    assert_eq!(d.get_key("var").as_string(), Some("world".to_string()));
}

#[test]
fn include_rooting() {
    // parent {x: 1, y: include "child"}, child {z: ${x}}: y.z reads 1
    let child = HoconInternal {
        internal: vec![(vec![u("z")], subst("x", false))],
    };
    let wrapped = child.wrap_include();
    let under_y = HoconInternal::from_object(wrapped.internal).add_to_path(vec![u("y")]);
    let parent = HoconInternal {
        internal: vec![(vec![u("x")], HoconValue::Integer(1))],
    }
    .add(under_y);
    let d = HoconLoader::new()
        .no_system()
        .load_parsed(parent)
        .hocon()
        .expect("during test");
    assert_eq!(d.get_key("y").get_key("z").as_i64(), Some(1));
}

#[test]
fn max_depth_of_include() {
    // an include chain deeper than the maximum yields the marker at
    // the directive's key
    let r = HoconInternal::from_include_refused(&Include::File("file.conf"), 15, 10, true, false)
        .expect("during test")
        .expect("during test");
    assert_eq!(
        r,
        HoconInternal {
            internal: vec![(
                vec![HoconValue::String("file.conf".to_string())],
                HoconValue::BadValue(Error::TooManyIncludes)
            )]
        }
    );
}

#[test]
fn max_depth_of_include_strict() {
    let r = HoconInternal::from_include_refused(&Include::File("file.conf"), 15, 10, true, true);
    assert_eq!(r, Err(Error::TooManyIncludes));
}

#[test]
fn include_not_allowed_from_str() {
    let r = HoconInternal::from_include_refused(&Include::File("file.conf"), 0, 10, false, false)
        .expect("during test")
        .expect("during test");
    assert_eq!(
        r,
        HoconInternal {
            internal: vec![(
                vec![HoconValue::String("file.conf".to_string())],
                HoconValue::BadValue(Error::IncludeNotAllowedFromStr)
            )]
        }
    );
}

#[test]
fn missing_file_included() {
    // a failed include load leaves its error at the directive's key
    let r = HoconInternal::include_error(
        "file.conf",
        Error::Include {
            path: "file.conf".to_string(),
        },
        false,
    )
    .expect("during test");
    assert_eq!(
        r,
        HoconInternal {
            internal: vec![(
                vec![HoconValue::String("file.conf".to_string())],
                HoconValue::BadValue(Error::Include {
                    path: "file.conf".to_string()
                })
            )]
        }
    );
}

#[test]
fn reorder_unrelated_paths_same_result() {
    let a = vec![
        (vec![u("x")], HoconValue::Integer(1)),
        (vec![u("y")], HoconValue::Integer(2)),
    ];
    let b = vec![
        (vec![u("y")], HoconValue::Integer(2)),
        (vec![u("x")], HoconValue::Integer(1)),
    ];
    let da = doc(a);
    let db = doc(b);
    assert_eq!(da.get_key("x"), db.get_key("x"));
    assert_eq!(da.get_key("y"), db.get_key("y"));
}

#[test]
fn reorder_same_path_last_wins() {
    let d = doc(vec![
        (vec![u("x")], HoconValue::Integer(1)),
        (vec![u("x")], HoconValue::Integer(2)),
    ]);
    assert_eq!(d.get_key("x").as_i64(), Some(2));
    let d2 = doc(vec![
        (vec![u("x")], HoconValue::Integer(2)),
        (vec![u("x")], HoconValue::Integer(1)),
    ]);
    assert_eq!(d2.get_key("x").as_i64(), Some(1));
}

#[test]
fn parse_concat() {
    // {"foo": "hello" " world "1}: fragments join, inner spacing kept
    let d = doc(vec![(
        vec![st("foo")],
        HoconValue::Concat(vec![st("hello"), u(" world "), HoconValue::Integer(1)]),
    )]);
    assert_eq!(
        d.get_key("foo").as_string(),
        Some("hello world 1".to_string())
    );
}

#[test]
fn parse_path_substitution_in_concat() {
    // {"who": "world", "bar": "hello " ${who}}
    let d = doc(vec![
        (vec![st("who")], st("world")),
        (
            vec![st("bar")],
            HoconValue::Concat(vec![st("hello "), subst("who", false)]),
        ),
    ]);
    assert_eq!(
        d.get_key("bar").as_string(),
        Some("hello world".to_string())
    );
}

#[test]
fn parse_concat_objects() {
    // {"a": {"a": 1} {"b": 2}}: both keys end up under a
    let d = doc(vec![
        (vec![st("a"), st("a")], HoconValue::Integer(1)),
        (vec![st("a"), st("b")], HoconValue::Integer(2)),
    ]);
    assert_eq!(d.get_key("a").get_key("a").as_i64(), Some(1));
    assert_eq!(d.get_key("a").get_key("b").as_i64(), Some(2));
}

#[test]
fn concat_of_objects_merges_as_positions() {
    // {a: {k: 1}, b: ${a}${a}}: a concatenation whose items resolve
    // to branches merges their children, re-keyed by position
    let d = doc(vec![
        (vec![u("a"), u("k")], HoconValue::Integer(1)),
        (
            vec![u("b")],
            HoconValue::Concat(vec![subst("a", false), subst("a", false)]),
        ),
    ]);
    assert_eq!(d.get_key("b").get_index(0).as_i64(), Some(1));
    assert_eq!(d.get_key("b").get_index(1).as_i64(), Some(1));
}

#[test]
fn parse_null_value() {
    let d = doc(vec![(vec![u("a")], u("null"))]);
    assert_eq!(d.get_key("a"), Hocon::Null);
}

#[test]
fn parse_empty_objects() {
    // a = {b {}}, b = 5
    let d = doc(vec![
        (vec![u("a"), u("b")], HoconValue::EmptyObject),
        (vec![u("b")], HoconValue::Integer(5)),
    ]);
    assert!(matches!(d.get_key("a").get_key("b"), Hocon::Hash(v) if v.is_empty()));
    assert_eq!(d.get_key("b").as_i64(), Some(5));
}

#[test]
fn parse_empty_array_value() {
    let d = doc(vec![(vec![u("a")], HoconValue::EmptyArray)]);
    assert!(matches!(d.get_key("a"), Hocon::Array(v) if v.is_empty()));
}

#[test]
fn refinalize_finalized_tree_is_no_op() {
    // resolving a document, laying the resolved values back out as
    // assignments, and resolving again gives the same document
    let d1 = doc(vec![
        (vec![st("a")], HoconValue::Integer(1)),
        (vec![st("b"), HoconValue::Integer(0)], st("x")),
        (vec![st("b"), HoconValue::Integer(1)], HoconValue::Boolean(true)),
        (vec![st("c")], u("null")),
    ]);
    let d2 = doc(vec![
        (vec![st("a")], HoconValue::Integer(1)),
        (vec![st("b"), HoconValue::Integer(0)], st("x")),
        (vec![st("b"), HoconValue::Integer(1)], HoconValue::Boolean(true)),
        (vec![st("c")], HoconValue::Null("0".to_string())),
    ]);
    assert_eq!(d1, d2);
    assert_eq!(d1.get_key("a"), Hocon::Integer(1));
    assert_eq!(d1.get_key("b").get_index(0), Hocon::String("x".to_string()));
    assert_eq!(d1.get_key("c"), Hocon::Null);
}

#[test]
fn read_from_properties() {
    let parsed = from_properties_str("a.b:c").expect("during test");
    let d = HoconLoader::new()
        .no_system()
        .load_parsed(parsed)
        .hocon()
        .expect("during test");
    assert_eq!(
        d.get_key("a").get_key("b").as_string(),
        Some(String::from("c"))
    );
}

#[test]
fn properties_parse_error() {
    let r = from_properties_str("a=\\uZZZZ");
    assert_eq!(r, Err(Error::Parse));
}

#[test]
fn strict_mode_no_error_on_clean_document() {
    let r = HoconLoader::new()
        .strict()
        .load_parsed(HoconInternal {
            internal: vec![(vec![u("a")], HoconValue::Integer(7))],
        })
        .hocon();
    assert_eq!(r.expect("during test").get_key("a").as_i64(), Some(7));
}
