use minijson::{ErrorKind, Json, Number};

fn num(negative: bool, integer: &str, fraction: &str) -> Json {
    Json::Number(Number::new(negative, integer, fraction))
}

fn text(s: &str) -> Json {
    Json::String(s.to_string())
}

fn person(name: &str, age: &str) -> Json {
    Json::object(vec![
        ("name".to_string(), text(name)),
        ("age".to_string(), num(false, age, "")),
    ])
}

#[test]
fn test_parse() {
    let json = Json::parse(r#"{"name": "Tanaka", "age": 26}"#).unwrap();
    assert_eq!(json, person("Tanaka", "26"));

    let json = Json::parse(r#"[true, false, null]"#).unwrap();
    assert_eq!(
        json,
        Json::Array(vec![Json::Boolean(true), Json::Boolean(false), Json::Null])
    );

    let json = Json::parse(
        r#"{"persons": [{"name": "Tanaka", "age": 26}, {"name": "Yamada", "age": 28}]}"#,
    )
    .unwrap();
    assert_eq!(
        json,
        Json::object(vec![(
            "persons".to_string(),
            Json::Array(vec![person("Tanaka", "26"), person("Yamada", "28")]),
        )])
    );
}

#[test]
fn test_display() {
    let json = person("Tanaka", "26");
    assert_eq!(Json::parse(json.to_string().as_str()).unwrap(), json);

    let json = Json::Array(vec![Json::Boolean(true), Json::Boolean(false), Json::Null]);
    assert_eq!(Json::parse(json.to_string().as_str()).unwrap(), json);

    let json = Json::object(vec![(
        "persons".to_string(),
        Json::Array(vec![person("Tanaka", "26"), person("Yamada", "28")]),
    )]);
    assert_eq!(Json::parse(json.to_string().as_str()).unwrap(), json);
}

#[test]
fn float_is_read_before_integer() {
    assert_eq!(Json::parse("[1.23]").unwrap(), Json::Array(vec![num(false, "1", "23")]));
    assert_eq!(
        Json::parse(r#"{"x": 1.23}"#).unwrap(),
        Json::object(vec![("x".to_string(), num(false, "1", "23"))])
    );
}

#[test]
fn negative_numbers() {
    assert_eq!(Json::parse("[-123]").unwrap(), Json::Array(vec![num(true, "123", "")]));
    assert_eq!(Json::parse("[-1.23]").unwrap(), Json::Array(vec![num(true, "1", "23")]));
}

#[test]
fn empty_containers() {
    assert_eq!(Json::parse("[]").unwrap(), Json::Array(vec![]));
    assert_eq!(Json::parse("{}").unwrap(), Json::Object(vec![]));
    assert_eq!(Json::parse("[ ]").unwrap(), Json::Array(vec![]));
    assert_eq!(Json::parse("{\n}").unwrap(), Json::Object(vec![]));
}

#[test]
fn whitespace_is_insignificant() {
    let spaced = Json::parse("{ \"a\" : 1 }").unwrap();
    let tight = Json::parse("{\"a\":1}").unwrap();
    assert_eq!(spaced, tight);
    assert_eq!(tight, Json::object(vec![("a".to_string(), num(false, "1", ""))]));
    assert_eq!(
        Json::parse(" \t[ 1 ,\r\n 2 ] \n").unwrap(),
        Json::Array(vec![num(false, "1", ""), num(false, "2", "")])
    );
}

#[test]
fn trailing_comma_is_refused() {
    let err = Json::parse("[1,2,]").unwrap_err();
    assert_eq!(err.code, ErrorKind::Value);
    assert_eq!(err.input, "]");
    assert!(Json::parse(r#"{"a":1,}"#).is_err());
}

#[test]
fn nested_structure() {
    let json = Json::parse(
        "{\"persons\":[{\"name\":\"Tanaka\",\"age\":26},{\"name\":\"Yamada\",\"age\":28}]}",
    )
    .unwrap();
    match &json {
        Json::Object(entries) => {
            assert_eq!(entries.len(), 1);
            assert_eq!(entries[0].0, "persons");
            match &entries[0].1 {
                Json::Array(items) => {
                    assert_eq!(items.len(), 2);
                    for item in items {
                        match item {
                            Json::Object(fields) => {
                                let keys: Vec<&str> = fields.iter().map(|f| f.0.as_str()).collect();
                                assert_eq!(keys, vec!["age", "name"]);
                            }
                            _ => panic!("expected an object"),
                        }
                    }
                    assert_eq!(items[1], person("Yamada", "28"));
                }
                _ => panic!("expected an array"),
            }
        }
        _ => panic!("expected an object"),
    }
}

#[test]
fn trailing_garbage_is_refused() {
    let err = Json::parse("{}x").unwrap_err();
    assert_eq!(err.code, ErrorKind::Eof);
    assert_eq!(err.input, "x");
    assert!(Json::parse("[1] [2]").is_err());
}

#[test]
fn scalar_root_is_refused() {
    let err = Json::parse("true").unwrap_err();
    assert_eq!(err.code, ErrorKind::Composite);
    assert_eq!(err.input, "true");
    assert_eq!(Json::parse("  1").unwrap_err().code, ErrorKind::Composite);
    assert_eq!(Json::parse("").unwrap_err().code, ErrorKind::Composite);
}

#[test]
fn parsing_twice_agrees() {
    let input = r#"{"b": [1, 2.5, "x"], "a": {"c": null}}"#;
    assert_eq!(Json::parse(input).unwrap(), Json::parse(input).unwrap());
    assert_eq!(Json::parse("[1,]").unwrap_err(), Json::parse("[1,]").unwrap_err());
}

#[test]
fn round_trip_of_mixed_values() {
    let json = Json::object(vec![
        ("zeta".to_string(), Json::Array(vec![])),
        ("alpha".to_string(), Json::object(vec![])),
        ("mid".to_string(), Json::Array(vec![num(true, "0", "5"), text(""), text("a1B2")])),
        ("k9".to_string(), Json::Boolean(false)),
    ]);
    let written = json.to_string();
    assert_eq!(
        written,
        r#"{"alpha": {}, "k9": false, "mid": [-0.5, "", "a1B2"], "zeta": []}"#
    );
    assert_eq!(Json::parse(&written).unwrap(), json);
}

#[test]
fn writes_single_line_text() {
    assert_eq!(person("Tanaka", "26").to_string(), r#"{"age": 26, "name": "Tanaka"}"#);
    assert_eq!(
        Json::Array(vec![Json::Boolean(true), Json::Boolean(false), Json::Null]).to_string(),
        "[true, false, null]"
    );
    assert_eq!(Json::Array(vec![num(true, "1", "23")]).to_string(), "[-1.23]");
}

#[test]
fn numbers_are_canonical() {
    assert_eq!(Json::parse("[007.500]").unwrap(), Json::Array(vec![num(false, "7", "5")]));
    assert_eq!(Json::parse("[007.500]").unwrap().to_string(), "[7.5]");
    assert_eq!(Json::parse("[26.0]").unwrap(), Json::parse("[26]").unwrap());
    assert_eq!(Json::parse("[-0]").unwrap().to_string(), "[0]");
    assert_eq!(Json::parse("[-0.000]").unwrap(), Json::parse("[0]").unwrap());
    let n = Number::new(false, "", "");
    assert_eq!(n.integer, "0");
    assert_eq!(n.fraction, "");
    assert!(!n.negative);
    let n = Number::new(true, "01", "50");
    assert_eq!((n.negative, n.integer.as_str(), n.fraction.as_str()), (true, "1", "5"));
}

#[test]
fn dot_without_digits_ends_the_number() {
    let err = Json::parse("[1.]").unwrap_err();
    assert_eq!(err.code, ErrorKind::Char(']'));
    assert_eq!(err.input, ".]");
}

#[test]
fn later_key_wins_and_order_does_not_matter() {
    assert_eq!(
        Json::parse(r#"{"a": 1, "a": 2}"#).unwrap(),
        Json::object(vec![("a".to_string(), num(false, "2", ""))])
    );
    assert_eq!(
        Json::parse(r#"{"b": 1, "a": 2}"#).unwrap(),
        Json::parse(r#"{"a": 2, "b": 1}"#).unwrap()
    );
    assert_eq!(
        Json::object(vec![
            ("b".to_string(), Json::Null),
            ("a".to_string(), Json::Null),
            ("b".to_string(), Json::Boolean(true)),
        ])
        .to_string(),
        r#"{"a": null, "b": true}"#
    );
}

#[test]
fn each_error_kind() {
    assert_eq!(Json::parse(r#"{"a" 1}"#).unwrap_err().code, ErrorKind::Char(':'));
    assert_eq!(Json::parse("[tru]").unwrap_err().code, ErrorKind::Tag);
    assert_eq!(Json::parse("[nul]").unwrap_err().code, ErrorKind::Tag);
    assert_eq!(Json::parse("[-]").unwrap_err().code, ErrorKind::Digit);
    assert_eq!(Json::parse(r#"{"1a": 1}"#).unwrap_err().code, ErrorKind::Alpha);
    assert_eq!(Json::parse("[,]").unwrap_err().code, ErrorKind::Value);
    assert_eq!(Json::parse("[1 2]").unwrap_err().code, ErrorKind::Char(']'));
    assert_eq!(Json::parse(r#"{"a": 1 "b": 2}"#).unwrap_err().code, ErrorKind::Char('}'));
    assert_eq!(Json::parse("{1: 2}").unwrap_err().code, ErrorKind::Char('"'));
    let err = Json::parse(r#"["ab c"]"#).unwrap_err();
    assert_eq!(err.code, ErrorKind::Char('"'));
    assert_eq!(err.input, " c\"]");
    assert_eq!(Json::parse("[1").unwrap_err().code, ErrorKind::Char(']'));
    assert_eq!(Json::parse("x").unwrap_err().code, ErrorKind::Composite);
    assert_eq!(Json::parse("[] x").unwrap_err().code, ErrorKind::Eof);
}

#[test]
fn strings_hold_letters_and_digits_only() {
    assert_eq!(
        Json::parse(r#"["Tanaka26", ""]"#).unwrap(),
        Json::Array(vec![text("Tanaka26"), text("")])
    );
    assert!(Json::parse("[\"caf\u{e9}\"]").is_err());
    assert!(Json::parse(r#"["a b"]"#).is_err());
}
