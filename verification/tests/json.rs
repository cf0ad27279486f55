use tinyjson::generator::JsonGenerator;
use tinyjson::parser::JsonParser;
use tinyjson::value::JsonValue;

fn parse(text: &str) -> Result<JsonValue, tinyjson::parser::JsonParseError> {
    JsonParser::new(text).parse()
}

fn num(f: f64) -> JsonValue {
    JsonValue::Number(f.to_bits())
}

#[test]
fn parse_array_of_numbers() {
    let v = parse("[1, 2, 3]").unwrap();
    assert_eq!(v, JsonValue::Array(vec![num(1.0), num(2.0), num(3.0)]));
}

#[test]
fn parse_unclosed_array_reports_position() {
    let e = parse("[1, 2, 3").unwrap_err();
    assert_eq!(e.line(), 1);
    assert_eq!(e.column(), 8);
    assert_eq!(e.message(), "Unexpected EOF");
    assert_eq!(
        e.to_display_string(),
        "Parse error at line:1, col:8: Unexpected EOF"
    );
}

#[test]
fn parse_unicode_escape() {
    let v = parse("\"a\\u0041b\"").unwrap();
    assert_eq!(v, JsonValue::String("aAb".to_string()));
}

#[test]
fn parse_surrogate_pair() {
    let v = parse("\"\\uD83D\\uDE00\"").unwrap();
    assert_eq!(v, JsonValue::String("\u{1F600}".to_string()));
}

#[test]
fn parse_unpaired_surrogate_fails() {
    assert!(parse("\"\\uD83D\"").is_err());
    assert!(parse("\"\\uDE00x\"").is_err());
}

#[test]
fn parse_control_character_fails() {
    assert!(parse("\"a\u{1}b\"").is_err());
    // DEL is a control character at the language level but legal JSON.
    assert!(parse("\"a\u{7f}b\"").is_ok());
}

#[test]
fn parse_literals() {
    assert_eq!(parse("true").unwrap(), JsonValue::Boolean(true));
    assert_eq!(parse("false").unwrap(), JsonValue::Boolean(false));
    assert_eq!(parse("null").unwrap(), JsonValue::Null);
    assert!(parse("tru").is_err());
    assert!(parse("nulL").is_err());
}

#[test]
fn parse_numbers() {
    assert_eq!(parse("0").unwrap(), num(0.0));
    assert_eq!(parse("-0").unwrap(), num(-0.0));
    assert_eq!(parse("1.5").unwrap(), num(1.5));
    assert_eq!(parse("-12.25e2").unwrap(), num(-1225.0));
    assert_eq!(parse("1E+2").unwrap(), num(100.0));
    assert_eq!(parse("2e-1").unwrap(), num(0.2));
    assert!(parse("1.").is_err());
    assert!(parse("1e").is_err());
    assert!(parse("-").is_err());
    assert!(parse("+1").is_err());
}

#[test]
fn parse_huge_exponent_gives_infinity() {
    let v = parse("1e999").unwrap();
    assert_eq!(v, num(f64::INFINITY));
}

#[test]
fn parse_nested_object() {
    let v = parse("{\"a\": {\"b\": [true, null]}}").unwrap();
    let inner = v.index_key("a").index_key("b");
    assert_eq!(inner.index_at(0), &JsonValue::Boolean(true));
    assert_eq!(inner.index_at(1), &JsonValue::Null);
}

#[test]
fn parse_duplicate_keys_last_wins() {
    let v = parse("{\"k\": 1, \"k\": 2}").unwrap();
    assert_eq!(v, JsonValue::Object(vec![("k".to_string(), num(2.0))]));
}

#[test]
fn parse_trailing_content_fails() {
    let e = parse("1 2").unwrap_err();
    assert_eq!(e.line(), 1);
    assert_eq!(e.column(), 3);
}

#[test]
fn parse_whitespace_is_exactly_json_whitespace() {
    assert!(parse(" \t\r\n true \t\r\n ").is_ok());
    // Form feed is language-level whitespace but not JSON whitespace.
    assert!(parse("\u{c}true").is_err());
}

#[test]
fn parse_error_position_counts_lines() {
    let e = parse("[1,\n 2,\n x]").unwrap_err();
    assert_eq!(e.line(), 3);
    assert_eq!(e.column(), 1);
}

#[test]
fn stringify_compact() {
    let v = JsonValue::Array(vec![num(1.0), num(2.0), num(3.0)]);
    assert_eq!(tinyjson::generator::stringify(&v).unwrap(), "[1,2,3]");
    assert_eq!(v.stringify().unwrap(), "[1,2,3]");
}

#[test]
fn format_two_space_indent() {
    let v = JsonValue::Array(vec![num(1.0), num(2.0), num(3.0)]);
    assert_eq!(tinyjson::generator::format(&v).unwrap(), "[\n  1,\n  2,\n  3\n]");
    assert_eq!(v.format().unwrap(), "[\n  1,\n  2,\n  3\n]");
}

#[test]
fn format_nested() {
    let v = parse("{\"a\": [1, {\"b\": []}]}").unwrap();
    assert_eq!(
        v.format().unwrap(),
        "{\n  \"a\": [\n    1,\n    {\n      \"b\": []\n    }\n  ]\n}"
    );
}

#[test]
fn generator_custom_indent() {
    let v = JsonValue::Array(vec![num(1.0), num(2.0)]);
    let g = JsonGenerator::new().indent("    ");
    assert_eq!(g.generate(&v).unwrap(), "[\n    1,\n    2\n]");
    let g2 = JsonGenerator::new();
    assert_eq!(g2.generate(&v).unwrap(), "[1,2]");
}

#[test]
fn empty_containers_round_trip() {
    let a = parse("[]").unwrap();
    assert_eq!(a, JsonValue::Array(vec![]));
    let o = parse("{}").unwrap();
    assert_eq!(o, JsonValue::Object(vec![]));
    assert_eq!(a.stringify().unwrap(), "[]");
    assert_eq!(o.stringify().unwrap(), "{}");
    assert_eq!(a.format().unwrap(), "[]");
    assert_eq!(o.format().unwrap(), "{}");
}

#[test]
fn string_escapes_round_trip() {
    let v = parse("\"a\\\"b\\\\c\\/d\\b\\f\\n\\r\\te\"").unwrap();
    assert_eq!(
        v,
        JsonValue::String("a\"b\\c/d\u{8}\u{c}\n\r\te".to_string())
    );
    let s = v.stringify().unwrap();
    assert_eq!(s, "\"a\\\"b\\\\c/d\\b\\f\\n\\r\\te\"");
    assert_eq!(parse(&s).unwrap(), v);
}

#[test]
fn control_characters_use_hex_escapes() {
    let v = JsonValue::String("\u{1}\u{1f}".to_string());
    assert_eq!(v.stringify().unwrap(), "\"\\u0001\\u001f\"");
    assert_eq!(parse(&v.stringify().unwrap()).unwrap(), v);
}

#[test]
fn round_trip_parse_generate_parse() {
    let texts = [
        "[1, 2, 3]",
        "{\"foo\": [true, null, 1], \"bar\": \"text\"}",
        "[[[]], {}, \"\\u0041\", -0.5, 1e3]",
        "\"\\uD83D\\uDE00 ok\"",
    ];
    for t in texts.iter() {
        let v1 = parse(t).unwrap();
        let s = v1.stringify().unwrap();
        let v2 = parse(&s).unwrap();
        assert_eq!(v1, v2);
    }
}

#[test]
fn serialization_is_idempotent() {
    let texts = ["[1, 2, 3]", "{\"a\": 0.5, \"b\": [\"x\", {}]}"];
    for t in texts.iter() {
        let s1 = parse(t).unwrap().stringify().unwrap();
        let s2 = parse(&s1).unwrap().stringify().unwrap();
        assert_eq!(s1, s2);
    }
}

#[test]
fn query_navigates_nested_values() {
    let v = parse("[{\"foo\": [true, null, 1]}]").unwrap();
    let found = v
        .query()
        .child(0usize)
        .child("foo")
        .child_by(|x| matches!(x, JsonValue::Number(n) if f64::from_bits(*n) > 0.0))
        .get::<u64>();
    assert_eq!(found, Some(&1.0f64.to_bits()));
    assert!(v.query().child(0usize).child("foo").is_found());
    assert!(!v.query().child(0usize).child("foo").child(5usize).is_found());
    assert_eq!(v.query().child(0usize).child("foo").child(5usize).find(), None);
    assert!(!v.query().child("bar").is_found());
}

#[test]
fn query_mut_modifies_in_place() {
    let mut v = parse("[{\"foo\": [1, 2]}]").unwrap();
    if let Some(slot) = v.query_mut().child(0usize).child("foo").child(1usize).find() {
        *slot = JsonValue::Boolean(false);
    }
    assert_eq!(v.stringify().unwrap(), "[{\"foo\":[1,false]}]");
    if let Some(n) = v.query_mut().child(0usize).child("foo").child(0usize).get::<u64>() {
        *n = 5.0f64.to_bits();
    }
    assert_eq!(v.stringify().unwrap(), "[{\"foo\":[5,false]}]");
    assert!(v.query_mut().child(7usize).find().is_none());
}

#[test]
fn direct_indexing() {
    let mut v = parse("{\"foo\": [10, 20]}").unwrap();
    assert_eq!(v.index_key("foo").index_at(1), &num(20.0));
    *v.index_key_mut("foo").index_at_mut(0) = num(99.0);
    assert_eq!(v.stringify().unwrap(), "{\"foo\":[99,20]}");
}

#[test]
fn typed_getters() {
    let v = parse("[1, \"s\", true, null]").unwrap();
    let arr: &Vec<JsonValue> = v.get().unwrap();
    assert_eq!(arr.len(), 4);
    assert_eq!(arr[0].get::<u64>(), Some(&1.0f64.to_bits()));
    assert_eq!(arr[1].get::<String>(), Some(&"s".to_string()));
    assert_eq!(arr[2].get::<bool>(), Some(&true));
    assert_eq!(arr[3].get::<()>(), Some(&()));
    assert_eq!(arr[0].get::<bool>(), None);
    assert!(v.is_array());
    assert!(!v.is_object());
    assert!(arr[1].is_string());
    assert!(arr[3].is_null());
    assert!(arr[0].is_number());
    assert!(arr[2].is_bool());
}

#[test]
fn get_mut_updates_payload() {
    let mut v = parse("\"hello\"").unwrap();
    if let Some(s) = v.get_mut::<String>() {
        s.push_str(", world");
    }
    assert_eq!(v, JsonValue::String("hello, world".to_string()));
}

#[test]
fn conversion_failure_recovers_value() {
    let v = num(1.0);
    let e = v.try_into_string().unwrap_err();
    assert_eq!(e.value(), &num(1.0));
    assert_eq!(e.expected(), "string");
    let back = JsonValue::from(e);
    assert_eq!(back, num(1.0));
}

#[test]
fn conversions_build_and_extract() {
    assert_eq!(JsonValue::from(true), JsonValue::Boolean(true));
    assert_eq!(JsonValue::from(1.5f64.to_bits()), num(1.5));
    assert_eq!(JsonValue::from(()), JsonValue::Null);
    assert_eq!(
        JsonValue::from("x".to_string()),
        JsonValue::String("x".to_string())
    );
    let v = JsonValue::from(vec![num(1.0)]);
    assert_eq!(v.try_into_array().unwrap(), vec![num(1.0)]);
    let o = JsonValue::from(vec![("k".to_string(), num(2.0))]);
    assert_eq!(
        o.try_into_object().unwrap(),
        vec![("k".to_string(), num(2.0))]
    );
    assert_eq!(num(3.0).try_into_number().unwrap(), 3.0f64.to_bits());
    assert_eq!(JsonValue::Boolean(true).try_into_bool().unwrap(), true);
    assert_eq!(JsonValue::Null.try_into_null().unwrap(), ());
    assert_eq!(
        JsonValue::String("y".to_string()).try_into_string().unwrap(),
        "y"
    );
}

#[test]
fn generation_fails_on_nan_and_infinity() {
    let nan = num(f64::NAN);
    let e = nan.stringify().unwrap_err();
    assert_eq!(e.message(), "JSON cannot represent NaN");
    let inf = num(f64::INFINITY);
    let e2 = inf.stringify().unwrap_err();
    assert_eq!(e2.message(), "JSON cannot represent inf");
    assert_eq!(e2.to_display_string(), "Generate error: JSON cannot represent inf");
    let neg_inf = num(f64::NEG_INFINITY);
    assert!(neg_inf.format().unwrap_err().message().contains("inf"));
    let nested = JsonValue::Array(vec![num(1.0), num(f64::NAN)]);
    assert!(nested.stringify().is_err());
    assert!(nested.format().is_err());
}

#[test]
fn key_must_be_string() {
    assert!(parse("{1: 2}").is_err());
}

#[test]
fn untyped_example_round_trips() {
    assert_eq!(tinyjson::untyped_example("[1, 2, 3]"), "[1,2,3]");
}

#[test]
fn generate_then_parse_returns_equal_tree() {
    let texts = [
        "{\"foo\": [true, null, 1.5], \"bar\": {\"x\": \"\\u0007 deep\"}}",
        "[[], {}, -2.5e10, \"\"]",
    ];
    for t in texts.iter() {
        let v = parse(t).unwrap();
        let v2 = tinyjson::laws::generate_then_parse(&v).unwrap();
        assert_eq!(v2, v);
    }
}

#[test]
fn each_error_variant_has_an_input() {
    // A character no value can start with.
    assert_eq!(parse("x").unwrap_err().message(), "Invalid character: x");
    // A missing colon after an object key.
    assert!(parse("{\"a\" 1}").unwrap_err().message().contains("':' is expected"));
    // Something other than a comma or closing brace after a member.
    assert!(parse("{\"a\":1;}").unwrap_err().message().contains("',' or '}'"));
    // Something other than a comma or closing bracket after an element.
    assert!(parse("[1;2]").unwrap_err().message().contains("',' or ']'"));
    // An unknown escape.
    assert!(parse("\"\\x\"").unwrap_err().message().contains("invalid escaped character"));
    // A non-hexadecimal character inside a unicode escape.
    assert!(parse("\"\\u00g1\"").unwrap_err().message().contains("\\uXXXX"));
    // A raw control character inside a string.
    assert!(parse("\"\u{2}\"").unwrap_err().message().contains("control character"));
    // A non-string object key.
    assert_eq!(parse("{1: 2}").unwrap_err().message(), "Key of object must be string");
    // Missing digits in the three numeric positions.
    assert!(parse("-x").unwrap_err().message().contains("integer part"));
    assert!(parse("1.x").unwrap_err().message().contains("after '.'"));
    assert!(parse("1ex").unwrap_err().message().contains("exponent part"));
    // A wrong character inside a keyword.
    assert!(parse("trve").unwrap_err().message().contains("while parsing"));
    // A second value after the first.
    assert!(parse("1 2").unwrap_err().message().contains("Expected EOF"));
    // An unpaired surrogate.
    assert_eq!(parse("\"\\uD800\"").unwrap_err().message(), "Invalid UTF-16 sequence");
}

#[test]
fn whitespace_tracks_lines_and_columns() {
    let e = parse("{\n  \"a\": x\n}").unwrap_err();
    assert_eq!(e.line(), 2);
    // The offending character is seen but not consumed, so the column
    // counts the characters before it.
    assert_eq!(e.column(), 7);
}

#[test]
fn unicode_escape_digits_admit_no_whitespace() {
    assert!(parse("\"\\u0 041\"").is_err());
    assert!(parse("\"\\u00 41\"").is_err());
}

#[test]
fn numbers_render_with_minimal_digits() {
    assert_eq!(parse("0.1").unwrap().stringify().unwrap(), "0.1");
    assert_eq!(parse("0.2").unwrap().stringify().unwrap(), "0.2");
    assert_eq!(parse("0.3").unwrap().stringify().unwrap(), "0.3");
    assert_eq!(parse("-0.25").unwrap().stringify().unwrap(), "-0.25");
    assert_eq!(num(0.1 + 0.2).stringify().unwrap(), "0.30000000000000004");
    assert_eq!(parse("1e21").unwrap().stringify().unwrap(), "1E+21");
    assert_eq!(parse("1e-5").unwrap().stringify().unwrap(), "1E-5");
}

#[test]
fn non_dyadic_decimals_round_trip() {
    for t in ["0.1", "0.3", "[0.1,0.2,0.3]", "{\"x\": 3.141592653589793}"].iter() {
        let v1 = parse(t).unwrap();
        let s = v1.stringify().unwrap();
        let v2 = parse(&s).unwrap();
        assert_eq!(v1, v2);
        assert_eq!(parse(&s).unwrap().stringify().unwrap(), s);
    }
}
