use rusty_request::json::write_json_string;
use rusty_request::json::Number;
use rusty_request::json::Parser;
use rusty_request::Json as Value;

fn as_f64(v: &Value) -> Option<f64> {
    v.as_number().map(|n| n.parse::<f64>().unwrap())
}

#[test]
fn round_trips_object() {
    let mut v = Value::object();
    v.insert("name", Value::from("Ada"));
    v.insert("age", Value::from(36));
    v.insert("active", Value::from(true));
    let s = v.to_json_string();
    let parsed = Value::parse(&s).unwrap();
    assert_eq!(parsed.get("name").unwrap().as_str(), Some("Ada"));
    assert_eq!(as_f64(parsed.get("age").unwrap()), Some(36.0));
    assert_eq!(parsed.get("active").unwrap().as_bool(), Some(true));
}

#[test]
fn parses_nested_array_and_escapes() {
    let v = Value::parse(r#"{"items":[1,2.5,"a\nb","xéy"],"n":null}"#).unwrap();
    let items = v.get("items").unwrap().as_array().unwrap();
    assert_eq!(as_f64(&items[0]), Some(1.0));
    assert_eq!(as_f64(&items[1]), Some(2.5));
    assert_eq!(items[2].as_str(), Some("a\nb"));
    assert_eq!(items[3].as_str(), Some("x\u{e9}y"));
    assert!(v.get("n").unwrap().is_null());
}

#[test]
fn rejects_trailing_garbage() {
    assert!(Value::parse("{}garbage").is_err());
}

#[test]
fn rejects_truncated_input() {
    assert!(Value::parse(r#"{"a":"#).is_err());
}

#[test]
fn integral_numbers_serialize_without_decimal_point() {
    let v = Value::from(42i64);
    assert_eq!(v.to_json_string(), "42");
}

fn error_of(input: &str) -> String {
    Value::parse(input).unwrap_err()
}

#[test]
fn messages_name_the_byte_and_what_stands_there() {
    assert_eq!(error_of("{}garbage"), "trailing data at byte 2");
    assert_eq!(error_of(""), "unexpected None at byte 0");
    assert_eq!(error_of("é"), "unexpected Some('Ã') at byte 0");
    assert_eq!(error_of("[1 é]"), "expected `,` or `]` at byte 3, found Some('Ã')");
    assert_eq!(error_of("[1"), "expected `,` or `]` at byte 2, found None");
    assert_eq!(error_of("{\"é\" 1}"), "expected `:` at byte 6, found Some('1')");
    assert_eq!(error_of("{1:2}"), "expected `\"` at byte 1, found Some('1')");
    assert_eq!(error_of("{\"a\":1;}"), "expected `,` or `}` at byte 6, found Some(';')");
    assert_eq!(error_of("tru"), "expected `true` at byte 0");
    assert_eq!(error_of(" falsy"), "expected `false` at byte 1");
    assert_eq!(error_of("nul"), "expected `null` at byte 0");
    assert_eq!(error_of("\"abc"), "unterminated string");
    assert_eq!(error_of(r#""\x""#), "invalid escape Some('x')");
}

#[test]
fn numbers_need_digits() {
    assert_eq!(error_of("-"), "invalid number `-`: invalid float literal");
    assert_eq!(error_of("-."), "invalid number `-.`: invalid float literal");
    assert_eq!(error_of("1e"), "invalid number `1e`: invalid float literal");
    assert_eq!(error_of("1e+"), "invalid number `1e+`: invalid float literal");
    for literal in ["0", "-0", "1.", "-.5", "007", "1.5e10", "2E-3", "12e+4"] {
        let v = Value::parse(literal).unwrap();
        assert_eq!(v.as_number(), Some(literal));
        assert!(literal.parse::<f64>().is_ok());
    }
}

#[test]
fn unicode_escapes() {
    let v = Value::parse(r#""\u00e9\ud83d\ude00\b\f\/""#).unwrap();
    assert_eq!(v.as_str(), Some("é😀\u{8}\u{c}/"));
    assert_eq!(Value::parse(r#""\u+0e9""#).unwrap().as_str(), Some("é"));
    assert_eq!(error_of(r#""\u12"#), "truncated unicode escape");
    assert_eq!(error_of(r#""\uéé""#), "invalid unicode escape");
    assert_eq!(error_of(r#""\u12g4""#), "invalid unicode escape");
    assert_eq!(error_of(r#""\ud83d""#), "unpaired high surrogate");
    assert_eq!(error_of(r#""\ud83d\u0041""#), "invalid low surrogate");
    assert_eq!(error_of(r#""\ude00""#), "invalid unicode escape");
}

#[test]
fn later_entries_replace_earlier_ones() {
    let v = Value::parse(r#"{"a":1,"b":2,"a":3}"#).unwrap();
    assert_eq!(v.to_json_string(), r#"{"b":2,"a":3}"#);
    let mut w = Value::object();
    w.insert("a", Value::from(1u8)).insert("b", Value::from(2u8));
    w.insert("a", Value::from(3u8));
    assert_eq!(w.to_json_string(), r#"{"a":3,"b":2}"#);
}

#[test]
fn strings_are_escaped() {
    let v = Value::from("\"\\\n\r\t\u{1}\u{1f}é/");
    assert_eq!(v.to_json_string(), "\"\\\"\\\\\\n\\r\\t\\u0001\\u001fé/\"");
    assert_eq!(Value::parse(&v.to_json_string()), Ok(v));
}

#[test]
fn serialized_values_parse_back() {
    let mut inner = Value::array();
    inner.push(Value::Null).push(Value::from(-7i32)).push(Value::from("x"));
    let mut v = Value::object();
    v.insert("list", inner).insert("empty", Value::object());
    v.insert("nothing", Value::from(None::<bool>));
    v.insert("text", Value::from(Some("t")));
    v.insert("flags", Value::from(vec![Value::from(false)]));
    let s = v.to_json_string();
    assert_eq!(
        s,
        r#"{"list":[null,-7,"x"],"empty":{},"nothing":null,"text":"t","flags":[false]}"#
    );
    assert_eq!(Value::parse(&s), Ok(v.clone()));
    assert_eq!(v.as_object().unwrap().len(), 5);
    assert!(v.get("list").unwrap().get("x").is_none());
    assert!(v.get("absent").is_none());
    let spaced = " { \"list\" : [ null , -7 , \"x\" ] , \"empty\" : { } , \"nothing\":null,\n\t\"text\":\"t\",\"flags\":[false]\r} ";
    assert_eq!(Value::parse(spaced), Ok(v));
}

#[test]
fn written_strings_read_back() {
    for text in ["", "plain", "\"\\/\n\r\t", "\u{0}\u{1f} é \u{1f600}", "\\u0041"] {
        let written = Value::from(text).to_json_string();
        assert_eq!(Value::parse(&written).unwrap().as_str(), Some(text));
        // Another token may follow at once.
        let pair = format!("[{written},{written}]");
        let items = Value::parse(&pair).unwrap();
        assert_eq!(items.as_array().unwrap()[1].as_str(), Some(text));
    }
}

#[test]
fn string_literals_end_where_they_end() {
    for text in ["", "a\"b\\c\n\u{7}", "é\u{1f600}"] {
        let mut out = String::new();
        write_json_string(text, &mut out);
        let mut chars: Vec<char> = out.chars().collect();
        let length = chars.len();
        chars.extend("\",x".chars());
        let parser = Parser { chars: &chars };
        assert_eq!(parser.parse_string(0), Ok((text.to_string(), length)));
    }
    let chars: Vec<char> = "\"open".chars().collect();
    let parser = Parser { chars: &chars };
    assert_eq!(parser.parse_string(0), Err("unterminated string".to_string()));
}

#[test]
fn numbers_hold_literals_only() {
    for literal in ["0", "-0", "1.0", "12e-3", "-.5", "7.", "1E+9"] {
        let number = Number::parse(literal).unwrap();
        assert_eq!(number.as_str(), literal);
        assert_eq!(Value::Number(number.clone()).to_json_string(), literal);
    }
    for text in ["", "-", ".5", "+1", "1e", "1 ", "NaN", "inf", "0x1", "1.2.3"] {
        assert!(Number::parse(text).is_none(), "{text}");
    }
}
