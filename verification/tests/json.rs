use lom::json::{escape_str, parse, JsonValue};

fn num(n: i64) -> JsonValue {
    JsonValue::Int(n)
}

fn text(s: &str) -> JsonValue {
    JsonValue::Str(s.to_string())
}

#[test]
fn parse_simple_object() {
    let v = parse(r#"{"name": "Alice", "age": 30}"#).unwrap();
    match v {
        JsonValue::Object(fields) => {
            assert_eq!(fields.len(), 2);
            assert_eq!(fields[0].0, "name");
            match &fields[0].1 {
                JsonValue::Str(s) => assert_eq!(s, "Alice"),
                other => panic!("期望 Str，得到 {:?}", other),
            }
            assert_eq!(fields[1].0, "age");
            match &fields[1].1 {
                JsonValue::Int(n) => assert_eq!(*n, 30),
                other => panic!("期望 Int，得到 {:?}", other),
            }
        }
        other => panic!("期望 Record，得到 {:?}", other),
    }
}

#[test]
fn parse_array() {
    let v = parse(r#"[1, 2, 3]"#).unwrap();
    match v {
        JsonValue::Array(l) => {
            assert_eq!(l.len(), 3);
            match l.first() {
                Some(JsonValue::Int(n)) => assert_eq!(*n, 1),
                _ => panic!(),
            }
        }
        _ => panic!(),
    }
}

#[test]
fn parse_nested() {
    let v = parse(r#"{"users": [{"name": "Bob"}], "count": 1}"#).unwrap();
    match v {
        JsonValue::Object(fields) => {
            assert_eq!(fields.len(), 2);
            match &fields[0].1 {
                JsonValue::Array(l) => {
                    assert_eq!(l.len(), 1);
                }
                _ => panic!(),
            }
        }
        _ => panic!(),
    }
}

#[test]
fn parse_null_bool_float() {
    let v = parse(r#"{"nil": null, "yes": true, "no": false, "pi": 3.14}"#).unwrap();
    match v {
        JsonValue::Object(fields) => {
            assert_eq!(fields.len(), 4);
            assert!(matches!(fields[0].1, JsonValue::Null));
            assert!(matches!(fields[1].1, JsonValue::Bool(true)));
            assert!(matches!(fields[2].1, JsonValue::Bool(false)));
            match &fields[3].1 {
                JsonValue::Float(t) => {
                    let n: f64 = t.parse().unwrap();
                    assert!((n - 3.14).abs() < 1e-9)
                }
                _ => panic!(),
            }
        }
        _ => panic!(),
    }
}

#[test]
fn parse_unicode_escape() {
    let v = parse(r#""\u0041\u0042""#).unwrap();
    match v {
        JsonValue::Str(s) => assert_eq!(s, "AB"),
        _ => panic!(),
    }
}

#[test]
fn parse_surrogate_pair() {
    // U+1F600 = \uD83D\uDE00
    let v = parse(r#""\uD83D\uDE00""#).unwrap();
    match v {
        JsonValue::Str(s) => assert_eq!(s, "😀"),
        _ => panic!(),
    }
}

#[test]
fn parse_negative_number() {
    let v = parse(r#"-42"#).unwrap();
    match v {
        JsonValue::Int(n) => assert_eq!(n, -42),
        _ => panic!(),
    }
}

#[test]
fn parse_exponent() {
    let v = parse(r#"1e3"#).unwrap();
    match v {
        JsonValue::Float(t) => {
            let n: f64 = t.parse().unwrap();
            assert!((n - 1000.0).abs() < 1e-9)
        }
        _ => panic!(),
    }
}

#[test]
fn parse_empty() {
    assert!(parse("").is_err());
    assert!(parse("   ").is_err());
}

#[test]
fn parse_trailing_content() {
    assert!(parse(r#"{} extra"#).is_err());
}

#[test]
fn parse_unclosed_string() {
    assert!(parse(r#""hello"#).is_err());
}

#[test]
fn parse_utf8_direct() {
    let v = parse(r#""你好""#).unwrap();
    match v {
        JsonValue::Str(s) => assert_eq!(s, "你好"),
        _ => panic!(),
    }
}

#[test]
fn stringify_roundtrip() {
    let src = r#"{"name":"Alice","age":30,"scores":[90,85,92]}"#;
    let v = parse(src).unwrap();
    let s = lom::json::stringify(&v);
    let v2 = parse(&s).unwrap();
    assert_eq!(s, src);
    let _ = v2;
}

#[test]
fn stringify_special_chars() {
    let v = text("hello\n\"world\"\t");
    let s = lom::json::stringify(&v);
    assert_eq!(s, r#""hello\n\"world\"\t""#);
}

#[test]
fn stringify_null_and_bool() {
    assert_eq!(lom::json::stringify(&JsonValue::Null), "null");
    assert_eq!(lom::json::stringify(&JsonValue::Bool(true)), "true");
    assert_eq!(lom::json::stringify(&JsonValue::Bool(false)), "false");
}

#[test]
fn stringify_tuple_as_array() {
    let v = JsonValue::Array(vec![num(1), text("two")]);
    assert_eq!(lom::json::stringify(&v), r#"[1,"two"]"#);
}

// ----- errors, with their messages and offsets -----

#[test]
fn parse_error_unexpected_end() {
    let e = parse("   ").unwrap_err();
    assert_eq!(e.message, "意外的输入结束");
    assert_eq!(e.pos, 3);
}

#[test]
fn parse_error_trailing_context() {
    let e = parse(r#"{} extra"#).unwrap_err();
    assert_eq!(e.pos, 3);
    assert_eq!(e.message, "JSON 值后有多余内容: '{} extra'");
    assert_eq!(e.describe(), "JSON 解析错误 (偏移 3): JSON 值后有多余内容: '{} extra'");
}

#[test]
fn parse_error_context_cuts_characters() {
    // "你" takes three bytes; the window of ten bytes before the offset starts
    // inside it.
    let e = parse("\"你好好好\" x").unwrap_err();
    assert_eq!(e.pos, 15);
    assert_eq!(e.message, "JSON 值后有多余内容: '\u{FFFD}\u{FFFD}好好\" x'");
}

#[test]
fn parse_error_unexpected_char() {
    let e = parse("@").unwrap_err();
    assert_eq!(e.message, "意外字符 '@'");
    assert_eq!(e.pos, 0);
}

#[test]
fn parse_error_missing_colon() {
    let e = parse(r#"{"a" 1}"#).unwrap_err();
    assert_eq!(e.message, "期望 ':'，得到 ''1''");
    assert_eq!(e.pos, 5);
}

#[test]
fn parse_error_bad_separator() {
    let e = parse("[1 2]").unwrap_err();
    assert_eq!(e.message, "期望 ',' 或 ']'，得到 ''2''");
    assert_eq!(e.pos, 3);
    let e = parse(r#"{"a":1"#).unwrap_err();
    assert_eq!(e.message, "期望 ',' 或 '}'，得到 'EOF'");
}

#[test]
fn parse_error_escapes() {
    let e = parse(r#""\x""#).unwrap_err();
    assert_eq!(e.message, "无效转义 '\\x'");
    assert_eq!(e.pos, 2);
    let e = parse(r#""\u12""#).unwrap_err();
    assert_eq!(e.message, "\\u 转义需要 4 个十六进制数字");
    let e = parse(r#""\u12G4""#).unwrap_err();
    assert_eq!(e.message, "无效 \\u 转义 '\\u12G4'");
    let e = parse(r#""\uD83Dx""#).unwrap_err();
    assert_eq!(e.message, "高代理后缺少低代理 \\uXXXX");
    let e = parse(r#""\uD83D\u0041""#).unwrap_err();
    assert_eq!(e.message, "期望低代理，得到 \\u0041");
    let e = parse(r#""\uDC00""#).unwrap_err();
    assert_eq!(e.message, "无效 Unicode 码点 U+DC00");
}

#[test]
fn parse_plus_sign_in_unicode_escape() {
    // u32::from_str_radix takes a leading `+`
    let v = parse(r#""\u+041""#).unwrap();
    match v {
        JsonValue::Str(s) => assert_eq!(s, "A"),
        _ => panic!(),
    }
}

#[test]
fn parse_error_numbers() {
    assert_eq!(parse("-").unwrap_err().message, "数字缺少整数部分");
    assert_eq!(parse("1.").unwrap_err().message, "小数点后缺少数字");
    assert_eq!(parse("1e+").unwrap_err().message, "指数缺少数字");
    let e = parse("9223372036854775808").unwrap_err();
    assert_eq!(e.message, "无效整数 '9223372036854775808'（可能溢出 i64）");
    assert_eq!(e.pos, 0);
    match parse("-9223372036854775808").unwrap() {
        JsonValue::Int(n) => assert_eq!(n, i64::MIN),
        _ => panic!(),
    }
}

#[test]
fn parse_error_keywords() {
    let e = parse("trueX").unwrap_err();
    assert_eq!(e.message, "期望 'true' 或 'false'，得到 ''t''");
    let e = parse("nul").unwrap_err();
    assert_eq!(e.message, "期望 'null'，得到 ''n''");
}

#[test]
fn parse_error_control_byte_shown_in_hex() {
    let e = parse("[1\u{1}]").unwrap_err();
    assert_eq!(e.message, "期望 ',' 或 ']'，得到 '0x01'");
}

#[test]
fn parse_leading_zero_stops_the_number() {
    let e = parse("01").unwrap_err();
    assert_eq!(e.pos, 1);
}

#[test]
fn escape_str_controls() {
    assert_eq!(escape_str("a\u{8}\u{c}\u{1}"), "a\\b\\f\\u0001");
}

#[test]
fn stringify_nested_writes_keys_in_order() {
    let v = JsonValue::Object(vec![
        ("b".to_string(), JsonValue::Array(vec![])),
        ("a".to_string(), JsonValue::Object(vec![])),
        ("f".to_string(), JsonValue::Float("2.50".to_string())),
        ("n".to_string(), num(-7)),
    ]);
    assert_eq!(lom::json::stringify(&v), r#"{"b":[],"a":{},"f":2.50,"n":-7}"#);
}

#[test]
fn parse_reads_back_what_stringify_writes() {
    let v = JsonValue::Object(vec![
        ("名字".to_string(), text("tab\there \"q\" \\ \u{1} 😀 é")),
        ("list".to_string(), JsonValue::Array(vec![num(i64::MIN), num(0), JsonValue::Float("-0.5e+10".to_string())])),
        ("empty".to_string(), JsonValue::Object(vec![])),
        ("flags".to_string(), JsonValue::Array(vec![JsonValue::Bool(true), JsonValue::Bool(false), JsonValue::Null])),
    ]);
    let s = lom::json::stringify(&v);
    let back = parse(&s).unwrap();
    assert_eq!(lom::json::stringify(&back), s);
    match back {
        JsonValue::Object(fields) => {
            assert_eq!(fields[0].0, "名字");
            match &fields[0].1 {
                JsonValue::Str(t) => assert_eq!(t, "tab\there \"q\" \\ \u{1} 😀 é"),
                _ => panic!(),
            }
            match &fields[1].1 {
                JsonValue::Array(xs) => {
                    assert!(matches!(xs[0], JsonValue::Int(i64::MIN)));
                    assert!(matches!(&xs[2], JsonValue::Float(t) if t == "-0.5e+10"));
                }
                _ => panic!(),
            }
        }
        _ => panic!(),
    }
}

#[test]
fn integer_limits_and_hex_escapes() {
    assert!(matches!(parse("9223372036854775807").unwrap(), JsonValue::Int(n) if n == i64::MAX));
    assert!(matches!(parse("-9223372036854775808").unwrap(), JsonValue::Int(n) if n == i64::MIN));
    assert!(parse("9223372036854775808").is_err());
    assert!(parse("-9223372036854775809").is_err());
    assert!(matches!(parse("\"\\u00e9\\u0041\"").unwrap(), JsonValue::Str(s) if s == "éA"));
    assert!(matches!(parse("\"\\u00E9\"").unwrap(), JsonValue::Str(s) if s == "é"));
    assert!(parse("\"\\u00g1\"").is_err());
}
