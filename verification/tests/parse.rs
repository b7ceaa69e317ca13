use cel::parser::parse::{error_message, parse_bytes, parse_string, ParseSequenceError, ParseUnicodeError};

fn ok(s: &str, expected: &str) {
    assert_eq!(parse_string(s).as_deref(), Ok(expected), "input: {s}");
}

fn ok_bytes(s: &str, expected: &[u8]) {
    assert_eq!(parse_bytes(s).as_deref(), Ok(expected), "input: {s}");
}

fn err(s: &str) {
    assert!(parse_string(s).is_err(), "expected error for: {s}");
}

#[test]
fn single_quoted_escapes() {
    ok(r"'Hello \a'", "Hello \u{07}");
    ok(r"'Hello \b'", "Hello \u{08}");
    ok(r"'Hello \v'", "Hello \u{0b}");
    ok(r"'Hello \f'", "Hello \u{0c}");
    ok(r"'Hello \n'", "Hello \n");
    ok(r"'Hello \r'", "Hello \r");
    ok(r"'Hello \t'", "Hello \t");
    ok(r"'Hello \\'", "Hello \\");
    ok(r"'Hello \?'", "Hello ?");
    ok(r"'Hello \''", "Hello '");
    ok(r#"'Hello \`'"#, "Hello `");
    ok(r"'Hello \x20'", "Hello  ");
    ok(r"'Hello ✌'", "Hello ✌");
    ok(r"'Hello \U0001f431'", "Hello 🐱");
    ok(r"'Hello \040'", "Hello  ");
}

#[test]
fn double_quoted_escapes() {
    ok(r#""Hello \n""#, "Hello \n");
    ok(r#""Hello \x60""#, "Hello `");
    ok(r#""Hello ✌""#, "Hello ✌");
    ok(r#""Hello \040""#, "Hello  ");
}

#[test]
fn uppercase_x_hex_escape() {
    ok(r"' \X00 \X0A \X7F '", " \x00 \n \x7f ");
}

#[test]
fn mixed_case_hex_escape() {
    ok(
        r#"" \x4a \x4B \X4c \X4D ƫ \U000001aB ""#,
        " \u{4a} \u{4b} \u{4c} \u{4d} \u{1ab} \u{1ab} ",
    );
}

#[test]
fn triple_double_quoted_plain() {
    ok(r#""""hello""""#, "hello");
}

#[test]
fn triple_double_quoted_with_embedded_quote() {
    ok(r#"""" ? " ' ` """"#, " ? \" ' ` ");
}

#[test]
fn triple_double_quoted_with_escapes() {
    ok(r#"""" \n """"#, " \n ");
}

#[test]
fn raw_string_verbatim() {
    ok(r#"r"\a\n\x00""#, r"\a\n\x00");
    ok(r#"R"\a\n\x00""#, r"\a\n\x00");
}

#[test]
fn raw_triple_quoted_verbatim() {
    ok(
        r#"r""" \\ \? \` \a \b \f \t \v \n \r \000 \x00 \X00   \U00000000 """"#,
        r" \\ \? \` \a \b \f \t \v \n \r \000 \x00 \X00   \U00000000 ",
    );
}

#[test]
fn bytes_standard_escapes() {
    ok_bytes("b' \\\\ \\? \\\" \\' \\` '", b" \\ ? \" ' ` ");
    ok_bytes(r#"b'\n'"#, b"\n");
    ok_bytes(r#"b'\x20'"#, b" ");
    ok_bytes(r#"b'\376'"#, &[0xFE]);
    ok_bytes(r#"b'\xFF'"#, &[0xFF]);
}

#[test]
fn bytes_uppercase_prefix() {
    ok_bytes(r#"B"hi""#, b"hi");
}

#[test]
fn bytes_triple_double_quoted() {
    ok_bytes(r#"b"""hi""""#, b"hi");
}

#[test]
fn bytes_raw() {
    ok_bytes(r#"br"\n""#, br"\n");
    ok_bytes(r#"BR"\a\b""#, br"\a\b");
}

#[test]
fn bytes_rejects_unicode_escape() {
    assert!(parse_bytes("b'\\u0041'").is_err());
    assert!(parse_bytes("b'\\U00000041'").is_err());
}

#[test]
fn newlines_normalized() {
    ok("\"a\r\nb\"", "a\nb");
    ok("\"a\rb\"", "a\nb");
}

#[test]
fn errors() {
    err("'unterminated");
    err("unquoted'");
    assert!(matches!(
        parse_string(r"'\440'"),
        Err(ParseSequenceError::InvalidEscape { .. })
    ));
}

#[test]
fn parses_bytes_smoke() {
    let bytes = parse_bytes(r#"b"abc💖\xFF\376""#).expect("must parse");
    assert_eq!(
        &*bytes,
        &[b'a', b'b', b'c', 0xF0, 0x9F, 0x92, 0x96, 0xFF, 0xFE]
    );
}

#[test]
fn error_variants_and_positions() {
    assert_eq!(parse_string("'"), Err(ParseSequenceError::Invalid("literal too short to be a valid string".to_string())));
    assert_eq!(parse_string("'a\""), Err(ParseSequenceError::MissingClosingQuote));
    assert_eq!(parse_string("xab"), Err(ParseSequenceError::MissingOpeningQuote));
    assert_eq!(parse_bytes("'ab'"), Err(ParseSequenceError::Invalid("bytes literal must start with b/B".to_string())));
    assert_eq!(
        parse_string(r"'✌\q'"),
        Err(ParseSequenceError::InvalidEscape { escape: "\\q".to_string(), index: 3, string: r"✌\q".to_string() })
    );
    assert_eq!(
        parse_string(r"'\uD800'"),
        Err(ParseSequenceError::InvalidUnicode {
            source: ParseUnicodeError::Unicode { value: 0xD800 },
            index: 0,
            string: r"\uD800".to_string()
        })
    );
    assert!(matches!(
        parse_string(r"'\xZZ'"),
        Err(ParseSequenceError::InvalidUnicode { source: ParseUnicodeError::Hex { .. }, index: 0, .. })
    ));
    assert_eq!(
        parse_string(r"'\12'"),
        Err(ParseSequenceError::InvalidUnicode {
            source: ParseUnicodeError::Unicode { value: 0 },
            index: 0,
            string: r"\12".to_string()
        })
    );
    assert_eq!(
        parse_string(r"'\18a'"),
        Err(ParseSequenceError::InvalidEscape { escape: "\\1".to_string(), index: 0, string: r"\18a".to_string() })
    );
}

#[test]
fn hex_escape_accepts_plus_sign() {
    assert_eq!(parse_string(r"'\x+A'").as_deref(), Ok("\n"));
}

#[test]
fn error_message_renders_every_variant_field_by_field() {
    let inputs = [r"'✌\q'", r"'\uD800'", r"'\xZZ'", "'", "'a\"", "xab", r#"'say \"hi\" \q'"#];
    for s in inputs {
        let e = parse_string(s).unwrap_err();
        assert_eq!(error_message(&e), format!("{e:?}"), "input: {s}");
    }
    let e = parse_string(r"'\uD800'").unwrap_err();
    assert_eq!(
        error_message(&e),
        r#"InvalidUnicode { source: Unicode { value: 55296 }, index: 0, string: "\\uD800" }"#
    );
    assert_eq!(error_message(&ParseSequenceError::MissingClosingQuote), "MissingClosingQuote");
}
