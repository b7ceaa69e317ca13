use cel::common::ast::{ComprehensionExpr, EntryExpr, Expr, IdedExpr, LiteralValue};
use cel::parser::winnow_parser::{lex, pos_for_offset, LexError, TokenKind, WinnowParser as Parser};

fn kinds(source: &str) -> Vec<TokenKind> {
    let (tokens, errors) = lex(source);
    assert!(errors.is_empty(), "unexpected lexer errors: {errors:?}");
    tokens.into_iter().map(|t| t.kind).collect()
}

#[test]
fn lexes_every_token_kind() {
    assert_eq!(
        kinds("a.b[0]{}(),?:-+*/%! == != < <= > >= && || in true false null 1 1u 1.5 'x' b'y' `z`"),
        vec![
            TokenKind::Ident, TokenKind::Dot, TokenKind::Ident, TokenKind::LBracket, TokenKind::Int, TokenKind::RBracket, TokenKind::LBrace, TokenKind::RBrace, TokenKind::LParen, TokenKind::RParen, TokenKind::Comma,
            TokenKind::Question, TokenKind::Colon, TokenKind::Minus, TokenKind::Plus, TokenKind::Star, TokenKind::Slash, TokenKind::Percent, TokenKind::Exclam, TokenKind::EqEq, TokenKind::NotEq, TokenKind::Less,
            TokenKind::LessEq, TokenKind::Greater, TokenKind::GreaterEq, TokenKind::And, TokenKind::Or, TokenKind::In, TokenKind::True, TokenKind::False, TokenKind::Null, TokenKind::Int, TokenKind::Uint, TokenKind::Float,
            TokenKind::String, TokenKind::Bytes, TokenKind::EscIdent,
        ]
    );
}

#[test]
fn lexes_spans_and_skips_trivia() {
    let (tokens, errors) = lex(" a // comment\n\t.b ");
    assert!(errors.is_empty());
    let spans: Vec<_> = tokens.iter().map(|t| (t.kind, t.start, t.end)).collect();
    assert_eq!(
        spans,
        vec![
            (TokenKind::Ident, 1, 2),
            (TokenKind::Dot, 15, 16),
            (TokenKind::Ident, 16, 17),
        ]
    );
}

#[test]
fn lexes_spans_in_bytes_after_wide_characters() {
    let (tokens, errors) = lex("'✌' a");
    assert!(errors.is_empty());
    let spans: Vec<_> = tokens.iter().map(|t| (t.kind, t.start, t.end)).collect();
    assert_eq!(spans, vec![(TokenKind::String, 0, 5), (TokenKind::Ident, 6, 7)]);
}

#[test]
fn lexes_numbers_like_antlr() {
    assert_eq!(kinds("1."), vec![TokenKind::Int, TokenKind::Dot]);
    assert_eq!(kinds("1.5"), vec![TokenKind::Float]);
    assert_eq!(kinds(".5e-3"), vec![TokenKind::Float]);
    assert_eq!(kinds("1e5"), vec![TokenKind::Float]);
    assert_eq!(kinds("1E+2"), vec![TokenKind::Float]);
    assert_eq!(kinds("1e"), vec![TokenKind::Int, TokenKind::Ident]);
    assert_eq!(kinds("0x1F"), vec![TokenKind::Int]);
    assert_eq!(kinds("0x1Fu"), vec![TokenKind::Uint]);
    assert_eq!(kinds("0x"), vec![TokenKind::Int, TokenKind::Ident]);
    assert_eq!(kinds("0X1"), vec![TokenKind::Int, TokenKind::Ident]);
    assert_eq!(kinds("1u"), vec![TokenKind::Uint]);
    assert_eq!(kinds("1U"), vec![TokenKind::Uint]);
    assert_eq!(kinds("1.5u"), vec![TokenKind::Float, TokenKind::Ident]);
    assert_eq!(kinds("1e5u"), vec![TokenKind::Float, TokenKind::Ident]);
}

#[test]
fn lexes_strings_and_bytes() {
    assert_eq!(kinds(r#""a\"b" 'c\'d'"#), vec![TokenKind::String, TokenKind::String]);
    assert_eq!(kinds(r#""""a"b""" '''c'd'''"#), vec![TokenKind::String, TokenKind::String]);
    assert_eq!(kinds(r#"r"a\" R'b\'"#), vec![TokenKind::String, TokenKind::String]);
    assert_eq!(kinds("r\"\"\"a\nb\"\"\""), vec![TokenKind::String]);
    assert_eq!(kinds(r#"b'a' B"b" br'c' bR"d" Br'e' BR"f""#), vec![TokenKind::Bytes; 6]);
    assert_eq!(kinds(r#"rb'x'"#), vec![TokenKind::Ident, TokenKind::String]);
    assert_eq!(kinds("r b br rb"), vec![TokenKind::Ident; 4]);
}

#[test]
fn lexer_errors_produce_error_tokens() {
    fn lex_errors(source: &str) -> (Vec<TokenKind>, Vec<LexError>) {
        let (tokens, errors) = lex(source);
        (tokens.into_iter().map(|t| t.kind).collect(), errors)
    }

    let (kinds, errors) = lex_errors("a @ b");
    assert_eq!(kinds, vec![TokenKind::Ident, TokenKind::Error, TokenKind::Ident]);
    assert_eq!(errors, vec![LexError { offset: 2, message: "unexpected character" }]);

    let (kinds, errors) = lex_errors("a | b");
    assert_eq!(kinds, vec![TokenKind::Ident, TokenKind::Error, TokenKind::Ident]);
    assert_eq!(errors[0].message, "unexpected single '|', expected '||'");

    let (kinds, errors) = lex_errors("a & b");
    assert_eq!(kinds, vec![TokenKind::Ident, TokenKind::Error, TokenKind::Ident]);
    assert_eq!(errors[0].message, "unexpected single '&', expected '&&'");

    let (kinds, errors) = lex_errors("'abc + 1");
    assert_eq!(kinds, vec![TokenKind::Error]);
    assert_eq!(errors[0].message, "unterminated string literal");
    let (kinds, errors) = lex_errors("b'abc");
    assert_eq!(kinds, vec![TokenKind::Error]);
    assert_eq!(errors[0].message, "unterminated bytes literal");
    let (_, errors) = lex_errors("'a\nb'");
    assert_eq!(errors[0].message, "unterminated string literal");

    let (_, errors) = lex_errors("`a");
    assert_eq!(errors[0].message, "unterminated quoted identifier");
    let (kinds, errors) = lex_errors("`a$b`.c");
    assert_eq!(kinds, vec![TokenKind::Error, TokenKind::Dot, TokenKind::Ident]);
    assert_eq!(errors[0].message, "invalid quoted identifier");
    let (_, errors) = lex_errors("``");
    assert_eq!(errors[0].message, "invalid quoted identifier");

    let (kinds, errors) = lex_errors("a ✌ b");
    assert_eq!(kinds, vec![TokenKind::Ident, TokenKind::Error, TokenKind::Ident]);
    assert_eq!(errors.len(), 1);
}

#[test]
fn positions_are_one_based_lines_and_columns() {
    assert_eq!(pos_for_offset("ab\ncd", 0), (1, 1));
    assert_eq!(pos_for_offset("ab\ncd", 2), (1, 3));
    assert_eq!(pos_for_offset("ab\ncd", 3), (2, 1));
    assert_eq!(pos_for_offset("ab\ncd", 5), (2, 3));
    assert_eq!(pos_for_offset("ab\n", 3), (2, 1));
    assert_eq!(pos_for_offset("", 0), (1, 1));
}

#[test]
fn positions_past_the_end_stand_for_the_end() {
    assert_eq!(pos_for_offset("ab\ncd", 99), (2, 3));
}

#[test]
fn rejects_what_the_antlr_parser_rejects() {
    let sources = [
        "", "\n", "1 + ()", "/", ".", "@foo", "x(1,)", "!-\u{1}", "1 + $", "break",
        "namespace(1)", "\"\\xFh\"", "f(*, *, *)", "!-a", "-!a", "a.?b()", "a.`b`()",
        "a ? b ? c : d : e", "[1 2]", "{a}", "{a:}", "Foo{a}", "Foo{1: 2}", "a.5", "1.", "0x",
        "0X1", "1e", "'abc", "\"a\nb\"", "rb'x'", "a b", "a.in", "in", "a = b", "&&",
        "a && || b", "a |", "`a`", "a.``", "1u.5", "\x0b", "a.b(c){}", "(a", "a[1", "[1,,]",
        "[?a]", "a.?b", "{?a: 1}", "Foo{?a: 1}", "a.`b`",
    ];
    for source in sources {
        assert!(Parser::new().parse(source).is_err(), "`{source}` should be rejected");
    }
    let deep = "(".repeat(20) + "a";
    assert!(Parser::new().parse(&deep).is_err());
}

#[test]
fn reports_errors_where_the_antlr_parser_does() {
    let sources = [
        ("a b", (1, 3)),
        ("[1 2]", (1, 4)),
        ("(a", (1, 3)),
        ("{", (1, 2)),
        ("foo(a,b,)", (1, 9)),
        ("1 + ", (1, 5)),
        ("a.", (1, 3)),
        ("a[1", (1, 4)),
        ("has(m)", (1, 5)),
        ("1.all(2, 3)", (1, 7)),
        ("0xFFFFFFFFFFFFFFFFF", (1, 1)),
        ("break", (1, 1)),
        ("a.?b", (1, 2)),
        ("[?a]", (1, 2)),
        ("Msg{?field: value}", (1, 5)),
        ("a.`b`", (1, 2)),
        ("a\n+\n", (3, 1)),
    ];
    for (source, expected) in sources {
        let actual = Parser::new().parse(source).expect_err("rejected");
        assert_eq!(actual.errors[0].pos, expected, "position of the first error for `{source}`: {}", actual.to_string());
    }
}

#[test]
fn every_lexer_error_is_reported_where_the_lexer_found_it() {
    for source in ["a @ b # c", "é @\n'x", "x | y & z", "[1, `a, 2]"] {
        let (_, lex_errors) = lex(source);
        assert!(!lex_errors.is_empty(), "{source}");
        let err = Parser::new().parse(source).expect_err("a lexer error fails the parse");
        for e in &lex_errors {
            let pos = pos_for_offset(source, e.offset);
            assert!(
                err.errors.iter().any(|p| p.pos == pos && p.msg == e.message),
                "`{source}`: {} at {:?} not among {}",
                e.message,
                pos,
                err.to_string()
            );
        }
    }
}

#[test]
fn reports_lexer_errors_after_the_expression() {
    let err = Parser::new().parse("a @ b @ c").expect_err("should fail");
    let positions: Vec<_> = err.errors.iter().map(|e| e.pos).collect();
    assert_eq!(positions, vec![(1, 3), (1, 7)], "{}", err.to_string());
}

#[test]
fn test_bad_input() {
    let expressions = ["1 + ()", "/", ".", "@foo", "x(1,)", "\x0a", "\n", "", "!-\u{1}"];
    for expr in expressions {
        assert!(Parser::new().parse(expr).is_err(), "Expression `{}` should not parse", expr);
    }
}

#[test]
fn test_comments() {
    let expression = r#"
        // This is a comment
        this.is.not()

        // We don't care!

        "#;
    assert!(Parser::new().parse(expression).is_ok());
}

#[test]
fn recursion_limits() {
    let expressions = [
        "[[[1]]]",
        "(((1)))",
        "{1: {2: {3: 'none'}}}",
        "type(type(type(1)))",
        "[{'a': size([])}]",
        "{}.map(a, a.map(b, b.map(c, c)))",
    ];
    for expr in expressions {
        assert!(Parser::new().max_recursion_depth(3).parse(expr).is_ok(), "Expression `{}` should parse", expr);
        assert!(Parser::new().max_recursion_depth(2).parse(expr).is_err(), "Expression `{}` should not parse", expr);
    }
    let expressions = [
        "[[[[[[[[[[1]]]]]]]]]]",
        "((((((((((1))))))))))",
        "{1: {2: {3: {4: {5: {6: {1: {2: {3: {4: 'none'}}}}}}}}}}",
        "type(type(type(type(type(type(type(type(type(type(1))))))))))",
        "[{'a': size([{'1':size([{'1':size([[]])}])}])}]",
    ];
    for expr in expressions {
        assert!(Parser::new().max_recursion_depth(10).parse(expr).is_ok(), "Expression `{}` should parse", expr);
        assert!(Parser::new().max_recursion_depth(9).parse(expr).is_err(), "Expression `{}` should not parse", expr);
    }
    assert!(Parser::new().max_recursion_depth(0).parse("1 + 1").is_ok());
    assert!(Parser::new().max_recursion_depth(0).parse("(1 + 1)").is_err());
}

#[test]
fn recursion_limit_is_reported_once_and_aborts() {
    let err = Parser::new()
        .max_recursion_depth(2)
        .parse("[[[[1]]]] + [[[[2]]]]")
        .expect_err("too deep");
    assert_eq!(err.errors.len(), 1);
    assert_eq!(err.errors[0].msg, "expression recursion limit exceeded: 2");
    assert_eq!(err.errors[0].pos, (0, 0));
}

#[test]
fn recovery_limit_bails_out() {
    let err = Parser::new()
        .error_recovery_limit(4)
        .parse("[?, ?, ?, ?, ?]")
        .expect_err("expression should fail to parse");
    let rendered = err.to_string();
    assert!(
        rendered.contains("error recovery attempt limit exceeded: 4"),
        "expected recovery limit error, got: {rendered}"
    );
}

#[test]
fn recovery_limit_hit_by_pathological_nested_negation() {
    let expression = "!!(!!!!!!(!!!!(((((!!(!!(!!!!((!!(!!!!!!(!!!!(((((!!(!!(!!!!((1";
    let err = Parser::new()
        .error_recovery_limit(20)
        .parse(expression)
        .expect_err("expression should fail to parse");
    let rendered = err.to_string();
    assert!(
        rendered.contains("error recovery attempt limit exceeded: 20"),
        "expected recovery limit error, got: {rendered}"
    );
}

#[test]
fn recovery_limit_counts_lexer_errors() {
    let err = Parser::new().error_recovery_limit(2).parse("a @ b @ c @ d").expect_err("should fail");
    let rendered = err.to_string();
    assert!(
        rendered.contains("error recovery attempt limit exceeded: 2"),
        "expected recovery limit error, got: {rendered}"
    );
}

#[test]
fn recovery_limit_permits_healthy_parses() {
    assert!(Parser::new().error_recovery_limit(0).parse("1 + 2 * 3").is_ok());
}

#[test]
fn recovers_and_reports_several_errors() {
    let err = Parser::new().parse("[1 +, f(2 3), {a}, (4]").expect_err("should fail");
    let positions: Vec<_> = err.errors.iter().map(|e| e.pos).collect();
    assert_eq!(positions, vec![(1, 5), (1, 11), (1, 17), (1, 22)], "{}", err.to_string());
}

#[test]
fn leading_dot_ident() {
    let expr = Parser::new().parse(".x").expect(".x should parse as a leading-dot ident");
    assert!(matches!(&expr.expr, Expr::Ident(s) if s == ".x"), "expected Ident(\".x\"), got {:?}", expr.expr);
}

const RESERVED: [&str; 17] = [
    "as", "break", "const", "continue", "else", "for", "function", "if", "import", "let", "loop",
    "package", "namespace", "return", "var", "void", "while",
];

#[test]
fn reserved_identifiers_are_rejected() {
    for kw in &RESERVED {
        let err = Parser::new()
            .parse(kw)
            .expect_err(&format!("`{kw}` should be rejected as a reserved identifier"));
        assert!(
            err.to_string().contains("reserved identifier"),
            "expected reserved identifier error for `{kw}`, got: {}",
            err.to_string()
        );
    }
    let err = Parser::new().parse("namespace(1)").expect_err("`namespace(1)` should fail");
    assert!(err.to_string().contains("reserved identifier"), "expected reserved identifier error, got: {}", err.to_string());
}

#[test]
fn backtick_field_selector_strips_backticks_when_enabled() {
    let expr = Parser::new()
        .enable_ident_escape_syntax(true)
        .parse("{'a/b': 1}.`a/b`")
        .expect("should parse with ident-escape enabled");
    fn field_of(expr: &Expr) -> Option<&str> {
        match expr {
            Expr::Select(sel) => Some(&sel.field),
            _ => None,
        }
    }
    assert_eq!(field_of(&expr.expr), Some("a/b"));
}

#[test]
fn backtick_field_selector_is_rejected_by_default() {
    let err = Parser::new().parse("{'a/b': 1}.`a/b`").expect_err("backtick selector must be rejected");
    assert!(
        err.to_string().contains("unsupported syntax: '`'"),
        "expected `unsupported syntax` error, got: {}",
        err.to_string()
    );
}

#[test]
fn reserved_identifiers_are_valid_as_field_selectors() {
    for kw in &RESERVED {
        let expr = format!("{{ '{kw}': 1 }}.{kw}");
        Parser::new()
            .parse(&expr)
            .unwrap_or_else(|e| panic!("`{expr}` should parse but got: {}", e.to_string()));
    }
}

#[test]
fn even_unary_operators_visit_child_once() {
    let expr = Parser::new().parse("!!a").expect("!!a should parse");
    assert!(matches!(expr.expr, Expr::Ident(_)), "!!a should reduce to an identity ident, got {:?}", expr.expr);
    let expr = Parser::new().parse("--1").expect("--1 should parse");
    assert!(matches!(expr.expr, Expr::Literal(_)), "--1 should reduce to a literal, got {:?}", expr.expr);
    let mut nested = "x".to_string();
    for _ in 0..30 {
        nested = format!("--({})", nested);
    }
    let _ = Parser::new().parse(&nested);
}

#[test]
fn malformed_nested_expression_does_not_panic() {
    let expression = "ma[[[[[[[[[[[[[[[[[[[[[[[[[[[[[[[[[[[[[[[[[[[[[[[[[[[[[[[[[[[[[[[[[[\x0c\0\0\0\0\0\0\0[[[[[[[putTo?[[[[[[[[[[ep";
    assert!(Parser::new().max_recursion_depth(48).parse(expression).is_err());
}

fn ids(expr: &IdedExpr, out: &mut Vec<u64>) {
    out.push(expr.id);
    match &expr.expr {
        Expr::Call(call) => {
            if let Some(target) = &call.target {
                ids(target, out);
            }
            call.args.iter().for_each(|arg| ids(arg, out));
        }
        Expr::List(list) => list.elements.iter().for_each(|e| ids(e, out)),
        Expr::Select(s) => ids(&s.operand, out),
        Expr::MapLit(m) => m.entries.iter().for_each(|e| {
            out.push(e.id);
            match &e.expr {
                cel::common::ast::EntryExpr::MapEntry(me) => {
                    ids(&me.key, out);
                    ids(&me.value, out);
                }
                cel::common::ast::EntryExpr::StructField(f) => ids(&f.value, out),
            }
        }),
        Expr::Struct(s) => s.entries.iter().for_each(|e| {
            out.push(e.id);
            if let cel::common::ast::EntryExpr::StructField(f) = &e.expr {
                ids(&f.value, out);
            }
        }),
        _ => {}
    }
}

#[test]
fn every_id_is_unique_and_has_a_span() {
    let (expr, info) = Parser::new()
        .parse_with_source_info("a.b(c)[1] + {'k': [x || y || z]}.f ? M{f: 1}.g : -2.5")
        .expect("should parse");
    let mut all = Vec::new();
    ids(&expr, &mut all);
    let mut sorted = all.clone();
    sorted.sort();
    sorted.dedup();
    assert_eq!(sorted.len(), all.len());
    for id in all {
        assert_ne!(id, 0);
        assert!(info.offset_range(id).is_some(), "id {id} has no span");
    }
}

#[test]
fn numbers_ids_in_the_order_of_the_grammar() {
    let expr = Parser::new().parse("a || b || c").expect("should parse");
    let Expr::Call(top) = &expr.expr else { panic!("expected a call") };
    assert_eq!(top.func_name, "_||_");
    assert_eq!(expr.id, 5);
    let expr = Parser::new().parse("a + b").expect("should parse");
    let Expr::Call(c) = &expr.expr else { panic!("expected a call") };
    assert_eq!(c.func_name, "_+_");
    assert_eq!((c.args[0].id, expr.id, c.args[1].id), (1, 2, 3));
}

#[test]
fn spans_are_first_and_last_bytes() {
    let (expr, info) = Parser::new().parse_with_source_info("  abc").expect("should parse");
    let range = info.offset_range(expr.id).expect("span");
    assert_eq!((range.start, range.end), (2, 4));
    assert_eq!(info.source, "  abc");
}

#[test]
fn literals_take_their_values() {
    let expr = Parser::new().parse("-9223372036854775808").expect("should parse");
    assert!(matches!(expr.expr, Expr::Literal(LiteralValue::Int(i64::MIN))));
    let expr = Parser::new().parse("0x1Fu").expect("should parse");
    assert!(matches!(expr.expr, Expr::Literal(LiteralValue::UInt(31))));
    let expr = Parser::new().parse("-1.5").expect("should parse");
    assert!(matches!(&expr.expr, Expr::Literal(LiteralValue::Double(t)) if t == "-1.5"));
    let expr = Parser::new().parse("b'\\xff'").expect("should parse");
    assert!(matches!(&expr.expr, Expr::Literal(LiteralValue::Bytes(b)) if b == &vec![255u8]));
    let err = Parser::new().parse("9223372036854775808").expect_err("out of range");
    assert_eq!(err.errors[0].msg, "invalid int literal");
    let err = Parser::new().parse("18446744073709551616u").expect_err("out of range");
    assert_eq!(err.errors[0].msg, "invalid uint literal");
}

#[test]
fn syntax_errors_name_what_was_expected() {
    let err = Parser::new().parse("a b").expect_err("should fail");
    assert_eq!(err.errors[0].msg, "Syntax error: mismatched input 'b' expecting <EOF>");
    assert_eq!(err.errors[0].pos, (1, 3));
    let err = Parser::new().parse("(a").expect_err("should fail");
    assert_eq!(err.errors[0].msg, "Syntax error: mismatched input '<EOF>' expecting ')'");
}

#[test]
fn optional_syntax_when_enabled() {
    let expr = Parser::new().enable_optional_syntax(true).parse("a.?b").expect("should parse");
    let Expr::Call(c) = &expr.expr else { panic!("expected a call") };
    assert_eq!(c.func_name, "_?._");
    let expr = Parser::new().enable_optional_syntax(true).parse("[?a, b]").expect("should parse");
    let Expr::List(l) = &expr.expr else { panic!("expected a list") };
    assert_eq!(l.optional_indices, vec![0]);
}

#[test]
fn default_options() {
    let p = Parser::default();
    assert!(p.parse("1").is_ok());
}

#[test]
fn doubles_that_round_to_infinity_are_rejected() {
    let accepted = [
        "1.7976931348623157e308",
        "1.797693134862315807e308",
        "BM1.0",
        "1e-400",
        "0e999999999999999999999",
        "0.0001e312",
        "-1.797693134862315807e308",
        "23.39",
    ];
    for source in accepted {
        let source = source.replace("BM1", "179769313486231580793728971405303415079934132710037826936173778980444968292764750946649017977587207096330286416692887910946555547851940402630657488671505820681908902000708383676273854845817711531764475730270069855571366959622842914819860834936475292719074168444365510704342711559699508093042880177904174497791");
        let expr = Parser::new()
            .parse(&source)
            .unwrap_or_else(|e| panic!("`{source}` should parse but got: {}", e.to_string()));
        assert!(matches!(expr.expr, Expr::Literal(LiteralValue::Double(_))), "{source}");
    }
    let rejected = ["1.797693134862315808e308", "B.0", "1e309", "-1e309", "1.99e90000009", "10e308"];
    for source in rejected {
        let source = source.replace("B", "179769313486231580793728971405303415079934132710037826936173778980444968292764750946649017977587207096330286416692887910946555547851940402630657488671505820681908902000708383676273854845817711531764475730270069855571366959622842914819860834936475292719074168444365510704342711559699508093042880177904174497792");
        let err = Parser::new().parse(&source).expect_err("too large for a double");
        assert_eq!(err.errors.len(), 1, "{source}");
        assert_eq!(err.errors[0].msg, "invalid double literal", "{source}");
    }
    let err = Parser::new().parse("-1e309").expect_err("too large for a double");
    assert_eq!(err.errors[0].pos, (1, 2));
}

#[test]
fn macros_expand_by_name_and_arity() {
    let exists_one = to_go_like_string(&Parser::new().parse("m.exists_one(v, f)").unwrap());
    let exists_one_camel = to_go_like_string(&Parser::new().parse("m.existsOne(v, f)").unwrap());
    assert_eq!(exists_one, exists_one_camel);
    assert!(exists_one.starts_with("__comprehension__("));

    // Other arities, and calls without a target, are plain calls.
    for source in ["m.all(v)", "m.map(a, b, c, d)", "all(v, f)", "m.has(f)", "has(a, b)", ".has(m.f)"] {
        let expr = Parser::new().parse(source).unwrap_or_else(|e| panic!("`{source}`: {}", e.to_string()));
        assert!(matches!(expr.expr, Expr::Call(_)), "{source} should stay a call");
    }

    assert_eq!(
        to_go_like_string(&Parser::new().parse("has(a.b.c)").unwrap()),
        "a^#2:*expr.Expr_IdentExpr#.b^#3:*expr.Expr_SelectExpr#.c~test-only~^#5:*expr.Expr_SelectExpr#"
    );
}

#[test]
fn macro_errors_point_at_the_argument() {
    let err = Parser::new().parse("x.all(y.z, true)").expect_err("not a simple name");
    assert_eq!(err.errors.len(), 1);
    assert_eq!(err.errors[0].msg, "argument must be a simple name");
    assert_eq!(err.errors[0].pos, (1, 8));

    let err = Parser::new().parse("has(a + b)").expect_err("not a selection");
    assert_eq!(err.errors[0].msg, "invalid argument to has() macro");
    assert_eq!(err.errors[0].pos, (1, 7));

    let err = Parser::new().parse("[1].filter(2, true) || x.map([], y)").expect_err("not simple names");
    let positions: Vec<_> = err.errors.iter().map(|e| e.pos).collect();
    assert_eq!(positions, vec![(1, 12), (1, 30)]);
}

#[test]
fn errors_show_the_line_they_are_on() {
    let err = Parser::new().parse("a +\n  b c").expect_err("two operands in a row");
    assert_eq!(
        err.to_string(),
        "ERROR: <input>:2:5: Syntax error: mismatched input 'c' expecting <EOF>\n|   b c\n| ....^"
    );

    // A limit is reported without a place in the source.
    let err = Parser::new()
        .max_recursion_depth(2)
        .parse("[[[[1]]]]")
        .expect_err("too deep");
    assert_eq!(err.to_string(), "ERROR: <input>:0:0: expression recursion limit exceeded: 2");
}

#[test]
fn test() {
        let test_cases = [
            TestInfo {
                i: r#""A""#,
                p: r#""A"^#1:*expr.Constant_StringValue#"#,
                e: "",
                ..Default::default()
            },
            TestInfo {
                i: r#"true"#,
                p: r#"true^#1:*expr.Constant_BoolValue#"#,
                e: "",
                ..Default::default()
            },
            TestInfo {
                i: r#"false"#,
                p: r#"false^#1:*expr.Constant_BoolValue#"#,
                e: "",
                ..Default::default()
            },
            TestInfo {
                i: "0",
                p: "0^#1:*expr.Constant_Int64Value#",
                e: "",
                ..Default::default()
            },
            TestInfo {
                i: "42",
                p: "42^#1:*expr.Constant_Int64Value#",
                e: "",
                ..Default::default()
            },
            TestInfo {
                i: "0xF",
                p: "15^#1:*expr.Constant_Int64Value#",
                e: "",
                ..Default::default()
            },
            TestInfo {
                i: "0u",
                p: "0u^#1:*expr.Constant_Uint64Value#",
                e: "",
                ..Default::default()
            },
            TestInfo {
                i: "23u",
                p: "23u^#1:*expr.Constant_Uint64Value#",
                e: "",
                ..Default::default()
            },
            TestInfo {
                i: "24u",
                p: "24u^#1:*expr.Constant_Uint64Value#",
                e: "",
                ..Default::default()
            },
            TestInfo {
                i: "0xFu",
                p: "15u^#1:*expr.Constant_Uint64Value#",
                e: "",
                ..Default::default()
            },
            TestInfo {
                i: "-1",
                p: "-1^#1:*expr.Constant_Int64Value#",
                e: "",
                ..Default::default()
            },
            TestInfo {
                i: "4--4",
                p: r#"_-_(
    4^#1:*expr.Constant_Int64Value#,
    -4^#3:*expr.Constant_Int64Value#
)^#2:*expr.Expr_CallExpr#"#,
                e: "",
                ..Default::default()
            },
            TestInfo {
                i: "4--4.1",
                p: r#"_-_(
    4^#1:*expr.Constant_Int64Value#,
    -4.1^#3:*expr.Constant_DoubleValue#
)^#2:*expr.Expr_CallExpr#"#,
                e: "",
                ..Default::default()
            },
            TestInfo {
                i: r#"b"abc""#,
                p: r#"b"abc"^#1:*expr.Constant_BytesValue#"#,
                e: "",
                ..Default::default()
            },
            TestInfo {
                i: "23.39",
                p: "23.39^#1:*expr.Constant_DoubleValue#",
                e: "",
                ..Default::default()
            },
            TestInfo {
                i: "!a",
                p: "!_(
    a^#2:*expr.Expr_IdentExpr#
)^#1:*expr.Expr_CallExpr#",
                e: "",
                ..Default::default()
            },
            TestInfo {
                i: "null",
                p: "null^#1:*expr.Constant_NullValue#",
                e: "",
                ..Default::default()
            },
            TestInfo {
                i: "a",
                p: "a^#1:*expr.Expr_IdentExpr#",
                e: "",
                ..Default::default()
            },
            TestInfo {
                i: "a?b:c",
                p: "_?_:_(
    a^#1:*expr.Expr_IdentExpr#,
    b^#3:*expr.Expr_IdentExpr#,
    c^#4:*expr.Expr_IdentExpr#
)^#2:*expr.Expr_CallExpr#",
                e: "",
                ..Default::default()
            },
            TestInfo {
                i: "a || b",
                p: "_||_(
    a^#1:*expr.Expr_IdentExpr#,
    b^#2:*expr.Expr_IdentExpr#
)^#3:*expr.Expr_CallExpr#",
                e: "",
                ..Default::default()
            },
            TestInfo {
                i: "a || b || c || d || e || f ",
                p: "_||_(
    _||_(
        _||_(
            a^#1:*expr.Expr_IdentExpr#,
            b^#2:*expr.Expr_IdentExpr#
        )^#3:*expr.Expr_CallExpr#,
        c^#4:*expr.Expr_IdentExpr#
    )^#5:*expr.Expr_CallExpr#,
    _||_(
        _||_(
            d^#6:*expr.Expr_IdentExpr#,
            e^#8:*expr.Expr_IdentExpr#
        )^#9:*expr.Expr_CallExpr#,
        f^#10:*expr.Expr_IdentExpr#
    )^#11:*expr.Expr_CallExpr#
)^#7:*expr.Expr_CallExpr#",
                e: "",
                ..Default::default()
            },
            TestInfo {
                i: "a && b",
                p: "_&&_(
    a^#1:*expr.Expr_IdentExpr#,
    b^#2:*expr.Expr_IdentExpr#
)^#3:*expr.Expr_CallExpr#",
                e: "",
                ..Default::default()
            },
            TestInfo {
                i: "a && b && c && d && e && f && g",
                p: "_&&_(
    _&&_(
        _&&_(
            a^#1:*expr.Expr_IdentExpr#,
            b^#2:*expr.Expr_IdentExpr#
        )^#3:*expr.Expr_CallExpr#,
        _&&_(
            c^#4:*expr.Expr_IdentExpr#,
            d^#6:*expr.Expr_IdentExpr#
        )^#7:*expr.Expr_CallExpr#
    )^#5:*expr.Expr_CallExpr#,
    _&&_(
        _&&_(
            e^#8:*expr.Expr_IdentExpr#,
            f^#10:*expr.Expr_IdentExpr#
        )^#11:*expr.Expr_CallExpr#,
        g^#12:*expr.Expr_IdentExpr#
    )^#13:*expr.Expr_CallExpr#
)^#9:*expr.Expr_CallExpr#",
                e: "",
                ..Default::default()
            },
            TestInfo {
                i: "a && b && c && d || e && f && g && h",
                p: "_||_(
    _&&_(
        _&&_(
            a^#1:*expr.Expr_IdentExpr#,
            b^#2:*expr.Expr_IdentExpr#
        )^#3:*expr.Expr_CallExpr#,
        _&&_(
            c^#4:*expr.Expr_IdentExpr#,
            d^#6:*expr.Expr_IdentExpr#
        )^#7:*expr.Expr_CallExpr#
    )^#5:*expr.Expr_CallExpr#,
    _&&_(
        _&&_(
            e^#8:*expr.Expr_IdentExpr#,
            f^#9:*expr.Expr_IdentExpr#
        )^#10:*expr.Expr_CallExpr#,
        _&&_(
            g^#11:*expr.Expr_IdentExpr#,
            h^#13:*expr.Expr_IdentExpr#
        )^#14:*expr.Expr_CallExpr#
    )^#12:*expr.Expr_CallExpr#
)^#15:*expr.Expr_CallExpr#",
                e: "",
                ..Default::default()
            },
            TestInfo {
                i: "a + b",
                p: "_+_(
    a^#1:*expr.Expr_IdentExpr#,
    b^#3:*expr.Expr_IdentExpr#
)^#2:*expr.Expr_CallExpr#",
                e: "",
                ..Default::default()
            },
            TestInfo {
                i: "a - b",
                p: "_-_(
    a^#1:*expr.Expr_IdentExpr#,
    b^#3:*expr.Expr_IdentExpr#
)^#2:*expr.Expr_CallExpr#",
                e: "",
                ..Default::default()
            },
            TestInfo {
                i: "a * b",
                p: "_*_(
    a^#1:*expr.Expr_IdentExpr#,
    b^#3:*expr.Expr_IdentExpr#
)^#2:*expr.Expr_CallExpr#",
                e: "",
                ..Default::default()
            },
            TestInfo {
                i: "a / b",
                p: "_/_(
    a^#1:*expr.Expr_IdentExpr#,
    b^#3:*expr.Expr_IdentExpr#
)^#2:*expr.Expr_CallExpr#",
                e: "",
                ..Default::default()
            },
            TestInfo {
                i: "a % b",
                p: "_%_(
    a^#1:*expr.Expr_IdentExpr#,
    b^#3:*expr.Expr_IdentExpr#
)^#2:*expr.Expr_CallExpr#",
                e: "",
                ..Default::default()
            },
            TestInfo {
                i: "a in b",
                p: "@in(
    a^#1:*expr.Expr_IdentExpr#,
    b^#3:*expr.Expr_IdentExpr#
)^#2:*expr.Expr_CallExpr#",
                e: "",
                ..Default::default()
            },
            TestInfo {
                i: "a == b",
                p: "_==_(
    a^#1:*expr.Expr_IdentExpr#,
    b^#3:*expr.Expr_IdentExpr#
)^#2:*expr.Expr_CallExpr#",
                e: "",
                ..Default::default()
            },
            TestInfo {
                i: "a != b",
                p: "_!=_(
    a^#1:*expr.Expr_IdentExpr#,
    b^#3:*expr.Expr_IdentExpr#
)^#2:*expr.Expr_CallExpr#",
                e: "",
                ..Default::default()
            },
            TestInfo {
                i: "a > b",
                p: "_>_(
    a^#1:*expr.Expr_IdentExpr#,
    b^#3:*expr.Expr_IdentExpr#
)^#2:*expr.Expr_CallExpr#",
                e: "",
                ..Default::default()
            },
            TestInfo {
                i: "a >= b",
                p: "_>=_(
    a^#1:*expr.Expr_IdentExpr#,
    b^#3:*expr.Expr_IdentExpr#
)^#2:*expr.Expr_CallExpr#",
                e: "",
                ..Default::default()
            },
            TestInfo {
                i: "a < b",
                p: "_<_(
    a^#1:*expr.Expr_IdentExpr#,
    b^#3:*expr.Expr_IdentExpr#
)^#2:*expr.Expr_CallExpr#",
                e: "",
                ..Default::default()
            },
            TestInfo {
                i: "a <= b",
                p: "_<=_(
    a^#1:*expr.Expr_IdentExpr#,
    b^#3:*expr.Expr_IdentExpr#
)^#2:*expr.Expr_CallExpr#",
                e: "",
                ..Default::default()
            },
            TestInfo {
                i: "a.b",
                p: "a^#1:*expr.Expr_IdentExpr#.b^#2:*expr.Expr_SelectExpr#",
                e: "",
                ..Default::default()
            },
            TestInfo {
                i: "a.b.c",
                p: "a^#1:*expr.Expr_IdentExpr#.b^#2:*expr.Expr_SelectExpr#.c^#3:*expr.Expr_SelectExpr#",
                e: "",
                ..Default::default()
            },
            TestInfo {
                i: "a[b]",
                p: "_[_](
    a^#1:*expr.Expr_IdentExpr#,
    b^#3:*expr.Expr_IdentExpr#
)^#2:*expr.Expr_CallExpr#",
                e: "",
                ..Default::default()
            },
            TestInfo {
                i: "(a)",
                p: "a^#1:*expr.Expr_IdentExpr#",
                e: "",
                ..Default::default()
            },
            TestInfo {
                i: "((a))",
                p: "a^#1:*expr.Expr_IdentExpr#",
                e: "",
                ..Default::default()
            },
            TestInfo {
                i: "a()",
                p: "a()^#1:*expr.Expr_CallExpr#",
                e: "",
                ..Default::default()
            },
            TestInfo {
                i: "a(b)",
                p: "a(
    b^#2:*expr.Expr_IdentExpr#
)^#1:*expr.Expr_CallExpr#",
                e: "",
                ..Default::default()
            },
            TestInfo {
                i: "a(b, c)",
                p: "a(
    b^#2:*expr.Expr_IdentExpr#,
    c^#3:*expr.Expr_IdentExpr#
)^#1:*expr.Expr_CallExpr#",
                e: "",
                ..Default::default()
            },
            TestInfo {
                i: "a.b()",
                p: "a^#1:*expr.Expr_IdentExpr#.b()^#2:*expr.Expr_CallExpr#",
                e: "",
                ..Default::default()
            },
            TestInfo {
                i: "a.b(c)",
                p: "a^#1:*expr.Expr_IdentExpr#.b(
    c^#3:*expr.Expr_IdentExpr#
)^#2:*expr.Expr_CallExpr#",
                e: "",
                ..Default::default()
            },
            TestInfo {
                i: "foo{ }",
                p: "foo{}^#1:*expr.Expr_StructExpr#",
                e: "",
                ..Default::default()
            },
            TestInfo {
                i: "foo{ a:b }",
                p: "foo{
    a:b^#3:*expr.Expr_IdentExpr#^#2:*expr.Expr_CreateStruct_Entry#
}^#1:*expr.Expr_StructExpr#",
                e: "",
                ..Default::default()
            },
            TestInfo {
                i: "foo{ a:b, c:d }",
                p: "foo{
    a:b^#3:*expr.Expr_IdentExpr#^#2:*expr.Expr_CreateStruct_Entry#,
    c:d^#5:*expr.Expr_IdentExpr#^#4:*expr.Expr_CreateStruct_Entry#
}^#1:*expr.Expr_StructExpr#",
                e: "",
                ..Default::default()
            },
            TestInfo {
                i: "{}",
                p: "{}^#1:*expr.Expr_StructExpr#",
                e: "",
                ..Default::default()
            },
            TestInfo {
                i: "{a: b, c: d}",
                p: "{
    a^#3:*expr.Expr_IdentExpr#:b^#4:*expr.Expr_IdentExpr#^#2:*expr.Expr_CreateStruct_Entry#,
    c^#6:*expr.Expr_IdentExpr#:d^#7:*expr.Expr_IdentExpr#^#5:*expr.Expr_CreateStruct_Entry#
}^#1:*expr.Expr_StructExpr#",
                e: "",
                ..Default::default()
            },
            TestInfo {
                i: "[]",
                p: "[]^#1:*expr.Expr_ListExpr#",
                e: "",
                ..Default::default()
            },
            TestInfo {
                i: "[a]",
                p: "[
    a^#2:*expr.Expr_IdentExpr#
]^#1:*expr.Expr_ListExpr#",
                e: "",
                ..Default::default()
            },
            TestInfo {
                i: "[a, b, c]",
                p: "[
    a^#2:*expr.Expr_IdentExpr#,
    b^#3:*expr.Expr_IdentExpr#,
    c^#4:*expr.Expr_IdentExpr#
]^#1:*expr.Expr_ListExpr#",
                e: "",
                ..Default::default()
            },
            TestInfo {
                i: "has(m.f)",
                p: "m^#2:*expr.Expr_IdentExpr#.f~test-only~^#4:*expr.Expr_SelectExpr#",
                e: "",
                ..Default::default()
            },
            TestInfo {
                i: "m.exists(v, f)",
                p: "__comprehension__(
// Variable
v,
// Target
m^#1:*expr.Expr_IdentExpr#,
// Accumulator
@result,
// Init
false^#5:*expr.Constant_BoolValue#,
// LoopCondition
@not_strictly_false(
    !_(
        @result^#6:*expr.Expr_IdentExpr#
    )^#7:*expr.Expr_CallExpr#
)^#8:*expr.Expr_CallExpr#,
// LoopStep
_||_(
    @result^#9:*expr.Expr_IdentExpr#,
    f^#4:*expr.Expr_IdentExpr#
)^#10:*expr.Expr_CallExpr#,
// Result
@result^#11:*expr.Expr_IdentExpr#)^#12:*expr.Expr_ComprehensionExpr#",
                e: "",
                ..Default::default()
            },
            TestInfo {
                i: "m.all(v, f)",
                p: "__comprehension__(
// Variable
v,
// Target
m^#1:*expr.Expr_IdentExpr#,
// Accumulator
@result,
// Init
true^#5:*expr.Constant_BoolValue#,
// LoopCondition
@not_strictly_false(
    @result^#6:*expr.Expr_IdentExpr#
)^#7:*expr.Expr_CallExpr#,
// LoopStep
_&&_(
    @result^#8:*expr.Expr_IdentExpr#,
    f^#4:*expr.Expr_IdentExpr#
)^#9:*expr.Expr_CallExpr#,
// Result
@result^#10:*expr.Expr_IdentExpr#)^#11:*expr.Expr_ComprehensionExpr#",
                e: "",
                ..Default::default()
            },
            TestInfo {
                i: "m.existsOne(v, f)",
                p: "__comprehension__(
// Variable
v,
// Target
m^#1:*expr.Expr_IdentExpr#,
// Accumulator
@result,
// Init
0^#5:*expr.Constant_Int64Value#,
// LoopCondition
true^#6:*expr.Constant_BoolValue#,
// LoopStep
_?_:_(
    f^#4:*expr.Expr_IdentExpr#,
    _+_(
        @result^#7:*expr.Expr_IdentExpr#,
        1^#8:*expr.Constant_Int64Value#
    )^#9:*expr.Expr_CallExpr#,
    @result^#10:*expr.Expr_IdentExpr#
)^#11:*expr.Expr_CallExpr#,
// Result
_==_(
    @result^#12:*expr.Expr_IdentExpr#,
    1^#13:*expr.Constant_Int64Value#
)^#14:*expr.Expr_CallExpr#)^#15:*expr.Expr_ComprehensionExpr#",
                e: "",
                ..Default::default()
            },
            TestInfo {
                i: "m.map(v, f)",
                p: "__comprehension__(
// Variable
v,
// Target
m^#1:*expr.Expr_IdentExpr#,
// Accumulator
@result,
// Init
[]^#5:*expr.Expr_ListExpr#,
// LoopCondition
true^#6:*expr.Constant_BoolValue#,
// LoopStep
_+_(
    @result^#7:*expr.Expr_IdentExpr#,
    [
        f^#4:*expr.Expr_IdentExpr#
    ]^#8:*expr.Expr_ListExpr#
)^#9:*expr.Expr_CallExpr#,
// Result
@result^#10:*expr.Expr_IdentExpr#)^#11:*expr.Expr_ComprehensionExpr#",
                e: "",
                ..Default::default()
            },
            TestInfo {
                i: "m.map(v, p, f)",
                p: "__comprehension__(
// Variable
v,
// Target
m^#1:*expr.Expr_IdentExpr#,
// Accumulator
@result,
// Init
[]^#6:*expr.Expr_ListExpr#,
// LoopCondition
true^#7:*expr.Constant_BoolValue#,
// LoopStep
_?_:_(
    p^#4:*expr.Expr_IdentExpr#,
    _+_(
        @result^#8:*expr.Expr_IdentExpr#,
        [
            f^#5:*expr.Expr_IdentExpr#
        ]^#9:*expr.Expr_ListExpr#
    )^#10:*expr.Expr_CallExpr#,
    @result^#11:*expr.Expr_IdentExpr#
)^#12:*expr.Expr_CallExpr#,
// Result
@result^#13:*expr.Expr_IdentExpr#)^#14:*expr.Expr_ComprehensionExpr#",
                e: "",
                ..Default::default()
            },
            TestInfo {
                i: "m.filter(v, p)",
                p: "__comprehension__(
// Variable
v,
// Target
m^#1:*expr.Expr_IdentExpr#,
// Accumulator
@result,
// Init
[]^#5:*expr.Expr_ListExpr#,
// LoopCondition
true^#6:*expr.Constant_BoolValue#,
// LoopStep
_?_:_(
    p^#4:*expr.Expr_IdentExpr#,
    _+_(
        @result^#7:*expr.Expr_IdentExpr#,
        [
            v^#3:*expr.Expr_IdentExpr#
        ]^#8:*expr.Expr_ListExpr#
    )^#9:*expr.Expr_CallExpr#,
    @result^#10:*expr.Expr_IdentExpr#
)^#11:*expr.Expr_CallExpr#,
// Result
@result^#12:*expr.Expr_IdentExpr#)^#13:*expr.Expr_ComprehensionExpr#",
                e: "",
                ..Default::default()
            },
            // Parse error tests
            TestInfo {
                i: "0xFFFFFFFFFFFFFFFFF",
                p: "",
                e: "ERROR: <input>:1:1: invalid int literal
| 0xFFFFFFFFFFFFFFFFF
| ^",
                ..Default::default()
            },
            TestInfo {
                i: "0xFFFFFFFFFFFFFFFFFu",
                p: "",
                e: "ERROR: <input>:1:1: invalid uint literal
| 0xFFFFFFFFFFFFFFFFFu
| ^",
                ..Default::default()
            },
            TestInfo {
                i: "1.99e90000009",
                p: "",
                e: "ERROR: <input>:1:1: invalid double literal
| 1.99e90000009
| ^",
                ..Default::default()
            },
            TestInfo {
                i: "{",
                p: "",
                e: "ERROR: <input>:1:2: Syntax error: mismatched input '<EOF>' expecting '}'
| {
| .^",
                ..Default::default()
            },
            TestInfo {
                i: "*@a | b",
                p: "",
                e: "ERROR: <input>:1:1: Syntax error: mismatched input '*' expecting expression
| *@a | b
| ^
ERROR: <input>:1:2: unexpected character
| *@a | b
| .^
ERROR: <input>:1:5: unexpected single '|', expected '||'
| *@a | b
| ....^",
                ..Default::default()
            },
            TestInfo {
                i: "a | b",
                p: "",
                e: "ERROR: <input>:1:3: unexpected single '|', expected '||'
| a | b
| ..^",
                ..Default::default()
            },
            TestInfo {
                i: "a.?b && a[?b]",
                p: "",
                e: "ERROR: <input>:1:2: unsupported syntax '.?'
| a.?b && a[?b]
| .^
ERROR: <input>:1:10: unsupported syntax '[?'
| a.?b && a[?b]
| .........^",
                enable_optional_syntax: false,
            },
            TestInfo {
                i: "a.?b[?0] && a[?c]",
                p: r#"_&&_(
    _[?_](
        _?._(
            a^#1:*expr.Expr_IdentExpr#,
            "b"^#2:*expr.Constant_StringValue#
        )^#3:*expr.Expr_CallExpr#,
        0^#5:*expr.Constant_Int64Value#
    )^#4:*expr.Expr_CallExpr#,
    _[?_](
        a^#6:*expr.Expr_IdentExpr#,
        c^#8:*expr.Expr_IdentExpr#
    )^#7:*expr.Expr_CallExpr#
)^#9:*expr.Expr_CallExpr#"#,
                e: "",
                enable_optional_syntax: true,
            },
            TestInfo {
                i: "{?'key': value}",
                p: r#"{
    ?"key"^#3:*expr.Constant_StringValue#:value^#4:*expr.Expr_IdentExpr#^#2:*expr.Expr_CreateStruct_Entry#
}^#1:*expr.Expr_StructExpr#"#,
                e: "",
                enable_optional_syntax: true,
            },
            TestInfo {
                i: "[?a, ?b]",
                p: r#"[
    a^#2:*expr.Expr_IdentExpr#,
    b^#3:*expr.Expr_IdentExpr#
]^#1:*expr.Expr_ListExpr#"#,
                e: "",
                enable_optional_syntax: true,
            },
            TestInfo {
                i: "[?a[?b]]",
                p: r#"[
    _[?_](
        a^#2:*expr.Expr_IdentExpr#,
        b^#4:*expr.Expr_IdentExpr#
    )^#3:*expr.Expr_CallExpr#
]^#1:*expr.Expr_ListExpr#"#,
                e: "",
                enable_optional_syntax: true,
            },
            TestInfo {
                i: "[?a, ?b]",
                p: "",
                e: "ERROR: <input>:1:2: unsupported syntax '?'
| [?a, ?b]
| .^
ERROR: <input>:1:6: unsupported syntax '?'
| [?a, ?b]
| .....^",
                enable_optional_syntax: false,
            },
            TestInfo {
                i: "Msg{?field: value}",
                p: r#"Msg{
    ?field:value^#3:*expr.Expr_IdentExpr#^#2:*expr.Expr_CreateStruct_Entry#
}^#1:*expr.Expr_StructExpr#"#,
                e: "",
                enable_optional_syntax: true,
            },
            TestInfo {
                i: "Msg{?field: value} && {?'key': value}",
                p: "",
                e: "ERROR: <input>:1:5: unsupported syntax '?'
| Msg{?field: value} && {?'key': value}
| ....^
ERROR: <input>:1:24: unsupported syntax '?'
| Msg{?field: value} && {?'key': value}
| .......................^",
                enable_optional_syntax: false,
            },
            TestInfo {
                i: "has(m)",
                p: "",
                e: "ERROR: <input>:1:5: invalid argument to has() macro
| has(m)
| ....^",
                ..Default::default()
            },
            TestInfo {
                i: "1.all(2, 3)",
                p: "",
                e: "ERROR: <input>:1:7: argument must be a simple name
| 1.all(2, 3)
| ......^",
                ..Default::default()
            },
            TestInfo {
                i: "foo(a,b,)",
                p: "",
                e: "ERROR: <input>:1:9: Syntax error: mismatched input ')' expecting expression
| foo(a,b,)
| ........^",
                ..Default::default()
            },
            TestInfo {
                i: "a b",
                p: "",
                e: "ERROR: <input>:1:3: Syntax error: mismatched input 'b' expecting <EOF>
| a b
| ..^",
                ..Default::default()
            },
            TestInfo {
                i: "a.",
                p: "",
                e: "ERROR: <input>:1:3: Syntax error: mismatched input '<EOF>' expecting identifier
| a.
| ..^",
                ..Default::default()
            },
            TestInfo {
                i: "[1 2]",
                p: "",
                e: "ERROR: <input>:1:4: Syntax error: mismatched input '2' expecting ']'
| [1 2]
| ...^",
                ..Default::default()
            },
            TestInfo {
                i: "a ? b",
                p: "",
                e: "ERROR: <input>:1:6: Syntax error: mismatched input '<EOF>' expecting ':'
| a ? b
| .....^",
                ..Default::default()
            },
            TestInfo {
                i: "'unterminated",
                p: "",
                e: "ERROR: <input>:1:1: unterminated string literal
| 'unterminated
| ^",
                ..Default::default()
            },
        ];

        for test_case in test_cases {
            let parser = Parser::new().enable_optional_syntax(test_case.enable_optional_syntax);
            let result = parser.parse(test_case.i);
            if !test_case.p.is_empty() {
                assert_eq!(
                    to_go_like_string(result.as_ref().expect("Expected an AST")),
                    test_case.p,
                    "Expr `{}` failed",
                    test_case.i
                );
            }

            if !test_case.e.is_empty() {
                assert_eq!(
                    result.as_ref().expect_err("Expected an Err!").to_string(),
                    test_case.e,
                    "Error on `{}` failed",
                    test_case.i
                )
            }
        }
    }

#[derive(Default)]
struct TestInfo {
    // I contains the input expression to be parsed.
    i: &'static str,

    // P contains the type/id adorned debug output of the expression tree.
    p: &'static str,

    // E contains the expected error output for a failed parse, or "" if the parse is expected to be successful.
    e: &'static str,

    // Options to be configured with the parser before parsing the expression.
    enable_optional_syntax: bool,
}

fn to_go_like_string(expr: &IdedExpr) -> String {
    let mut writer = DebugWriter::default();
    writer.buffer(expr);
    writer.done()
}

struct DebugWriter {
    buffer: String,
    indents: usize,
    line_start: bool,
}

impl Default for DebugWriter {
    fn default() -> Self {
        Self { buffer: String::default(), indents: 0, line_start: true }
    }
}

impl DebugWriter {
    fn buffer(&mut self, expr: &IdedExpr) -> &Self {
        let e = match &expr.expr {
            Expr::Unspecified => "UNSPECIFIED!".to_string(),
            Expr::Call(call) => {
                if let Some(target) = &call.target {
                    self.buffer(target);
                    self.push(".");
                }
                self.push(call.func_name.as_str());
                self.push("(");
                if !call.args.is_empty() {
                    self.inc_indent();
                    self.newline();
                    for i in 0..call.args.len() {
                        if i > 0 {
                            self.push(",");
                            self.newline();
                        }
                        self.buffer(&call.args[i]);
                    }
                    self.dec_indent();
                    self.newline();
                }
                self.push(")");
                format!("^#{}:{}#", expr.id, "*expr.Expr_CallExpr")
            }
            Expr::Comprehension(comprehension) => {
                self.push("__comprehension__(\n");
                self.push_comprehension(comprehension);
                format!(")^#{}:{}#", expr.id, "*expr.Expr_ComprehensionExpr")
            }
            Expr::Ident(id) => format!("{}^#{}:{}#", id, expr.id, "*expr.Expr_IdentExpr"),
            Expr::List(list) => {
                self.push("[");
                if !list.elements.is_empty() {
                    self.inc_indent();
                    self.newline();
                    for (i, element) in list.elements.iter().enumerate() {
                        if i > 0 {
                            self.push(",");
                            self.newline();
                        }
                        self.buffer(element);
                    }
                    self.dec_indent();
                    self.newline();
                }
                self.push("]");
                format!("^#{}:{}#", expr.id, "*expr.Expr_ListExpr")
            }
            Expr::Literal(val) => match val {
                LiteralValue::String(s) => format!("\"{}\"^#{}:{}#", s, expr.id, "*expr.Constant_StringValue"),
                LiteralValue::Boolean(b) => format!("{}^#{}:{}#", b, expr.id, "*expr.Constant_BoolValue"),
                LiteralValue::Int(i) => format!("{}^#{}:{}#", i, expr.id, "*expr.Constant_Int64Value"),
                LiteralValue::UInt(u) => format!("{}u^#{}:{}#", u, expr.id, "*expr.Constant_Uint64Value"),
                LiteralValue::Double(f) => format!(
                    "{}^#{}:{}#",
                    f.parse::<f64>().expect("a double literal"),
                    expr.id,
                    "*expr.Constant_DoubleValue"
                ),
                LiteralValue::Bytes(bytes) => format!(
                    "b\"{}\"^#{}:{}#",
                    String::from_utf8_lossy(bytes),
                    expr.id,
                    "*expr.Constant_BytesValue"
                ),
                LiteralValue::Null => format!("null^#{}:{}#", expr.id, "*expr.Constant_NullValue"),
            },
            Expr::MapLit(map) => {
                self.push("{");
                self.inc_indent();
                if !map.entries.is_empty() {
                    self.newline();
                }
                for (i, entry) in map.entries.iter().enumerate() {
                    match &entry.expr {
                        EntryExpr::StructField(_) => panic!("a field in a map literal"),
                        EntryExpr::MapEntry(e) => {
                            if e.optional {
                                self.push("?");
                            }
                            self.buffer(&e.key);
                            self.push(":");
                            self.buffer(&e.value);
                            self.push(&format!("^#{}:{}#", entry.id, "*expr.Expr_CreateStruct_Entry"));
                        }
                    }
                    if i < map.entries.len() - 1 {
                        self.push(",");
                    }
                    self.newline();
                }
                self.dec_indent();
                self.push("}");
                format!("^#{}:{}#", expr.id, "*expr.Expr_StructExpr")
            }
            Expr::Select(select) => {
                self.buffer(&select.operand);
                let suffix = if select.test { "~test-only~" } else { "" };
                format!(".{}{}^#{}:{}#", select.field, suffix, expr.id, "*expr.Expr_SelectExpr")
            }
            Expr::Struct(s) => {
                self.push(&s.message_name);
                self.push("{");
                self.inc_indent();
                if !s.entries.is_empty() {
                    self.newline();
                }
                for (i, entry) in s.entries.iter().enumerate() {
                    match &entry.expr {
                        EntryExpr::StructField(field) => {
                            if field.optional {
                                self.push("?");
                            }
                            self.push(&field.field);
                            self.push(":");
                            self.buffer(&field.value);
                            self.push(&format!("^#{}:{}#", entry.id, "*expr.Expr_CreateStruct_Entry"));
                        }
                        EntryExpr::MapEntry(_) => panic!("a map entry in a message literal"),
                    }
                    if i < s.entries.len() - 1 {
                        self.push(",");
                    }
                    self.newline();
                }
                self.dec_indent();
                self.push("}");
                format!("^#{}:{}#", expr.id, "*expr.Expr_StructExpr")
            }
        };
        self.push(&e);
        self
    }

    fn push(&mut self, literal: &str) {
        self.indent();
        self.buffer.push_str(literal);
    }

    fn indent(&mut self) {
        if self.line_start {
            self.line_start = false;
            self.buffer.push_str(&"    ".repeat(self.indents));
        }
    }

    fn newline(&mut self) {
        self.buffer.push('\n');
        self.line_start = true;
    }

    fn inc_indent(&mut self) {
        self.indents += 1;
    }

    fn dec_indent(&mut self) {
        self.indents -= 1;
    }

    fn done(self) -> String {
        self.buffer
    }

    fn push_comprehension(&mut self, comprehension: &ComprehensionExpr) {
        self.push("// Variable\n");
        self.push(comprehension.iter_var.as_str());
        self.push(",\n");
        self.push("// Target\n");
        self.buffer(&comprehension.iter_range);
        self.push(",\n");
        self.push("// Accumulator\n");
        self.push(comprehension.accu_var.as_str());
        self.push(",\n");
        self.push("// Init\n");
        self.buffer(&comprehension.accu_init);
        self.push(",\n");
        self.push("// LoopCondition\n");
        self.buffer(&comprehension.loop_cond);
        self.push(",\n");
        self.push("// LoopStep\n");
        self.buffer(&comprehension.loop_step);
        self.push(",\n");
        self.push("// Result\n");
        self.buffer(&comprehension.result);
    }
}

#[test]
fn options_off_reject_the_syntax_they_enable() {
    for source in ["a.?b", "a[?b]", "[?a]", "{?'k': v}", "Msg{?f: v}"] {
        assert!(Parser::new().parse(source).is_err(), "{source}");
        assert!(Parser::new().enable_optional_syntax(true).parse(source).is_ok(), "{source}");
    }
    for source in ["a.`b-c`", "Msg{`b-c`: 1}"] {
        assert!(Parser::new().parse(source).is_err(), "{source}");
        assert!(Parser::new().enable_ident_escape_syntax(true).parse(source).is_ok(), "{source}");
    }
}

#[test]
fn recovered_errors_never_leave_a_placeholder_in_a_result() {
    for source in ["(", "a +", "f(,)", "[1,,2]", "x.all(1, y)", "has(a)"] {
        assert!(Parser::new().parse(source).is_err(), "{source}");
    }
    let e = Parser::new().parse("[1, a.b, f(x)]").expect("should parse");
    assert!(!matches!(e.expr, Expr::Unspecified));
}
