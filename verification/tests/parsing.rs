use guix_crates::grammar::ParseErrorKind;
use guix_crates::sexpr::{parse, parse_nodes, ParseError, SExpr};

fn sym(s: &str) -> SExpr<'_> {
    SExpr::Sym(s)
}

fn nested(depth: usize) -> SExpr<'static> {
    let mut node = SExpr::List(vec![]);
    for _ in 1..depth {
        node = SExpr::List(vec![node]);
    }
    node
}

#[test]
fn empty_text_has_no_nodes() {
    assert_eq!(parse(""), Ok(vec![]));
    assert_eq!(parse(" \t\r\n"), Ok(vec![]));
    assert_eq!(parse("; only a comment"), Ok(vec![]));
    assert_eq!(parse("; a comment\n"), Ok(vec![]));
}

#[test]
fn symbols_are_split_at_whitespace() {
    assert_eq!(parse("foo"), Ok(vec![sym("foo")]));
    assert_eq!(parse("foo bar\tbaz\r\nqux"), Ok(vec![sym("foo"), sym("bar"), sym("baz"), sym("qux")]));
    assert_eq!(parse("  #:tests? #t  "), Ok(vec![sym("#:tests?"), sym("#t")]));
}

#[test]
fn symbols_end_at_delimiters() {
    assert_eq!(parse("a(b)c"), Ok(vec![sym("a"), SExpr::List(vec![sym("b")]), sym("c")]));
    assert_eq!(parse("a\"b\"c"), Ok(vec![sym("a"), SExpr::Str("b"), sym("c")]));
    assert_eq!(parse("foo'bar"), Ok(vec![sym("foo"), sym("bar")]));
    assert_eq!(parse("foo`bar"), Ok(vec![sym("foo"), sym("bar")]));
}

#[test]
fn a_semicolon_inside_a_symbol_starts_no_comment() {
    assert_eq!(parse("foo;bar baz"), Ok(vec![sym("foo;bar"), sym("baz")]));
    assert_eq!(parse("foo ;bar baz"), Ok(vec![sym("foo")]));
}

#[test]
fn symbols_may_hold_any_other_character() {
    assert_eq!(parse("héllo wörld"), Ok(vec![sym("héllo"), sym("wörld")]));
    assert_eq!(parse("(λ 日本語 🦀)"), Ok(vec![SExpr::List(vec![sym("λ"), sym("日本語"), sym("🦀")])]));
    assert_eq!(parse("a\u{a0}b"), Ok(vec![sym("a\u{a0}b")]));
    assert_eq!(parse("a\u{b}b"), Ok(vec![sym("a\u{b}b")]));
}

#[test]
fn comments_run_to_the_end_of_the_line() {
    assert_eq!(parse("a ; b c\nd"), Ok(vec![sym("a"), sym("d")]));
    assert_eq!(parse(";;; header\n\n(a ; inside\n b)\n; tail"), Ok(vec![SExpr::List(vec![sym("a"), sym("b")])]));
    assert_eq!(parse("; \"not a string\n\"a string\""), Ok(vec![SExpr::Str("a string")]));
    assert_eq!(parse("; é 日本語\nx"), Ok(vec![sym("x")]));
}

#[test]
fn strings_keep_their_text_as_written() {
    assert_eq!(parse("\"\""), Ok(vec![SExpr::Str("")]));
    assert_eq!(parse("\"hello world\""), Ok(vec![SExpr::Str("hello world")]));
    assert_eq!(parse("\"a;b(c)'d`e\""), Ok(vec![SExpr::Str("a;b(c)'d`e")]));
    assert_eq!(parse("\"line\nbreak\""), Ok(vec![SExpr::Str("line\nbreak")]));
    assert_eq!(parse("\"日本語\" \"é\""), Ok(vec![SExpr::Str("日本語"), SExpr::Str("é")]));
}

#[test]
fn an_escaped_quote_does_not_close_a_string() {
    assert_eq!(parse("\"a\\\"b\""), Ok(vec![SExpr::Str("a\\\"b")]));
    assert_eq!(parse("\"a\\\\\" b"), Ok(vec![SExpr::Str("a\\\\"), sym("b")]));
    assert_eq!(parse("\"\\n\\t\""), Ok(vec![SExpr::Str("\\n\\t")]));
    assert_eq!(parse("\"\\é\\\"\""), Ok(vec![SExpr::Str("\\é\\\"")]));
}

#[test]
fn lists_hold_their_elements_in_order() {
    assert_eq!(parse("()"), Ok(vec![SExpr::List(vec![])]));
    assert_eq!(parse("( )"), Ok(vec![SExpr::List(vec![])]));
    assert_eq!(
        parse("(a \"b\" (c d) ())"),
        Ok(vec![SExpr::List(vec![
            sym("a"),
            SExpr::Str("b"),
            SExpr::List(vec![sym("c"), sym("d")]),
            SExpr::List(vec![]),
        ])])
    );
    assert_eq!(parse("(a)(b)"), Ok(vec![SExpr::List(vec![sym("a")]), SExpr::List(vec![sym("b")])]));
}

#[test]
fn nested_empty_lists_parse_to_their_depth() {
    assert_eq!(parse("()"), Ok(vec![nested(1)]));
    assert_eq!(parse("(())"), Ok(vec![nested(2)]));
    assert_eq!(parse("((()))"), Ok(vec![nested(3)]));
    let depth = 200;
    let text = "(".repeat(depth) + &")".repeat(depth);
    assert_eq!(parse(&text), Ok(vec![nested(depth)]));
}

#[test]
fn a_missing_closing_parenthesis_fails_at_any_depth() {
    for depth in 1..20 {
        for closed in 0..depth {
            let text = "(".repeat(depth) + &")".repeat(closed);
            let error = parse_nodes(&text).unwrap_err();
            assert_eq!(error, ParseError { kind: ParseErrorKind::Unclosed, rest: "" });
        }
    }
}

#[test]
fn a_quote_prefix_is_dropped() {
    assert_eq!(parse("'foo"), parse("foo"));
    assert_eq!(parse("'foo"), Ok(vec![sym("foo")]));
    assert_eq!(parse("`foo"), Ok(vec![sym("foo")]));
    assert_eq!(parse("'(a b)"), Ok(vec![SExpr::List(vec![sym("a"), sym("b")])]));
    assert_eq!(parse("'\"s\""), Ok(vec![SExpr::Str("s")]));
    assert_eq!(parse("''`'foo"), Ok(vec![sym("foo")]));
    assert_eq!(parse("(list 'a `(b ,c))"), parse("(list a (b ,c))"));
}

#[test]
fn whitespace_and_comments_may_follow_a_quote_prefix() {
    assert_eq!(parse("' foo"), Ok(vec![sym("foo")]));
    assert_eq!(parse("';c\n foo"), Ok(vec![sym("foo")]));
}

#[test]
fn a_quote_prefix_needs_a_node_after_it() {
    assert_eq!(parse_nodes("'"), Err(ParseError { kind: ParseErrorKind::Trailing, rest: "'" }));
    assert_eq!(parse_nodes("foo ' "), Err(ParseError { kind: ParseErrorKind::Trailing, rest: "' " }));
    assert_eq!(parse_nodes("(a ')"), Err(ParseError { kind: ParseErrorKind::Unclosed, rest: "')" }));
}

#[test]
fn padding_at_node_boundaries_changes_nothing() {
    let plain = parse("(a (b \"c\") d) e").unwrap();
    assert_eq!(parse("  (a (b \"c\") d) e"), Ok(plain));
    let plain = parse("(a (b \"c\") d) e").unwrap();
    assert_eq!(parse("(\n a\t(  b\r\n\"c\" )\n d )   e\n\n"), Ok(plain));
    let plain = parse("(a (b \"c\") d) e").unwrap();
    assert_eq!(
        parse(";; top\n( ; open\n a ;one\n (b ; two\n \"c\" ; three\n ) ; four\n d ;five\n) ; six\n e ; seven"),
        Ok(plain)
    );
}

#[test]
fn an_unclosed_string_fails() {
    assert_eq!(parse_nodes("\"abc"), Err(ParseError { kind: ParseErrorKind::Unclosed, rest: "" }));
    assert_eq!(parse_nodes("\""), Err(ParseError { kind: ParseErrorKind::Unclosed, rest: "" }));
    assert_eq!(parse_nodes("(a \"b c)"), Err(ParseError { kind: ParseErrorKind::Unclosed, rest: "" }));
    assert_eq!(parse_nodes("\"a\\\""), Err(ParseError { kind: ParseErrorKind::Unclosed, rest: "" }));
    assert_eq!(parse_nodes("\"a\\b"), Err(ParseError { kind: ParseErrorKind::Unclosed, rest: "" }));
}

#[test]
fn a_string_that_ends_in_a_lone_backslash_fails_from_its_start() {
    assert_eq!(parse_nodes("x \"abc\\"), Err(ParseError { kind: ParseErrorKind::Unclosed, rest: "abc\\" }));
    assert_eq!(parse_nodes("\"\\"), Err(ParseError { kind: ParseErrorKind::Unclosed, rest: "\\" }));
    assert_eq!(parse_nodes("\"é\\\\\\"), Err(ParseError { kind: ParseErrorKind::Unclosed, rest: "é\\\\\\" }));
}

#[test]
fn an_unclosed_list_fails_where_the_parenthesis_is_missing() {
    assert_eq!(parse_nodes("(a b"), Err(ParseError { kind: ParseErrorKind::Unclosed, rest: "" }));
    assert_eq!(parse_nodes("(a b  ; c"), Err(ParseError { kind: ParseErrorKind::Unclosed, rest: "" }));
    assert_eq!(parse_nodes("(a \u{c} b)"), Err(ParseError { kind: ParseErrorKind::Unclosed, rest: "\u{c} b)" }));
}

#[test]
fn trailing_text_fails() {
    assert_eq!(parse_nodes("foo )"), Err(ParseError { kind: ParseErrorKind::Trailing, rest: ")" }));
    assert_eq!(parse_nodes(")"), Err(ParseError { kind: ParseErrorKind::Trailing, rest: ")" }));
    assert_eq!(parse_nodes("(a) ; c\n ) b"), Err(ParseError { kind: ParseErrorKind::Trailing, rest: ") b" }));
    assert_eq!(parse_nodes("a \u{c} b"), Err(ParseError { kind: ParseErrorKind::Trailing, rest: "\u{c} b" }));
}

#[test]
fn a_failure_has_the_message_that_nom_gives_it() {
    assert_eq!(parse("\"abc"), Err("Parsing Failure: Error { input: \"\", code: Char }".to_string()));
    assert_eq!(parse("(a \"bc\\"), Err("Parsing Failure: Error { input: \"bc\\\\\", code: Char }".to_string()));
    assert_eq!(parse("(a b"), Err("Parsing Failure: Error { input: \"\", code: Char }".to_string()));
    assert_eq!(parse("foo ) bar"), Err("Parsing Failure: Error { input: \") bar\", code: Eof }".to_string()));
    let error = ParseError { kind: ParseErrorKind::Unclosed, rest: "tail" };
    assert_eq!(error.message(), "Parsing Failure: Error { input: \"tail\", code: Char }");
    let error = ParseError { kind: ParseErrorKind::Trailing, rest: "tail" };
    assert_eq!(error.message(), "Parsing Failure: Error { input: \"tail\", code: Eof }");
}

#[test]
fn parsing_twice_gives_the_same_nodes() {
    let text = "(define-public x (package (version \"1\"))) ; c\n 'y \"z\"";
    assert_eq!(parse(text), parse(text));
    assert_eq!(parse("(a"), parse("(a"));
}

#[test]
fn both_entry_points_agree() {
    for text in ["", "a", "(a \"b\") c", "'(x)", "(", "\"", "a )"] {
        match (parse(text), parse_nodes(text)) {
            (Ok(a), Ok(b)) => assert_eq!(a, b),
            (Err(message), Err(error)) => assert_eq!(message, error.message()),
            _ => panic!("the entry points disagree on {:?}", text),
        }
    }
}

#[test]
fn as_list_gives_the_elements_of_a_list_only() {
    let list = SExpr::List(vec![sym("a"), SExpr::Str("b")]);
    assert_eq!(list.as_list(), Some(&[sym("a"), SExpr::Str("b")][..]));
    assert_eq!(SExpr::List(vec![]).as_list(), Some(&[][..]));
    assert_eq!(sym("a").as_list(), None);
    assert_eq!(SExpr::Str("a").as_list(), None);
}

#[test]
fn into_list_gives_the_elements_of_a_list_only() {
    let list = SExpr::List(vec![sym("a"), SExpr::Str("b")]);
    assert_eq!(list.into_list(), Some(vec![sym("a"), SExpr::Str("b")]));
    assert_eq!(sym("a").into_list(), None);
    assert_eq!(SExpr::Str("a").into_list(), None);
}

#[test]
fn as_str_gives_the_text_of_symbols_and_strings() {
    assert_eq!(sym("a").as_str(), Some("a"));
    assert_eq!(SExpr::Str("b c").as_str(), Some("b c"));
    assert_eq!(SExpr::Str("").as_str(), Some(""));
    assert_eq!(SExpr::List(vec![sym("a")]).as_str(), None);
}

#[test]
fn if_named_gives_the_arguments_of_a_tagged_list() {
    let form = SExpr::List(vec![sym("version"), SExpr::Str("1.0"), sym("x")]);
    assert_eq!(form.if_named("version"), Some(&[SExpr::Str("1.0"), sym("x")][..]));
    assert_eq!(form.if_named("versio"), None);
    assert_eq!(form.if_named("version2"), None);
    assert_eq!(form.if_named(""), None);
    assert_eq!(SExpr::List(vec![sym("tag")]).if_named("tag"), Some(&[][..]));
    assert_eq!(SExpr::List(vec![sym("é")]).if_named("é"), Some(&[][..]));
}

#[test]
fn if_named_wants_a_list_that_starts_with_a_symbol() {
    assert_eq!(SExpr::List(vec![]).if_named("tag"), None);
    assert_eq!(sym("tag").if_named("tag"), None);
    assert_eq!(SExpr::Str("tag").if_named("tag"), None);
    assert_eq!(SExpr::List(vec![SExpr::Str("tag"), sym("x")]).if_named("tag"), None);
    assert_eq!(SExpr::List(vec![SExpr::List(vec![sym("tag")])]).if_named("tag"), None);
}
