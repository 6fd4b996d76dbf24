use benchpress::expression::{identifier, path};
use benchpress::tokens::trim_end;
use benchpress::span::location;
use benchpress::{expression, tokens, Expression, PathPart, Span, Token};

fn txt(src: &str, s: Span) -> &str {
    &src[s.start..s.end]
}

fn toks(src: &str) -> (Vec<Token>, Vec<Span>) {
    tokens(src.as_bytes()).expect("anchor matcher")
}

fn texts(src: &str, ts: &[Token]) -> Vec<String> {
    ts.iter()
        .map(|t| match t {
            Token::Text(s) => format!("Text({})", txt(src, *s)),
            other => format!("Token({})", txt(src, other.span())),
        })
        .collect()
}

/// Rebuilds the source from the token spans, putting back the `\` of each
/// escaped opener that lies between two spans.
fn rebuild(src: &str, ts: &[Token]) -> String {
    let mut out = String::new();
    let mut pos = 0;
    for t in ts {
        let s = t.span();
        if s.start == pos + 1 {
            assert_eq!(&src[pos..pos + 1], "\\");
            out.push('\\');
        } else {
            assert_eq!(s.start, pos);
        }
        out.push_str(txt(src, s));
        pos = s.end;
    }
    assert_eq!(pos, src.len());
    out
}

fn escape(s: &str) -> String {
    s.replace('{', "\\{").replace("<!--", "\\<!--")
}

#[test]
fn path_dotted_stops_at_comma() {
    let src = "a.b.c, what";
    let (end, x) = path(src.as_bytes(), 0).unwrap();
    assert_eq!(&src[end..], ", what");
    match x {
        Expression::Path { span, path } => {
            assert_eq!(txt(src, span), "a.b.c");
            assert_eq!(path.len(), 3);
        }
        _ => panic!("not a path"),
    }
}

#[test]
fn keyword_path_does_not_continue() {
    let src = "@value.c";
    let (end, x) = path(src.as_bytes(), 0).unwrap();
    assert_eq!(&src[end..], ".c");
    assert_eq!(
        x,
        Expression::Path {
            span: Span { start: 0, end: 6 },
            path: vec![PathPart::Part(Span { start: 0, end: 6 })]
        }
    );
}

#[test]
fn legacy_helper_without_args_gets_value() {
    let src = "function.foo";
    let (end, x) = expression(src.as_bytes(), 0).unwrap();
    assert_eq!(end, 12);
    assert_eq!(
        x,
        Expression::LegacyHelper {
            span: Span { start: 0, end: 12 },
            name: Span { start: 9, end: 12 },
            args: vec![Expression::Path {
                span: Span { start: 12, end: 12 },
                path: vec![PathPart::ImplicitValue]
            }],
        }
    );
}

#[test]
fn legacy_if_helper_gets_root_through_tokens() {
    let src = "<!--IF function.bar, a, b -->";
    let (ts, deprecated) = toks(src);
    assert!(deprecated.is_empty());
    assert_eq!(ts.len(), 1);
    let a = src.find(" a,").unwrap() + 1;
    let b = src.find(" b ").unwrap() + 1;
    assert_eq!(
        ts[0],
        Token::LegacyIf {
            span: Span { start: 0, end: src.len() },
            subject: Expression::LegacyHelper {
                span: Span { start: 7, end: b + 1 },
                name: Span { start: 16, end: 19 },
                args: vec![
                    Expression::Path {
                        span: Span { start: a, end: a },
                        path: vec![PathPart::ImplicitRoot]
                    },
                    Expression::path_from_span(Span { start: a, end: a + 1 }),
                    Expression::path_from_span(Span { start: b, end: b + 1 }),
                ],
            },
        }
    );
}

#[test]
fn if_else_end_scenario() {
    let src = "before {{{ if abc }}} one {{{ else }}} two {{{ end }}} tail";
    let (ts, _) = toks(src);
    assert_eq!(
        texts(src, &ts),
        vec![
            "Text(before )",
            "Token({{{ if abc }}})",
            "Text( one )",
            "Token({{{ else }}})",
            "Text( two )",
            "Token({{{ end }}})",
            "Text( tail)",
        ]
    );
    assert_eq!(
        ts[1],
        Token::If {
            span: Span { start: 7, end: 21 },
            subject: Expression::path_from_span(Span { start: 14, end: 17 })
        }
    );
    assert!(matches!(ts[3], Token::Else { .. }));
    assert!(matches!(ts[5], Token::End { .. }));
}

#[test]
fn escaped_openers_scenario() {
    let src = "before \\{{{ each abc }}} mid \\{{{ end }}}";
    let (ts, _) = toks(src);
    assert_eq!(
        texts(src, &ts),
        vec!["Text(before )", "Text({{{ each abc }}} mid )", "Text({{{ end }}})"]
    );
}

#[test]
fn malformed_each_falls_through() {
    let src = "{{{ each /abc }}} mid {{{ end }}}";
    let (ts, _) = toks(src);
    assert_eq!(texts(src, &ts), vec!["Text({{{ each /abc }}} mid )", "Token({{{ end }}})"]);
    assert!(matches!(ts[1], Token::End { .. }));
}

#[test]
fn string_literal_with_escaped_quotes() {
    let src = "\"he said \\\"no!\\\"\"";
    let (end, x) = expression(src.as_bytes(), 0).unwrap();
    assert_eq!(end, 17);
    assert_eq!(x, Expression::StringLiteral(Span { start: 0, end: 17 }));
}

#[test]
fn identifier_backs_up_before_comment_close() {
    let src = "<!-- IF cond-->";
    let (ts, _) = toks(src);
    assert_eq!(
        ts,
        vec![Token::LegacyIf {
            span: Span { start: 0, end: src.len() },
            subject: Expression::path_from_span(Span { start: 8, end: 12 }),
        }]
    );
}

#[test]
fn coverage_and_no_empty_text() {
    for src in [
        "",
        "plain",
        "a {b} c {{d}} e",
        "\\{x} and \\<!-- y --> and {{{ if z }}}",
        "{{{ each /abc }}} x {{{ end }}}",
        "x @key y @value{z}",
        "\\{\\{",
        "{é} {",
    ] {
        let (ts, _) = toks(src);
        assert_eq!(rebuild(src, &ts), src);
        for t in &ts {
            if let Token::Text(s) = t {
                assert!(s.start < s.end);
            }
        }
    }
}

#[test]
fn spans_nest() {
    let src = "{{ foo(bar, function.baz, \"q\") }} <!-- IF !a.b -->";
    let (ts, _) = toks(src);
    assert_eq!(ts.len(), 3);
    match &ts[0] {
        Token::InterpRaw { span, expr } => {
            let e = expr.span();
            assert!(span.start <= e.start && e.end <= span.end);
            assert_eq!(txt(src, e), "foo(bar, function.baz, \"q\")");
            if let Expression::Helper { args, .. } = expr {
                for a in args {
                    assert!(e.start <= a.span().start && a.span().end <= e.end);
                }
            } else {
                panic!("not a helper");
            }
        }
        _ => panic!("not raw"),
    }
    match &ts[2] {
        Token::LegacyIf { subject, .. } => assert_eq!(txt(src, subject.span()), "!a.b"),
        _ => panic!("not a legacy if"),
    }
}

#[test]
fn reparse_at_own_span() {
    let src = "x !foo(bar, a.b) y";
    let (end, e) = expression(src.as_bytes(), 2).unwrap();
    let sp = e.span();
    assert_eq!((sp.start, sp.end), (2, end));
    let (end2, again) = expression(src.as_bytes(), sp.start).unwrap();
    assert_eq!(end2, sp.end);
    assert_eq!(again, e);
}

#[test]
fn escaping_every_opener_gives_only_text() {
    let s = "a {b} {{c}} {{{ if d }}} <!-- IF e --> f";
    let escaped = escape(s);
    let (ts, deprecated) = toks(&escaped);
    assert!(deprecated.is_empty());
    let mut joined = String::new();
    for t in &ts {
        match t {
            Token::Text(sp) => joined.push_str(txt(&escaped, *sp)),
            _ => panic!("a directive survived escaping"),
        }
    }
    assert_eq!(joined, s);
}

#[test]
fn bare_keyword_becomes_interpolation() {
    let src = "a @value b";
    let (ts, deprecated) = toks(src);
    assert_eq!(
        ts,
        vec![
            Token::Text(Span { start: 0, end: 2 }),
            Token::InterpEscaped {
                span: Span { start: 2, end: 8 },
                expr: Expression::path_from_span(Span { start: 2, end: 8 }),
            },
            Token::Text(Span { start: 8, end: 10 }),
        ]
    );
    assert_eq!(deprecated, vec![Span { start: 2, end: 8 }]);
}

#[test]
fn bare_keyword_takes_only_its_own_bytes() {
    let src = "@keyword";
    let (ts, deprecated) = toks(src);
    assert_eq!(deprecated, vec![Span { start: 0, end: 4 }]);
    assert_eq!(ts[1], Token::Text(Span { start: 4, end: 8 }));
}

#[test]
fn empty_source_has_no_tokens() {
    assert_eq!(toks(""), (vec![], vec![]));
}

#[test]
fn unclosed_opener_is_text() {
    let src = "x { y";
    let (ts, _) = toks(src);
    assert_eq!(ts, vec![Token::Text(Span { start: 0, end: 5 })]);
}

#[test]
fn failed_opener_skips_whole_character() {
    let src = "{é";
    let (ts, _) = toks(src);
    assert_eq!(ts, vec![Token::Text(Span { start: 0, end: 3 })]);
}

#[test]
fn anchor_scan_finds_openers_mid_text() {
    let src = "xx {a} yy";
    let (ts, _) = toks(src);
    assert_eq!(ts.len(), 3);
    assert_eq!(ts[1].span(), Span { start: 3, end: 6 });
}

#[test]
fn legacy_if_without_subject_is_text() {
    let src = "<!-- IF -->";
    let (ts, _) = toks(src);
    assert_eq!(ts, vec![Token::Text(Span { start: 0, end: 11 })]);
}

#[test]
fn identifier_is_never_empty() {
    assert_eq!(identifier(b"-->", 0), None);
    assert_eq!(path(b"-->", 0), None);
    assert_eq!(path(b"./-->", 0), None);
    assert_eq!(identifier(b"a-->", 0), Some(Span { start: 0, end: 1 }));
    let (end, _) = path(b"a.-->", 0).unwrap();
    assert_eq!(end, 1);
}

#[test]
fn legacy_end_subject_drops_unicode_whitespace() {
    let src = "<!-- END a\u{b}\u{a0}\u{3000}-->";
    let (ts, _) = toks(src);
    match ts[0] {
        Token::LegacyEnd { subject_raw, .. } => assert_eq!(txt(src, subject_raw), "a"),
        _ => panic!("not a legacy end"),
    }
    let inner = "x \u{2029}\u{85}";
    assert_eq!(trim_end(inner.as_bytes(), Span { start: 0, end: inner.len() }), Span { start: 0, end: 1 });
    let kept = "x\u{200b}";
    assert_eq!(trim_end(kept.as_bytes(), Span { start: 0, end: kept.len() }).end, kept.len());
}

#[test]
fn legacy_end_subject_is_trimmed() {
    let src = "<!-- ENDIF  a.b \t-->";
    let (ts, _) = toks(src);
    match ts[0] {
        Token::LegacyEnd { subject_raw, .. } => assert_eq!(txt(src, subject_raw), "a.b"),
        _ => panic!("not a legacy end"),
    }
}

#[test]
fn negation_allows_leading_whitespace() {
    let src = " ! a";
    let (end, x) = expression(src.as_bytes(), 0).unwrap();
    assert_eq!(end, 4);
    assert_eq!(
        x,
        Expression::Negative {
            span: Span { start: 0, end: 4 },
            expr: Box::new(Expression::path_from_span(Span { start: 3, end: 4 })),
        }
    );
}

#[test]
fn no_expression_at_punctuation() {
    assert_eq!(expression(b"/abc", 0), None);
    assert_eq!(expression(b"", 0), None);
}

#[test]
fn location_of_position() {
    let src = "ab\ncd @key\nz";
    let loc = location(src.as_bytes(), 6);
    assert_eq!((loc.line, loc.column), (2, 4));
    assert_eq!(&src[loc.line_start..loc.line_end], "cd @key");
}
