use benchpress::expression::{helper, legacy_helper, negative, path, string_literal};
use benchpress::tokens::{
    interp_escaped, interp_raw, legacy_begin, legacy_else, legacy_end, legacy_if, new_each,
    new_else, new_end, new_if,
};
use benchpress::{expression, tokens, Expression, PathPart, Span, Token};

#[derive(Debug, PartialEq)]
enum E<'a> {
    Str(&'a str),
    Path { span: &'a str, path: Vec<&'a str> },
    Neg { span: &'a str, expr: Box<E<'a>> },
    Helper { span: &'a str, name: &'a str, args: Vec<E<'a>> },
    Legacy { span: &'a str, name: &'a str, args: Vec<E<'a>> },
}

#[derive(Debug, PartialEq)]
enum T<'a> {
    Text(&'a str),
    InterpEscaped { span: &'a str, expr: E<'a> },
    InterpRaw { span: &'a str, expr: E<'a> },
    If { span: &'a str, subject: E<'a> },
    Each { span: &'a str, subject: E<'a> },
    Else { span: &'a str },
    End { span: &'a str },
    LegacyIf { span: &'a str, subject: E<'a> },
    LegacyBegin { span: &'a str, subject: E<'a> },
    LegacyElse { span: &'a str },
    LegacyEnd { span: &'a str, subject_raw: &'a str },
}

fn txt(src: &str, s: Span) -> &str {
    &src[s.start..s.end]
}

fn part<'a>(src: &'a str, p: &PathPart) -> &'a str {
    match p {
        PathPart::Part(s) => txt(src, *s),
        PathPart::ImplicitRoot => "@root",
        PathPart::ImplicitValue => "@value",
    }
}

fn ex<'a>(src: &'a str, x: &Expression) -> E<'a> {
    match x {
        Expression::StringLiteral(s) => E::Str(txt(src, *s)),
        Expression::Path { span, path } => E::Path {
            span: txt(src, *span),
            path: path.iter().map(|p| part(src, p)).collect(),
        },
        Expression::Negative { span, expr } => E::Neg {
            span: txt(src, *span),
            expr: Box::new(ex(src, expr)),
        },
        Expression::Helper { span, name, args } => E::Helper {
            span: txt(src, *span),
            name: txt(src, *name),
            args: args.iter().map(|a| ex(src, a)).collect(),
        },
        Expression::LegacyHelper { span, name, args } => E::Legacy {
            span: txt(src, *span),
            name: txt(src, *name),
            args: args.iter().map(|a| ex(src, a)).collect(),
        },
    }
}

fn tk<'a>(src: &'a str, t: &Token) -> T<'a> {
    match t {
        Token::Text(s) => T::Text(txt(src, *s)),
        Token::InterpEscaped { span, expr } => T::InterpEscaped {
            span: txt(src, *span),
            expr: ex(src, expr),
        },
        Token::InterpRaw { span, expr } => T::InterpRaw {
            span: txt(src, *span),
            expr: ex(src, expr),
        },
        Token::If { span, subject } => T::If { span: txt(src, *span), subject: ex(src, subject) },
        Token::Each { span, subject } => T::Each {
            span: txt(src, *span),
            subject: ex(src, subject),
        },
        Token::Else { span } => T::Else { span: txt(src, *span) },
        Token::End { span } => T::End { span: txt(src, *span) },
        Token::LegacyIf { span, subject } => T::LegacyIf {
            span: txt(src, *span),
            subject: ex(src, subject),
        },
        Token::LegacyBegin { span, subject } => T::LegacyBegin {
            span: txt(src, *span),
            subject: ex(src, subject),
        },
        Token::LegacyElse { span } => T::LegacyElse { span: txt(src, *span) },
        Token::LegacyEnd { span, subject_raw } => T::LegacyEnd {
            span: txt(src, *span),
            subject_raw: txt(src, *subject_raw),
        },
    }
}

fn parse_with<'a>(
    f: fn(&[u8], usize) -> Option<(usize, Expression)>,
    src: &'a str,
) -> Option<(&'a str, E<'a>)> {
    f(src.as_bytes(), 0).map(|(e, x)| (&src[e..], ex(src, &x)))
}

fn token_with<'a>(
    f: fn(&[u8], usize) -> Option<(usize, Token)>,
    src: &'a str,
) -> Option<(&'a str, T<'a>)> {
    f(src.as_bytes(), 0).map(|(e, t)| (&src[e..], tk(src, &t)))
}

fn tokenize(src: &str) -> Vec<T<'_>> {
    let (toks, _) = tokens(src.as_bytes()).expect("anchor matcher");
    toks.iter().map(|t| tk(src, t)).collect()
}

fn p<'a>(span: &'a str, path: &[&'a str]) -> E<'a> {
    E::Path { span, path: path.to_vec() }
}

fn single(s: &str) -> E<'_> {
    p(s, &[s])
}

#[test]
fn test_string_literal() {
    let src = "\"help\" ";
    assert_eq!(
        string_literal(src.as_bytes(), 0),
        Some((6, Expression::StringLiteral(Span { start: 0, end: 6 })))
    );
    let src = "\"he said \\\"no!\\\"\" ";
    assert_eq!(
        string_literal(src.as_bytes(), 0),
        Some((17, Expression::StringLiteral(Span { start: 0, end: 17 })))
    );
    let src = "\"\\\\ \\ \"";
    assert_eq!(
        string_literal(src.as_bytes(), 0),
        Some((7, Expression::StringLiteral(Span { start: 0, end: 7 })))
    );
}

#[test]
fn test_path() {
    assert_eq!(parse_with(path, "a.b.c, what"), Some((", what", p("a.b.c", &["a", "b", "c"]))));
    assert_eq!(parse_with(path, "@value.c"), Some((".c", p("@value", &["@value"]))));
    assert_eq!(
        parse_with(path, "./../abc.def"),
        Some(("", p("./../abc.def", &["./", "../", "abc", "def"])))
    );
}

#[test]
fn test_negative() {
    assert_eq!(
        parse_with(negative, "!a "),
        Some((" ", E::Neg { span: "!a", expr: Box::new(single("a")) }))
    );
}

#[test]
fn test_helper() {
    assert_eq!(
        parse_with(helper, "foo(bar, a.b , k) "),
        Some((
            " ",
            E::Helper {
                span: "foo(bar, a.b , k)",
                name: "foo",
                args: vec![single("bar"), p("a.b", &["a", "b"]), single("k")],
            }
        ))
    );
}

#[test]
fn test_legacy_helper() {
    assert_eq!(
        parse_with(legacy_helper, "function.foo, bar, a.b, k hf s sgfd"),
        Some((
            " hf s sgfd",
            E::Legacy {
                span: "function.foo, bar, a.b, k",
                name: "foo",
                args: vec![single("bar"), p("a.b", &["a", "b"]), single("k")],
            }
        ))
    );
    assert_eq!(
        parse_with(legacy_helper, "function.foo"),
        Some(("", E::Legacy { span: "function.foo", name: "foo", args: vec![p("", &["@value"])] }))
    );
}

#[test]
fn test_expression() {
    assert_eq!(
        parse_with(expression, "foo(bar, a.b, function.bar, \"boom\")"),
        Some((
            "",
            E::Helper {
                span: "foo(bar, a.b, function.bar, \"boom\")",
                name: "foo",
                args: vec![
                    single("bar"),
                    p("a.b", &["a", "b"]),
                    E::Legacy {
                        span: "function.bar, \"boom\"",
                        name: "bar",
                        args: vec![E::Str("\"boom\"")],
                    },
                ],
            }
        ))
    );
    assert_eq!(
        parse_with(expression, "!foo(bar, a.b)"),
        Some((
            "",
            E::Neg {
                span: "!foo(bar, a.b)",
                expr: Box::new(E::Helper {
                    span: "foo(bar, a.b)",
                    name: "foo",
                    args: vec![single("bar"), p("a.b", &["a", "b"])],
                }),
            }
        ))
    );
}

#[test]
fn test_interp_escaped() {
    assert_eq!(
        token_with(interp_escaped, "{prop}"),
        Some(("", T::InterpEscaped { span: "{prop}", expr: single("prop") }))
    );
    assert_eq!(
        token_with(interp_escaped, "{ call() } stuff"),
        Some((
            " stuff",
            T::InterpEscaped {
                span: "{ call() }",
                expr: E::Helper { span: "call()", name: "call", args: vec![] },
            }
        ))
    );
}

#[test]
fn test_interp_raw() {
    assert_eq!(
        token_with(interp_raw, "{{prop}}"),
        Some(("", T::InterpRaw { span: "{{prop}}", expr: single("prop") }))
    );
    assert_eq!(
        token_with(interp_raw, "{{ call() }} stuff"),
        Some((
            " stuff",
            T::InterpRaw {
                span: "{{ call() }}",
                expr: E::Helper { span: "call()", name: "call", args: vec![] },
            }
        ))
    );
}

#[test]
fn test_new_if() {
    assert_eq!(
        token_with(new_if, "{{{if abc}}}"),
        Some(("", T::If { span: "{{{if abc}}}", subject: single("abc") }))
    );
    assert_eq!(
        token_with(new_if, "{{{ if call() }}}"),
        Some((
            "",
            T::If {
                span: "{{{ if call() }}}",
                subject: E::Helper { span: "call()", name: "call", args: vec![] },
            }
        ))
    );
}

#[test]
fn test_new_each() {
    assert_eq!(
        token_with(new_each, "{{{each abc.def}}}"),
        Some(("", T::Each { span: "{{{each abc.def}}}", subject: p("abc.def", &["abc", "def"]) }))
    );
    assert_eq!(
        token_with(new_each, "{{{ each call() }}}"),
        Some((
            "",
            T::Each {
                span: "{{{ each call() }}}",
                subject: E::Helper { span: "call()", name: "call", args: vec![] },
            }
        ))
    );
}

#[test]
fn test_new_else() {
    assert_eq!(token_with(new_else, "{{{else}}}"), Some(("", T::Else { span: "{{{else}}}" })));
    assert_eq!(token_with(new_else, "{{{ else }}}"), Some(("", T::Else { span: "{{{ else }}}" })));
}

#[test]
fn test_new_end() {
    assert_eq!(token_with(new_end, "{{{end}}}"), Some(("", T::End { span: "{{{end}}}" })));
    assert_eq!(token_with(new_end, "{{{ end }}}"), Some(("", T::End { span: "{{{ end }}}" })));
}

#[test]
fn test_legacy_if() {
    assert_eq!(
        token_with(legacy_if, "<!--IF abc-->"),
        Some(("", T::LegacyIf { span: "<!--IF abc-->", subject: single("abc") }))
    );
    assert_eq!(
        token_with(legacy_if, "<!-- IF call() -->"),
        Some((
            "",
            T::LegacyIf {
                span: "<!-- IF call() -->",
                subject: E::Helper { span: "call()", name: "call", args: vec![] },
            }
        ))
    );
    assert_eq!(
        token_with(legacy_if, "<!--IF function.bar, a, b -->"),
        Some((
            "",
            T::LegacyIf {
                span: "<!--IF function.bar, a, b -->",
                subject: E::Legacy {
                    span: "function.bar, a, b",
                    name: "bar",
                    args: vec![p("", &["@root"]), single("a"), single("b")],
                },
            }
        ))
    );
}

#[test]
fn test_legacy_begin() {
    assert_eq!(
        token_with(legacy_begin, "<!--BEGIN abc.def-->"),
        Some((
            "",
            T::LegacyBegin { span: "<!--BEGIN abc.def-->", subject: p("abc.def", &["abc", "def"]) }
        ))
    );
    assert_eq!(
        token_with(legacy_begin, "<!-- BEGIN call() -->"),
        Some((
            "",
            T::LegacyBegin {
                span: "<!-- BEGIN call() -->",
                subject: E::Helper { span: "call()", name: "call", args: vec![] },
            }
        ))
    );
}

#[test]
fn test_legacy_else() {
    assert_eq!(
        token_with(legacy_else, "<!--ELSE-->"),
        Some(("", T::LegacyElse { span: "<!--ELSE-->" }))
    );
    assert_eq!(
        token_with(legacy_else, "<!-- ELSE -->"),
        Some(("", T::LegacyElse { span: "<!-- ELSE -->" }))
    );
}

#[test]
fn test_legacy_end() {
    assert_eq!(
        token_with(legacy_end, "<!--END-->"),
        Some(("", T::LegacyEnd { span: "<!--END-->", subject_raw: "" }))
    );
    assert_eq!(
        token_with(legacy_end, "<!--END abc.def-->"),
        Some(("", T::LegacyEnd { span: "<!--END abc.def-->", subject_raw: "abc.def" }))
    );
    assert_eq!(
        token_with(legacy_end, "<!-- END -->"),
        Some(("", T::LegacyEnd { span: "<!-- END -->", subject_raw: "" }))
    );
    assert_eq!(
        token_with(legacy_end, "<!-- ENDIF call() -->"),
        Some(("", T::LegacyEnd { span: "<!-- ENDIF call() -->", subject_raw: "call()" }))
    );
}

#[test]
fn test_tokens() {
    assert_eq!(
        tokenize(
            "before {{{ if abc }}} we do one thing {{{ else }}} we do another {{{ end }}} other stuff"
        ),
        vec![
            T::Text("before "),
            T::If { span: "{{{ if abc }}}", subject: single("abc") },
            T::Text(" we do one thing "),
            T::Else { span: "{{{ else }}}" },
            T::Text(" we do another "),
            T::End { span: "{{{ end }}}" },
            T::Text(" other stuff"),
        ]
    );
    assert_eq!(
        tokenize("{{{ if abc }}} we do one thing {{{ else }}} we do another {{{ end }}} other stuff"),
        vec![
            T::If { span: "{{{ if abc }}}", subject: single("abc") },
            T::Text(" we do one thing "),
            T::Else { span: "{{{ else }}}" },
            T::Text(" we do another "),
            T::End { span: "{{{ end }}}" },
            T::Text(" other stuff"),
        ]
    );
    assert_eq!(
        tokenize("before {{{ each abc }}} for each thing {{{ end }}}"),
        vec![
            T::Text("before "),
            T::Each { span: "{{{ each abc }}}", subject: single("abc") },
            T::Text(" for each thing "),
            T::End { span: "{{{ end }}}" },
        ]
    );
    assert_eq!(
        tokenize("{{{ each abc }}} for each thing {{{ end }}}"),
        vec![
            T::Each { span: "{{{ each abc }}}", subject: single("abc") },
            T::Text(" for each thing "),
            T::End { span: "{{{ end }}}" },
        ]
    );
    assert_eq!(
        tokenize("{{{ each /abc }}} for each thing {{{ end }}}"),
        vec![T::Text("{{{ each /abc }}} for each thing "), T::End { span: "{{{ end }}}" }]
    );
    assert_eq!(
        tokenize("before \\{{{ each abc }}} for each thing \\{{{ end }}}"),
        vec![
            T::Text("before "),
            T::Text("{{{ each abc }}} for each thing "),
            T::Text("{{{ end }}}"),
        ]
    );
}
