//! Tokens: literal text runs and directives, each directive recognized by
//! its own function at a candidate opener.
use vstd::prelude::*;
use crate::span::{has_at, matches_at, skip_ws, ws, Span};
use crate::expression::{
    spec_ws_expression, ws_expression, Expr, Expression, PathPart,
};

verus! {

#[derive(Debug, PartialEq, Eq)]
pub enum Token {
    /// Template text passed through.
    Text(Span),
    /// `{obj.prop}`
    InterpEscaped { span: Span, expr: Expression },
    /// `{{obj.prop}}`
    InterpRaw { span: Span, expr: Expression },
    /// `{{{ if condition }}}`
    If { span: Span, subject: Expression },
    /// `{{{ each arr }}}`
    Each { span: Span, subject: Expression },
    /// `{{{ else }}}`
    Else { span: Span },
    /// `{{{ end }}}`
    End { span: Span },
    /// `<!-- IF condition -->`
    LegacyIf { span: Span, subject: Expression },
    /// `<!-- BEGIN arr -->`
    LegacyBegin { span: Span, subject: Expression },
    /// `<!-- ELSE -->`
    LegacyElse { span: Span },
    /// `<!-- END -->`, `<!-- ENDIF -->`, `<!-- END subject -->` or
    /// `<!-- ENDIF subject -->`; the subject is kept unparsed.
    LegacyEnd { span: Span, subject_raw: Span },
}

/// The mathematical value of a [`Token`].
pub enum Tok {
    Text(Span),
    InterpEscaped { span: Span, expr: Expr },
    InterpRaw { span: Span, expr: Expr },
    If { span: Span, subject: Expr },
    Each { span: Span, subject: Expr },
    Else { span: Span },
    End { span: Span },
    LegacyIf { span: Span, subject: Expr },
    LegacyBegin { span: Span, subject: Expr },
    LegacyElse { span: Span },
    LegacyEnd { span: Span, subject_raw: Span },
}

impl Token {
    pub open spec fn view(&self) -> Tok {
        match self {
            Token::Text(span) => Tok::Text(*span),
            Token::InterpEscaped { span, expr } => Tok::InterpEscaped { span: *span, expr: expr@ },
            Token::InterpRaw { span, expr } => Tok::InterpRaw { span: *span, expr: expr@ },
            Token::If { span, subject } => Tok::If { span: *span, subject: subject@ },
            Token::Each { span, subject } => Tok::Each { span: *span, subject: subject@ },
            Token::Else { span } => Tok::Else { span: *span },
            Token::End { span } => Tok::End { span: *span },
            Token::LegacyIf { span, subject } => Tok::LegacyIf { span: *span, subject: subject@ },
            Token::LegacyBegin { span, subject } => Tok::LegacyBegin {
                span: *span,
                subject: subject@,
            },
            Token::LegacyElse { span } => Tok::LegacyElse { span: *span },
            Token::LegacyEnd { span, subject_raw } => Tok::LegacyEnd {
                span: *span,
                subject_raw: *subject_raw,
            },
        }
    }

    /// The source range of the whole token, delimiters included.
    pub fn span(&self) -> (r: Span)
        ensures
            r == self@.span(),
    {
        match self {
            Token::Text(span) => *span,
            Token::InterpEscaped { span, .. } => *span,
            Token::InterpRaw { span, .. } => *span,
            Token::If { span, .. } => *span,
            Token::Each { span, .. } => *span,
            Token::Else { span } => *span,
            Token::End { span } => *span,
            Token::LegacyIf { span, .. } => *span,
            Token::LegacyBegin { span, .. } => *span,
            Token::LegacyElse { span } => *span,
            Token::LegacyEnd { span, .. } => *span,
        }
    }
}

impl Tok {
    /// The source range of the whole token, delimiters included.
    pub open spec fn span(self) -> Span {
        match self {
            Tok::Text(span) => span,
            Tok::InterpEscaped { span, .. } => span,
            Tok::InterpRaw { span, .. } => span,
            Tok::If { span, .. } => span,
            Tok::Each { span, .. } => span,
            Tok::Else { span } => span,
            Tok::End { span } => span,
            Tok::LegacyIf { span, .. } => span,
            Tok::LegacyBegin { span, .. } => span,
            Tok::LegacyElse { span } => span,
            Tok::LegacyEnd { span, .. } => span,
        }
    }
}

/// `{`
pub open spec fn lit_open1() -> Seq<u8> {
    seq![123u8]
}

/// `{{`
pub open spec fn lit_open2() -> Seq<u8> {
    seq![123u8, 123]
}

/// `{{{`
pub open spec fn lit_open3() -> Seq<u8> {
    seq![123u8, 123, 123]
}

/// `}`
pub open spec fn lit_close1() -> Seq<u8> {
    seq![125u8]
}

/// `}}`
pub open spec fn lit_close2() -> Seq<u8> {
    seq![125u8, 125]
}

/// `}}}`
pub open spec fn lit_close3() -> Seq<u8> {
    seq![125u8, 125, 125]
}

/// `<!--`
pub open spec fn lit_comment_open() -> Seq<u8> {
    seq![60u8, 33, 45, 45]
}

/// `-->`
pub open spec fn lit_comment_close() -> Seq<u8> {
    seq![45u8, 45, 62]
}

/// `each`
pub open spec fn lit_each() -> Seq<u8> {
    seq![101u8, 97, 99, 104]
}

/// `if`
pub open spec fn lit_if() -> Seq<u8> {
    seq![105u8, 102]
}

/// `else`
pub open spec fn lit_else() -> Seq<u8> {
    seq![101u8, 108, 115, 101]
}

/// `end`
pub open spec fn lit_end() -> Seq<u8> {
    seq![101u8, 110, 100]
}

/// `BEGIN`
pub open spec fn lit_begin_upper() -> Seq<u8> {
    seq![66u8, 69, 71, 73, 78]
}

/// `IF`
pub open spec fn lit_if_upper() -> Seq<u8> {
    seq![73u8, 70]
}

/// `ELSE`
pub open spec fn lit_else_upper() -> Seq<u8> {
    seq![69u8, 76, 83, 69]
}

/// `ENDIF`
pub open spec fn lit_endif_upper() -> Seq<u8> {
    seq![69u8, 78, 68, 73, 70]
}

/// `END`
pub open spec fn lit_end_upper() -> Seq<u8> {
    seq![69u8, 78, 68]
}

/// `open`, an expression with whitespace around it, `close`.
pub open spec fn spec_delimited(s: Seq<u8>, p: int, open: Seq<u8>, close: Seq<u8>) -> Option<
    (int, Expr),
> {
    if has_at(s, p, open) {
        match spec_ws_expression(s, p + open.len()) {
            Some((e, x)) => if has_at(s, e, close) {
                Some((e + close.len(), x))
            } else {
                None
            },
            None => None,
        }
    } else {
        None
    }
}

/// `open`, whitespace, `kw`, then an expression with whitespace around it,
/// then `close`.
pub open spec fn spec_keyword_subject(
    s: Seq<u8>,
    p: int,
    open: Seq<u8>,
    kw: Seq<u8>,
    close: Seq<u8>,
) -> Option<(int, Expr)> {
    if has_at(s, p, open) && has_at(s, skip_ws(s, p + open.len()), kw) {
        spec_delimited(s, skip_ws(s, p + open.len()), kw, close)
    } else {
        None
    }
}

/// `open`, `kw` with whitespace around it, `close`: the end, if it matches.
pub open spec fn spec_bare(s: Seq<u8>, p: int, open: Seq<u8>, kw: Seq<u8>, close: Seq<u8>) -> Option<
    int,
> {
    let a = skip_ws(s, p + open.len());
    let b = skip_ws(s, a + kw.len());
    if has_at(s, p, open) && has_at(s, a, kw) && has_at(s, b, close) {
        Some(b + close.len())
    } else {
        None
    }
}

pub open spec fn spec_interp_escaped(s: Seq<u8>, p: int) -> Option<(int, Tok)> {
    match spec_delimited(s, p, lit_open1(), lit_close1()) {
        Some((e, x)) => Some((e, Tok::InterpEscaped { span: Span::sp(p, e), expr: x })),
        None => None,
    }
}

pub open spec fn spec_interp_raw(s: Seq<u8>, p: int) -> Option<(int, Tok)> {
    match spec_delimited(s, p, lit_open2(), lit_close2()) {
        Some((e, x)) => Some((e, Tok::InterpRaw { span: Span::sp(p, e), expr: x })),
        None => None,
    }
}

pub open spec fn spec_new_each(s: Seq<u8>, p: int) -> Option<(int, Tok)> {
    match spec_keyword_subject(s, p, lit_open3(), lit_each(), lit_close3()) {
        Some((e, x)) => Some((e, Tok::Each { span: Span::sp(p, e), subject: x })),
        None => None,
    }
}

pub open spec fn spec_new_if(s: Seq<u8>, p: int) -> Option<(int, Tok)> {
    match spec_keyword_subject(s, p, lit_open3(), lit_if(), lit_close3()) {
        Some((e, x)) => Some((e, Tok::If { span: Span::sp(p, e), subject: x })),
        None => None,
    }
}

pub open spec fn spec_new_else(s: Seq<u8>, p: int) -> Option<(int, Tok)> {
    match spec_bare(s, p, lit_open3(), lit_else(), lit_close3()) {
        Some(e) => Some((e, Tok::Else { span: Span::sp(p, e) })),
        None => None,
    }
}

pub open spec fn spec_new_end(s: Seq<u8>, p: int) -> Option<(int, Tok)> {
    match spec_bare(s, p, lit_open3(), lit_end(), lit_close3()) {
        Some(e) => Some((e, Tok::End { span: Span::sp(p, e) })),
        None => None,
    }
}

pub open spec fn spec_legacy_begin(s: Seq<u8>, p: int) -> Option<(int, Tok)> {
    match spec_keyword_subject(s, p, lit_comment_open(), lit_begin_upper(), lit_comment_close()) {
        Some((e, x)) => Some((e, Tok::LegacyBegin { span: Span::sp(p, e), subject: x })),
        None => None,
    }
}

/// A legacy helper as the subject of a legacy `IF` receives `@root` as its
/// first argument, with a zero-width span just before the first written
/// argument, or at the helper's end where there is none.
pub open spec fn with_implicit_root(x: Expr) -> Expr {
    match x {
        Expr::LegacyHelper { span, name, args } => {
            let at = if args.len() > 0 {
                Span::sp(args[0].span().start as int, args[0].span().start as int)
            } else {
                Span::sp(span.end as int, span.end as int)
            };
            Expr::LegacyHelper {
                span,
                name,
                args: seq![Expr::Path { span: at, path: seq![PathPart::ImplicitRoot] }] + args,
            }
        },
        _ => x,
    }
}

pub open spec fn spec_legacy_if(s: Seq<u8>, p: int) -> Option<(int, Tok)> {
    match spec_keyword_subject(s, p, lit_comment_open(), lit_if_upper(), lit_comment_close()) {
        Some((e, x)) => Some(
            (e, Tok::LegacyIf { span: Span::sp(p, e), subject: with_implicit_root(x) }),
        ),
        None => None,
    }
}

pub open spec fn spec_legacy_else(s: Seq<u8>, p: int) -> Option<(int, Tok)> {
    match spec_bare(s, p, lit_comment_open(), lit_else_upper(), lit_comment_close()) {
        Some(e) => Some((e, Tok::LegacyElse { span: Span::sp(p, e) })),
        None => None,
    }
}

/// The first position at or after `b` where `lit` occurs.
pub open spec fn first_occurrence(s: Seq<u8>, b: int, lit: Seq<u8>) -> Option<int>
    decreases s.len() - b,
{
    if b < 0 || b >= s.len() || b + lit.len() > s.len() {
        None
    } else if has_at(s, b, lit) {
        Some(b)
    } else {
        first_occurrence(s, b + 1, lit)
    }
}

/// A whitespace character of one byte: tab, line feed, vertical tab, form
/// feed, carriage return, space.
pub open spec fn is_ws_char1(a: u8) -> bool {
    (9 <= a <= 13) || a == 32
}

/// A whitespace character of two bytes in UTF-8: U+0085, U+00A0.
pub open spec fn is_ws_char2(a: u8, b: u8) -> bool {
    a == 0xC2 && (b == 0x85 || b == 0xA0)
}

/// A whitespace character of three bytes in UTF-8: U+1680, U+2000 to
/// U+200A, U+2028, U+2029, U+202F, U+205F, U+3000.
pub open spec fn is_ws_char3(a: u8, b: u8, c: u8) -> bool {
    (a == 0xE1 && b == 0x9A && c == 0x80) || (a == 0xE2 && b == 0x80 && ((0x80 <= c <= 0x8A)
        || c == 0xA8 || c == 0xA9 || c == 0xAF)) || (a == 0xE2 && b == 0x81 && c == 0x9F) || (a
        == 0xE3 && b == 0x80 && c == 0x80)
}

/// The length in bytes of the whitespace character (in the sense of Unicode's
/// White_Space property) that ends at `t` and starts at or after `b`; 0 if
/// there is none.
pub open spec fn ws_char_before(s: Seq<u8>, b: int, t: int) -> int {
    if b <= t - 1 && is_ws_char1(s[t - 1]) {
        1
    } else if b <= t - 2 && is_ws_char2(s[t - 2], s[t - 1]) {
        2
    } else if b <= t - 3 && is_ws_char3(s[t - 3], s[t - 2], s[t - 1]) {
        3
    } else {
        0
    }
}

/// The end of `b..t` once trailing whitespace characters are removed.
pub open spec fn trimmed_end(s: Seq<u8>, b: int, t: int) -> int
    decreases t - b,
{
    if ws_char_before(s, b, t) > 0 {
        trimmed_end(s, b, t - ws_char_before(s, b, t))
    } else {
        t
    }
}

pub open spec fn spec_legacy_end(s: Seq<u8>, p: int) -> Option<(int, Tok)> {
    let a = skip_ws(s, p + 4);
    let k = if has_at(s, a, lit_endif_upper()) {
        5int
    } else if has_at(s, a, lit_end_upper()) {
        3int
    } else {
        0int
    };
    let b = skip_ws(s, a + k);
    if has_at(s, p, lit_comment_open()) && k > 0 {
        match first_occurrence(s, b, lit_comment_close()) {
            Some(t) => Some(
                (
                    t + 3,
                    Tok::LegacyEnd {
                        span: Span::sp(p, t + 3),
                        subject_raw: Span::sp(b, trimmed_end(s, b, t)),
                    },
                ),
            ),
            None => None,
        }
    } else {
        None
    }
}

/// The token at `p`: the first recognizer, in a fixed order, that matches.
#[verifier::opaque]
pub open spec fn spec_token(s: Seq<u8>, p: int) -> Option<(int, Tok)> {
    if spec_interp_escaped(s, p) is Some {
        spec_interp_escaped(s, p)
    } else if spec_interp_raw(s, p) is Some {
        spec_interp_raw(s, p)
    } else if spec_new_each(s, p) is Some {
        spec_new_each(s, p)
    } else if spec_new_if(s, p) is Some {
        spec_new_if(s, p)
    } else if spec_new_else(s, p) is Some {
        spec_new_else(s, p)
    } else if spec_new_end(s, p) is Some {
        spec_new_end(s, p)
    } else if spec_legacy_begin(s, p) is Some {
        spec_legacy_begin(s, p)
    } else if spec_legacy_if(s, p) is Some {
        spec_legacy_if(s, p)
    } else if spec_legacy_else(s, p) is Some {
        spec_legacy_else(s, p)
    } else {
        spec_legacy_end(s, p)
    }
}

} // verus!

verus! {

/// `r` is what `spec` describes, and ends after `p` and within `len`.
pub open spec fn token_as(r: Option<(usize, Token)>, spec: Option<(int, Tok)>, p: int, len: int) -> bool {
    match r {
        None => spec is None,
        Some((e, t)) => spec == Some((e as int, t@)) && p < e <= len,
    }
}

fn delimited(src: &[u8], p: usize, open: &[u8], close: &[u8]) -> (r: Option<(usize, Expression)>)
    requires
        p <= src@.len(),
        open@.len() > 0,
    ensures
        match r {
            None => spec_delimited(src@, p as int, open@, close@) is None,
            Some((e, x)) => spec_delimited(src@, p as int, open@, close@) == Some((e as int, x@))
                && p < e <= src@.len(),
        },
{
    let len = src.len();
    if !matches_at(src, p, open) {
        return None;
    }
    match ws_expression(src, p + open.len()) {
        None => None,
        Some((e, x)) => if matches_at(src, e, close) {
            Some((e + close.len(), x))
        } else {
            None
        },
    }
}

fn keyword_subject(src: &[u8], p: usize, open: &[u8], kw: &[u8], close: &[u8]) -> (r: Option<
    (usize, Expression),
>)
    requires
        p <= src@.len(),
        open@.len() > 0,
        kw@.len() > 0,
    ensures
        match r {
            None => spec_keyword_subject(src@, p as int, open@, kw@, close@) is None,
            Some((e, x)) => spec_keyword_subject(src@, p as int, open@, kw@, close@) == Some(
                (e as int, x@),
            ) && p < e <= src@.len(),
        },
{
    let len = src.len();
    if !matches_at(src, p, open) {
        return None;
    }
    let a = ws(src, p + open.len());
    if !matches_at(src, a, kw) {
        return None;
    }
    delimited(src, a, kw, close)
}

fn bare(src: &[u8], p: usize, open: &[u8], kw: &[u8], close: &[u8]) -> (r: Option<usize>)
    requires
        p <= src@.len(),
        open@.len() > 0,
    ensures
        match r {
            None => spec_bare(src@, p as int, open@, kw@, close@) is None,
            Some(e) => spec_bare(src@, p as int, open@, kw@, close@) == Some(e as int) && p < e
                <= src@.len(),
        },
{
    let len = src.len();
    if !matches_at(src, p, open) {
        return None;
    }
    let a = ws(src, p + open.len());
    if !matches_at(src, a, kw) {
        return None;
    }
    let b = ws(src, a + kw.len());
    if !matches_at(src, b, close) {
        return None;
    }
    Some(b + close.len())
}

/// `{ expr }`
pub fn interp_escaped(src: &[u8], p: usize) -> (r: Option<(usize, Token)>)
    requires
        p <= src@.len(),
    ensures
        token_as(r, spec_interp_escaped(src@, p as int), p as int, src@.len() as int),
{
    let open: [u8; 1] = [123];
    let close: [u8; 1] = [125];
    assert(open@ == lit_open1() && close@ == lit_close1());
    match delimited(src, p, &open, &close) {
        Some((e, expr)) => Some((e, Token::InterpEscaped { span: Span { start: p, end: e }, expr })),
        None => None,
    }
}

/// `{{ expr }}`
pub fn interp_raw(src: &[u8], p: usize) -> (r: Option<(usize, Token)>)
    requires
        p <= src@.len(),
    ensures
        token_as(r, spec_interp_raw(src@, p as int), p as int, src@.len() as int),
{
    let open: [u8; 2] = [123, 123];
    let close: [u8; 2] = [125, 125];
    assert(open@ == lit_open2() && close@ == lit_close2());
    match delimited(src, p, &open, &close) {
        Some((e, expr)) => Some((e, Token::InterpRaw { span: Span { start: p, end: e }, expr })),
        None => None,
    }
}

/// `{{{ each expr }}}`
pub fn new_each(src: &[u8], p: usize) -> (r: Option<(usize, Token)>)
    requires
        p <= src@.len(),
    ensures
        token_as(r, spec_new_each(src@, p as int), p as int, src@.len() as int),
{
    let open: [u8; 3] = [123, 123, 123];
    let kw: [u8; 4] = [101, 97, 99, 104];
    let close: [u8; 3] = [125, 125, 125];
    assert(open@ == lit_open3() && kw@ == lit_each() && close@ == lit_close3());
    match keyword_subject(src, p, &open, &kw, &close) {
        Some((e, subject)) => Some((e, Token::Each { span: Span { start: p, end: e }, subject })),
        None => None,
    }
}

/// `{{{ if expr }}}`
pub fn new_if(src: &[u8], p: usize) -> (r: Option<(usize, Token)>)
    requires
        p <= src@.len(),
    ensures
        token_as(r, spec_new_if(src@, p as int), p as int, src@.len() as int),
{
    let open: [u8; 3] = [123, 123, 123];
    let kw: [u8; 2] = [105, 102];
    let close: [u8; 3] = [125, 125, 125];
    assert(open@ == lit_open3() && kw@ == lit_if() && close@ == lit_close3());
    match keyword_subject(src, p, &open, &kw, &close) {
        Some((e, subject)) => Some((e, Token::If { span: Span { start: p, end: e }, subject })),
        None => None,
    }
}

/// `{{{ else }}}`
pub fn new_else(src: &[u8], p: usize) -> (r: Option<(usize, Token)>)
    requires
        p <= src@.len(),
    ensures
        token_as(r, spec_new_else(src@, p as int), p as int, src@.len() as int),
{
    let open: [u8; 3] = [123, 123, 123];
    let kw: [u8; 4] = [101, 108, 115, 101];
    let close: [u8; 3] = [125, 125, 125];
    assert(open@ == lit_open3() && kw@ == lit_else() && close@ == lit_close3());
    match bare(src, p, &open, &kw, &close) {
        Some(e) => Some((e, Token::Else { span: Span { start: p, end: e } })),
        None => None,
    }
}

/// `{{{ end }}}`
pub fn new_end(src: &[u8], p: usize) -> (r: Option<(usize, Token)>)
    requires
        p <= src@.len(),
    ensures
        token_as(r, spec_new_end(src@, p as int), p as int, src@.len() as int),
{
    let open: [u8; 3] = [123, 123, 123];
    let kw: [u8; 3] = [101, 110, 100];
    let close: [u8; 3] = [125, 125, 125];
    assert(open@ == lit_open3() && kw@ == lit_end() && close@ == lit_close3());
    match bare(src, p, &open, &kw, &close) {
        Some(e) => Some((e, Token::End { span: Span { start: p, end: e } })),
        None => None,
    }
}

/// `<!-- BEGIN expr -->`
pub fn legacy_begin(src: &[u8], p: usize) -> (r: Option<(usize, Token)>)
    requires
        p <= src@.len(),
    ensures
        token_as(r, spec_legacy_begin(src@, p as int), p as int, src@.len() as int),
{
    let open: [u8; 4] = [60, 33, 45, 45];
    let kw: [u8; 5] = [66, 69, 71, 73, 78];
    let close: [u8; 3] = [45, 45, 62];
    assert(open@ == lit_comment_open() && kw@ == lit_begin_upper() && close@
        == lit_comment_close());
    match keyword_subject(src, p, &open, &kw, &close) {
        Some((e, subject)) => Some(
            (e, Token::LegacyBegin { span: Span { start: p, end: e }, subject }),
        ),
        None => None,
    }
}

/// Gives a legacy helper its implicit `@root` first argument.
fn add_implicit_root(x: Expression) -> (r: Expression)
    ensures
        r@ == with_implicit_root(x@),
{
    match x {
        Expression::LegacyHelper { span, name, args } => {
            let mut args = args;
            let at = if args.len() > 0 {
                let first = args[0].span();
                Span { start: first.start, end: first.start }
            } else {
                Span { start: span.end, end: span.end }
            };
            let mut path: Vec<PathPart> = Vec::new();
            path.push(PathPart::ImplicitRoot);
            let root = Expression::Path { span: at, path };
            let ghost old_args = args@;
            proof {
                assert(path@ =~= seq![PathPart::ImplicitRoot]);
                crate::expression::lemma_helper_view(span, name, args);
            }
            args.insert(0, root);
            proof {
                assert(crate::expression::args_view(args@) =~= seq![root@]
                    + crate::expression::args_view(old_args));
                crate::expression::lemma_helper_view(span, name, args);
            }
            Expression::LegacyHelper { span, name, args }
        },
        other => other,
    }
}

/// `<!-- IF expr -->`; a legacy helper subject receives `@root` first.
pub fn legacy_if(src: &[u8], p: usize) -> (r: Option<(usize, Token)>)
    requires
        p <= src@.len(),
    ensures
        token_as(r, spec_legacy_if(src@, p as int), p as int, src@.len() as int),
{
    let open: [u8; 4] = [60, 33, 45, 45];
    let kw: [u8; 2] = [73, 70];
    let close: [u8; 3] = [45, 45, 62];
    assert(open@ == lit_comment_open() && kw@ == lit_if_upper() && close@ == lit_comment_close());
    match keyword_subject(src, p, &open, &kw, &close) {
        Some((e, subject)) => Some(
            (
                e,
                Token::LegacyIf {
                    span: Span { start: p, end: e },
                    subject: add_implicit_root(subject),
                },
            ),
        ),
        None => None,
    }
}

/// `<!-- ELSE -->`
pub fn legacy_else(src: &[u8], p: usize) -> (r: Option<(usize, Token)>)
    requires
        p <= src@.len(),
    ensures
        token_as(r, spec_legacy_else(src@, p as int), p as int, src@.len() as int),
{
    let open: [u8; 4] = [60, 33, 45, 45];
    let kw: [u8; 4] = [69, 76, 83, 69];
    let close: [u8; 3] = [45, 45, 62];
    assert(open@ == lit_comment_open() && kw@ == lit_else_upper() && close@
        == lit_comment_close());
    match bare(src, p, &open, &kw, &close) {
        Some(e) => Some((e, Token::LegacyElse { span: Span { start: p, end: e } })),
        None => None,
    }
}

/// Length of the whitespace character that ends at `t` within `b..t`, or 0.
fn ws_char_len(src: &[u8], b: usize, t: usize) -> (r: usize)
    requires
        b <= t <= src@.len(),
    ensures
        r == ws_char_before(src@, b as int, t as int),
{
    let n = t - b;
    if n >= 1 {
        let c = src[t - 1];
        if (9 <= c && c <= 13) || c == 32 {
            return 1;
        }
    }
    if n >= 2 {
        let a = src[t - 2];
        let c = src[t - 1];
        if a == 0xC2 && (c == 0x85 || c == 0xA0) {
            return 2;
        }
    }
    if n >= 3 {
        let a = src[t - 3];
        let m = src[t - 2];
        let c = src[t - 1];
        if (a == 0xE1 && m == 0x9A && c == 0x80) || (a == 0xE2 && m == 0x80 && ((0x80 <= c && c
            <= 0x8A) || c == 0xA8 || c == 0xA9 || c == 0xAF)) || (a == 0xE2 && m == 0x81 && c
            == 0x9F) || (a == 0xE3 && m == 0x80 && c == 0x80) {
            return 3;
        }
    }
    0
}

/// `span` without its trailing whitespace characters.
pub fn trim_end(src: &[u8], span: Span) -> (r: Span)
    requires
        span.start <= span.end <= src@.len(),
    ensures
        r == Span::sp(span.start as int, trimmed_end(src@, span.start as int, span.end as int)),
        span.start <= r.end <= span.end,
{
    let mut t = span.end;
    loop
        invariant
            span.start <= t <= span.end <= src@.len(),
            trimmed_end(src@, span.start as int, t as int) == trimmed_end(
                src@,
                span.start as int,
                span.end as int,
            ),
        ensures
            t == trimmed_end(src@, span.start as int, span.end as int),
        decreases t,
    {
        let k = ws_char_len(src, span.start, t);
        if k == 0 {
            break;
        }
        t = t - k;
    }
    Span { start: span.start, end: t }
}

/// `<!-- END -->`, `<!-- ENDIF -->`, `<!-- END subject -->` or
/// `<!-- ENDIF subject -->`; the subject is kept as text, without trailing
/// whitespace.
pub fn legacy_end(src: &[u8], p: usize) -> (r: Option<(usize, Token)>)
    requires
        p <= src@.len(),
    ensures
        token_as(r, spec_legacy_end(src@, p as int), p as int, src@.len() as int),
{
    let len = src.len();
    let open: [u8; 4] = [60, 33, 45, 45];
    let endif: [u8; 5] = [69, 78, 68, 73, 70];
    let end: [u8; 3] = [69, 78, 68];
    let close: [u8; 3] = [45, 45, 62];
    assert(open@ == lit_comment_open() && endif@ == lit_endif_upper() && end@ == lit_end_upper()
        && close@ == lit_comment_close());
    if !matches_at(src, p, &open) {
        return None;
    }
    let a = ws(src, p + 4);
    let k: usize = if matches_at(src, a, &endif) {
        5
    } else if matches_at(src, a, &end) {
        3
    } else {
        return None;
    };
    let b = ws(src, a + k);
    let mut t = b;
    while t < len && len - t >= 3 && !matches_at(src, t, &close)
        invariant
            b <= t <= len,
            len == src@.len(),
            close@ == lit_comment_close(),
            first_occurrence(src@, t as int, lit_comment_close()) == first_occurrence(
                src@,
                b as int,
                lit_comment_close(),
            ),
        decreases len - t,
    {
        t = t + 1;
    }
    if !(t < len && len - t >= 3) {
        return None;
    }
    let subject_raw = trim_end(src, Span { start: b, end: t });
    Some((t + 3, Token::LegacyEnd { span: Span { start: p, end: t + 3 }, subject_raw }))
}

/// The token at `p`: the first recognizer, in a fixed order, that matches.
pub fn token(src: &[u8], p: usize) -> (r: Option<(usize, Token)>)
    requires
        p <= src@.len(),
    ensures
        token_as(r, spec_token(src@, p as int), p as int, src@.len() as int),
{
    reveal(spec_token);
    match interp_escaped(src, p) {
        Some(r) => return Some(r),
        None => {},
    }
    match interp_raw(src, p) {
        Some(r) => return Some(r),
        None => {},
    }
    match new_each(src, p) {
        Some(r) => return Some(r),
        None => {},
    }
    match new_if(src, p) {
        Some(r) => return Some(r),
        None => {},
    }
    match new_else(src, p) {
        Some(r) => return Some(r),
        None => {},
    }
    match new_end(src, p) {
        Some(r) => return Some(r),
        None => {},
    }
    match legacy_begin(src, p) {
        Some(r) => return Some(r),
        None => {},
    }
    match legacy_if(src, p) {
        Some(r) => return Some(r),
        None => {},
    }
    match legacy_else(src, p) {
        Some(r) => return Some(r),
        None => {},
    }
    legacy_end(src, p)
}

} // verus!
