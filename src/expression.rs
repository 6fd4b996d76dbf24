//! Expressions: string literals, paths, negations, helper calls and legacy
//! helper calls, each carrying the source span it was parsed from.
use vstd::prelude::*;
use crate::span::{
    byte_at, byte_is, has_at, ident_run, ident_run_end, is_ws, lemma_ident_run_end, lemma_skip_ws,
    matches_at, skip_ws, ws, Span,
};

verus! {

/// One segment of a path. `Part` covers source text (`a`, `@value`, `./`,
/// `../`); the implicit parts stand for the `@root` and `@value` arguments
/// that legacy helpers receive without their being written.
#[derive(Clone, Copy, Debug, PartialEq, Eq, Hash, Structural)]
pub enum PathPart {
    Part(Span),
    ImplicitRoot,
    ImplicitValue,
}

#[derive(Debug, PartialEq, Eq)]
pub enum Expression {
    /// `"this \"works\""`, quotes included.
    StringLiteral(Span),
    /// `a.b.c`
    Path { span: Span, path: Vec<PathPart> },
    /// `!expr`
    Negative { span: Span, expr: Box<Expression> },
    /// `name(arg0, arg1, ...)`
    Helper { span: Span, name: Span, args: Vec<Expression> },
    /// `function.name, arg0, arg1, ...`
    LegacyHelper { span: Span, name: Span, args: Vec<Expression> },
}

/// The mathematical value of an [`Expression`].
pub enum Expr {
    StringLiteral(Span),
    Path { span: Span, path: Seq<PathPart> },
    Negative { span: Span, expr: Box<Expr> },
    Helper { span: Span, name: Span, args: Seq<Expr> },
    LegacyHelper { span: Span, name: Span, args: Seq<Expr> },
}

impl Expression {
    pub open spec fn view(&self) -> Expr
        decreases self,
    {
        match self {
            Expression::StringLiteral(s) => Expr::StringLiteral(*s),
            Expression::Path { span, path } => Expr::Path { span: *span, path: path@ },
            Expression::Negative { span, expr } => Expr::Negative {
                span: *span,
                expr: Box::new((**expr).view()),
            },
            Expression::Helper { span, name, args } => Expr::Helper {
                span: *span,
                name: *name,
                args: Seq::new(
                    args@.len(),
                    |i: int|
                        if 0 <= i < args.len() {
                            proof {
                                vstd::std_specs::vec::axiom_vec_index_decreases(*args, i);
                            }
                            args[i].view()
                        } else {
                            Expr::StringLiteral(*span)
                        },
                ),
            },
            Expression::LegacyHelper { span, name, args } => Expr::LegacyHelper {
                span: *span,
                name: *name,
                args: Seq::new(
                    args@.len(),
                    |i: int|
                        if 0 <= i < args.len() {
                            proof {
                                vstd::std_specs::vec::axiom_vec_index_decreases(*args, i);
                            }
                            args[i].view()
                        } else {
                            Expr::StringLiteral(*span)
                        },
                ),
            },
        }
    }
}

} // verus!

verus! {

pub open spec fn args_view(args: Seq<Expression>) -> Seq<Expr> {
    args.map_values(|e: Expression| e@)
}

pub proof fn lemma_helper_view(span: Span, name: Span, args: Vec<Expression>)
    ensures
        (Expression::Helper { span, name, args })@ == (Expr::Helper {
            span,
            name,
            args: args_view(args@),
        }),
        (Expression::LegacyHelper { span, name, args })@ == (Expr::LegacyHelper {
            span,
            name,
            args: args_view(args@),
        }),
{
    let h = Expression::Helper { span, name, args };
    let l = Expression::LegacyHelper { span, name, args };
    match h@ {
        Expr::Helper { args: a, .. } => {
            assert(a =~= args_view(args@));
        },
        _ => {},
    }
    match l@ {
        Expr::LegacyHelper { args: a, .. } => {
            assert(a =~= args_view(args@));
        },
        _ => {},
    }
}

/// `function.`
pub open spec fn lit_function() -> Seq<u8> {
    seq![102u8, 117, 110, 99, 116, 105, 111, 110, 46]
}

/// `@root`
pub open spec fn lit_root() -> Seq<u8> {
    seq![64u8, 114, 111, 111, 116]
}

/// `@key`
pub open spec fn lit_key() -> Seq<u8> {
    seq![64u8, 107, 101, 121]
}

/// `@index`
pub open spec fn lit_index() -> Seq<u8> {
    seq![64u8, 105, 110, 100, 101, 120]
}

/// `@value`
pub open spec fn lit_value() -> Seq<u8> {
    seq![64u8, 118, 97, 108, 117, 101]
}

/// `@first`
pub open spec fn lit_first() -> Seq<u8> {
    seq![64u8, 102, 105, 114, 115, 116]
}

/// `@last`
pub open spec fn lit_last() -> Seq<u8> {
    seq![64u8, 108, 97, 115, 116]
}

/// `./`
pub open spec fn lit_here() -> Seq<u8> {
    seq![46u8, 47]
}

/// `../`
pub open spec fn lit_up() -> Seq<u8> {
    seq![46u8, 46, 47]
}

/// Length of the special keyword at `p`, tried in the order
/// `@root @key @index @value @first @last`.
pub open spec fn keyword_len(s: Seq<u8>, p: int) -> Option<int> {
    if has_at(s, p, lit_root()) {
        Some(5)
    } else if has_at(s, p, lit_key()) {
        Some(4)
    } else if has_at(s, p, lit_index()) {
        Some(6)
    } else if has_at(s, p, lit_value()) {
        Some(6)
    } else if has_at(s, p, lit_first()) {
        Some(6)
    } else if has_at(s, p, lit_last()) {
        Some(5)
    } else {
        None
    }
}

/// The end of the identifier at `p`: the longest run of identifier bytes,
/// less a trailing `--` that is followed by `>` (it opens an HTML comment
/// terminator). `None` where that leaves no byte: an identifier is never
/// empty.
pub open spec fn spec_identifier(s: Seq<u8>, p: int) -> Option<int> {
    let e = ident_run_end(s, p);
    let end = if e - p >= 2 && s[e - 2] == 45 && s[e - 1] == 45 && byte_is(s, e, 62) {
        e - 2
    } else {
        e
    };
    if end > p {
        Some(end)
    } else {
        None
    }
}

pub proof fn lemma_identifier(s: Seq<u8>, p: int)
    requires
        0 <= p <= s.len(),
    ensures
        spec_identifier(s, p) matches Some(e) ==> p < e <= s.len(),
{
    lemma_ident_run_end(s, p);
}

/// The scope markers (`./`, `../`) that follow one another from `p`.
pub open spec fn spec_markers(s: Seq<u8>, p: int) -> (int, Seq<PathPart>)
    decreases s.len() - p,
{
    if has_at(s, p, lit_here()) {
        let (e, ps) = spec_markers(s, p + 2);
        (e, seq![PathPart::Part(Span::sp(p, p + 2))] + ps)
    } else if has_at(s, p, lit_up()) {
        let (e, ps) = spec_markers(s, p + 3);
        (e, seq![PathPart::Part(Span::sp(p, p + 3))] + ps)
    } else {
        (p, seq![])
    }
}

/// The `.ident` segments that follow a path's first identifier.
pub open spec fn spec_segments(s: Seq<u8>, p: int) -> (int, Seq<PathPart>)
    decreases s.len() - p,
{
    if byte_is(s, p, 46) {
        match spec_identifier(s, p + 1) {
            Some(e) => {
                proof {
                    lemma_identifier(s, p + 1);
                }
                let (e2, ps) = spec_segments(s, e);
                (e2, seq![PathPart::Part(Span::sp(p + 1, e))] + ps)
            },
            None => (p, seq![]),
        }
    } else {
        (p, seq![])
    }
}

/// The one-part path that covers `span`.
pub open spec fn path_of(span: Span) -> Expr {
    Expr::Path { span, path: seq![PathPart::Part(span)] }
}

/// A path: one special keyword alone, or scope markers followed by
/// dot-separated identifiers.
pub open spec fn spec_path(s: Seq<u8>, p: int) -> Option<(int, Expr)> {
    match keyword_len(s, p) {
        Some(k) => Some((p + k, path_of(Span::sp(p, p + k)))),
        None => {
            let (m, markers) = spec_markers(s, p);
            match spec_identifier(s, m) {
                None => None,
                Some(e) => {
                    let (e2, segs) = spec_segments(s, e);
                    Some(
                        (
                            e2,
                            Expr::Path {
                                span: Span::sp(p, e2),
                                path: markers + seq![PathPart::Part(Span::sp(m, e))] + segs,
                            },
                        ),
                    )
                },
            }
        },
    }
}

/// The end of a string literal's body: escapes `\x` and runs of bytes other
/// than `\` and `"`.
pub open spec fn string_body_end(s: Seq<u8>, q: int) -> int
    decreases s.len() - q,
{
    if byte_is(s, q, 92) && q + 1 < s.len() {
        string_body_end(s, q + 2)
    } else if 0 <= q < s.len() && s[q] != 92 && s[q] != 34 {
        string_body_end(s, q + 1)
    } else {
        q
    }
}

/// A string literal; its span holds both quotes.
pub open spec fn spec_string_literal(s: Seq<u8>, p: int) -> Option<(int, Expr)> {
    if byte_is(s, p, 34) {
        let q = string_body_end(s, p + 1);
        if byte_is(s, q, 34) {
            Some((q + 1, Expr::StringLiteral(Span::sp(p, q + 1))))
        } else {
            None
        }
    } else {
        None
    }
}

/// An expression at `p`: the first of negation, legacy helper, helper,
/// string literal and path that matches.
pub open spec fn spec_expression(s: Seq<u8>, p: int) -> Option<(int, Expr)>
    decreases s.len() - p, 2int,
{
    match spec_negative(s, p, p) {
        Some(r) => Some(r),
        None => match spec_legacy_helper(s, p) {
            Some(r) => Some(r),
            None => match spec_helper(s, p) {
                Some(r) => Some(r),
                None => match spec_string_literal(s, p) {
                    Some(r) => Some(r),
                    None => spec_path(s, p),
                },
            },
        },
    }
}

/// Whitespace, `!`, whitespace, then an expression; the span runs from
/// `start` to the end of the inner expression.
pub open spec fn spec_negative(s: Seq<u8>, start: int, q: int) -> Option<(int, Expr)>
    decreases s.len() - q, 1int,
{
    if 0 <= q < s.len() && is_ws(s[q]) {
        spec_negative(s, start, q + 1)
    } else if byte_is(s, q, 33) {
        match spec_lead_expression(s, q + 1) {
            Some((e, x)) => Some((e, Expr::Negative { span: Span::sp(start, e), expr: Box::new(x) })),
            None => None,
        }
    } else {
        None
    }
}

/// Whitespace, then an expression.
pub open spec fn spec_lead_expression(s: Seq<u8>, q: int) -> Option<(int, Expr)>
    decreases s.len() - q, 3int,
{
    if 0 <= q < s.len() && is_ws(s[q]) {
        spec_lead_expression(s, q + 1)
    } else {
        spec_expression(s, q)
    }
}

/// An expression with the whitespace around it; the end is past the
/// trailing whitespace.
pub open spec fn spec_ws_expression(s: Seq<u8>, q: int) -> Option<(int, Expr)>
    decreases s.len() - q, 4int,
{
    match spec_lead_expression(s, q) {
        Some((e, x)) => Some((skip_ws(s, e), x)),
        None => None,
    }
}

/// `name(args)`.
pub open spec fn spec_helper(s: Seq<u8>, p: int) -> Option<(int, Expr)>
    decreases s.len() - p, 1int,
{
    match spec_identifier(s, p) {
        None => None,
        Some(n) => {
            proof {
                lemma_identifier(s, p);
            }
            if byte_is(s, n, 40) {
                let (q, args) = spec_call_args(s, n + 1);
                if byte_is(s, q, 41) {
                    Some((q + 1, Expr::Helper { span: Span::sp(p, q + 1), name: Span::sp(p, n), args }))
                } else {
                    None
                }
            } else {
                None
            }
        },
    }
}

/// The comma-separated arguments of a helper call, possibly none. (Every
/// parse ends between its start and the end of `s`; the tests on `e` below
/// only let the definition terminate.)
pub open spec fn spec_call_args(s: Seq<u8>, q: int) -> (int, Seq<Expr>)
    decreases s.len() - q, 6int,
{
    match spec_ws_expression(s, q) {
        None => (q, seq![]),
        Some((e, x)) => if q <= e <= s.len() {
            let (e2, xs) = spec_call_args_rest(s, e);
            (e2, seq![x] + xs)
        } else {
            (q, seq![])
        },
    }
}

/// The `, arg` items after a helper's first argument.
pub open spec fn spec_call_args_rest(s: Seq<u8>, i: int) -> (int, Seq<Expr>)
    decreases s.len() - i, 5int,
{
    if byte_is(s, i, 44) {
        match spec_ws_expression(s, i + 1) {
            Some((e, x)) => if i < e <= s.len() {
                let (e2, xs) = spec_call_args_rest(s, e);
                (e2, seq![x] + xs)
            } else {
                (i, seq![])
            },
            None => (i, seq![]),
        }
    } else {
        (i, seq![])
    }
}

/// The argument that a legacy helper without arguments receives.
pub open spec fn implicit_value_at(n: int) -> Expr {
    Expr::Path { span: Span::sp(n, n), path: seq![PathPart::ImplicitValue] }
}

/// `function.name`, optionally followed by `, arg, arg, ...`.
pub open spec fn spec_legacy_helper(s: Seq<u8>, p: int) -> Option<(int, Expr)>
    decreases s.len() - p, 1int,
{
    if has_at(s, p, lit_function()) {
        match spec_identifier(s, p + 9) {
            None => None,
            Some(n) => {
                proof {
                    lemma_identifier(s, p + 9);
                    lemma_skip_ws(s, n);
                }
                let a = skip_ws(s, n);
                if byte_is(s, a, 44) {
                    proof {
                        lemma_skip_ws(s, a + 1);
                    }
                    let (e, args) = spec_legacy_args(s, skip_ws(s, a + 1));
                    Some((e, Expr::LegacyHelper { span: Span::sp(p, e), name: Span::sp(p + 9, n), args }))
                } else {
                    Some(
                        (
                            n,
                            Expr::LegacyHelper {
                                span: Span::sp(p, n),
                                name: Span::sp(p + 9, n),
                                args: seq![implicit_value_at(n)],
                            },
                        ),
                    )
                }
            },
        }
    } else {
        None
    }
}

/// The arguments of a legacy helper, separated by commas with whitespace
/// around them; possibly none. (As for helper calls, the tests on `e` only
/// let the definition terminate.)
pub open spec fn spec_legacy_args(s: Seq<u8>, b: int) -> (int, Seq<Expr>)
    decreases s.len() - b, 6int,
{
    match spec_expression(s, b) {
        None => (b, seq![]),
        Some((e, x)) => if b <= e <= s.len() {
            let (e2, xs) = spec_legacy_args_rest(s, e);
            (e2, seq![x] + xs)
        } else {
            (b, seq![])
        },
    }
}

/// The `, arg` items after a legacy helper's first argument.
pub open spec fn spec_legacy_args_rest(s: Seq<u8>, i: int) -> (int, Seq<Expr>)
    decreases s.len() - i, 5int,
{
    if 0 <= i <= s.len() {
        proof {
            lemma_skip_ws(s, i);
        }
        let a = skip_ws(s, i);
        if byte_is(s, a, 44) {
            proof {
                lemma_skip_ws(s, a + 1);
            }
            match spec_expression(s, skip_ws(s, a + 1)) {
                Some((e, x)) => if i < e <= s.len() {
                    let (e2, xs) = spec_legacy_args_rest(s, e);
                    (e2, seq![x] + xs)
                } else {
                    (i, seq![])
                },
                None => (i, seq![]),
            }
        } else {
            (i, seq![])
        }
    } else {
        (i, seq![])
    }
}

} // verus!

verus! {

impl Expr {
    /// The source range the expression was parsed from.
    pub open spec fn span(self) -> Span {
        match self {
            Expr::StringLiteral(span) => span,
            Expr::Path { span, .. } => span,
            Expr::Negative { span, .. } => span,
            Expr::Helper { span, .. } => span,
            Expr::LegacyHelper { span, .. } => span,
        }
    }
}

impl Expression {
    /// The source range the expression was parsed from.
    pub fn span(&self) -> (r: Span)
        ensures
            r == self@.span(),
    {
        match self {
            Expression::StringLiteral(span) => *span,
            Expression::Path { span, .. } => *span,
            Expression::Negative { span, .. } => *span,
            Expression::Helper { span, .. } => *span,
            Expression::LegacyHelper { span, .. } => *span,
        }
    }

    /// The path with one part that covers `span`.
    pub fn path_from_span(span: Span) -> (r: Expression)
        ensures
            r@ == path_of(span),
    {
        let mut path: Vec<PathPart> = Vec::new();
        path.push(PathPart::Part(span));
        proof {
            assert(path@ =~= seq![PathPart::Part(span)]);
        }
        Expression::Path { span, path }
    }
}

/// `r` is what `spec` describes, and ends between `p` and `len`.
pub open spec fn parsed_as(
    r: Option<(usize, Expression)>,
    spec: Option<(int, Expr)>,
    p: int,
    len: int,
) -> bool {
    match r {
        None => spec is None,
        Some((e, x)) => spec == Some((e as int, x@)) && p <= e <= len,
    }
}

/// The identifier at `p` (see [`spec_identifier`]).
pub fn identifier(src: &[u8], p: usize) -> (r: Option<Span>)
    requires
        p <= src@.len(),
    ensures
        match r {
            None => spec_identifier(src@, p as int) is None,
            Some(name) => spec_identifier(src@, p as int) == Some(name.end as int) && name.start == p
                && p < name.end <= src@.len(),
        },
{
    let e = ident_run(src, p);
    let end = if e - p >= 2 && src[e - 2] == 45 && src[e - 1] == 45 && byte_at(src, e, 62) {
        e - 2
    } else {
        e
    };
    if end > p {
        Some(Span { start: p, end })
    } else {
        None
    }
}

/// Length of the special keyword at `p` (see [`keyword_len`]).
fn keyword(src: &[u8], p: usize) -> (r: Option<usize>)
    requires
        p <= src@.len(),
    ensures
        match r {
            None => keyword_len(src@, p as int) is None,
            Some(k) => keyword_len(src@, p as int) == Some(k as int) && p + k <= src@.len(),
        },
{
    let root: [u8; 5] = [64, 114, 111, 111, 116];
    let key: [u8; 4] = [64, 107, 101, 121];
    let index: [u8; 6] = [64, 105, 110, 100, 101, 120];
    let value: [u8; 6] = [64, 118, 97, 108, 117, 101];
    let first: [u8; 6] = [64, 102, 105, 114, 115, 116];
    let last: [u8; 5] = [64, 108, 97, 115, 116];
    assert(root@ == lit_root());
    assert(key@ == lit_key());
    assert(index@ == lit_index());
    assert(value@ == lit_value());
    assert(first@ == lit_first());
    assert(last@ == lit_last());
    if matches_at(src, p, &root) {
        Some(5)
    } else if matches_at(src, p, &key) {
        Some(4)
    } else if matches_at(src, p, &index) {
        Some(6)
    } else if matches_at(src, p, &value) {
        Some(6)
    } else if matches_at(src, p, &first) {
        Some(6)
    } else if matches_at(src, p, &last) {
        Some(5)
    } else {
        None
    }
}

/// A path at `p`: a special keyword alone, or scope markers followed by
/// dot-separated identifiers.
pub fn path(src: &[u8], p: usize) -> (r: Option<(usize, Expression)>)
    requires
        p <= src@.len(),
    ensures
        parsed_as(r, spec_path(src@, p as int), p as int, src@.len() as int),
{
    let ghost s = src@;
    let n = src.len();
    match keyword(src, p) {
        Some(k) => {
            return Some((p + k, Expression::path_from_span(Span { start: p, end: p + k })));
        },
        None => {},
    }
    let here: [u8; 2] = [46, 47];
    let up: [u8; 3] = [46, 46, 47];
    assert(here@ == lit_here());
    assert(up@ == lit_up());
    let mut parts: Vec<PathPart> = Vec::new();
    let mut m = p;
    loop
        invariant
            p <= m <= s.len(),
            s == src@,
            n == s.len(),
            here@ == lit_here(),
            up@ == lit_up(),
            spec_markers(s, p as int) == (
                spec_markers(s, m as int).0,
                parts@ + spec_markers(s, m as int).1,
            ),
        ensures
            spec_markers(s, m as int) == (m as int, Seq::<PathPart>::empty()),
        decreases s.len() - m,
    {
        if matches_at(src, m, &here) {
            let part = PathPart::Part(Span { start: m, end: m + 2 });
            assert(parts@.push(part) + spec_markers(s, m + 2).1 =~= parts@ + (seq![part]
                + spec_markers(s, m + 2).1));
            parts.push(part);
            m = m + 2;
        } else if matches_at(src, m, &up) {
            let part = PathPart::Part(Span { start: m, end: m + 3 });
            assert(parts@.push(part) + spec_markers(s, m + 3).1 =~= parts@ + (seq![part]
                + spec_markers(s, m + 3).1));
            parts.push(part);
            m = m + 3;
        } else {
            break;
        }
    }
    assert(parts@ + seq![] =~= parts@);
    let first = match identifier(src, m) {
        None => return None,
        Some(first) => first,
    };
    parts.push(PathPart::Part(first));
    let ghost head = parts@;
    let mut e = first.end;
    loop
        invariant
            first.end <= e <= s.len(),
            p <= m <= first.end,
            s == src@,
            n == s.len(),
            spec_segments(s, first.end as int) == (
                spec_segments(s, e as int).0,
                parts@.subrange(head.len() as int, parts@.len() as int) + spec_segments(
                    s,
                    e as int,
                ).1,
            ),
            head.len() <= parts@.len(),
            parts@.subrange(0, head.len() as int) == head,
        ensures
            spec_segments(s, e as int) == (e as int, Seq::<PathPart>::empty()),
        decreases s.len() - e,
    {
        if byte_at(src, e, 46) {
            match identifier(src, e + 1) {
                Some(seg) => {
                    let part = PathPart::Part(seg);
                    let ghost old_parts = parts@;
                    parts.push(part);
                    assert(parts@.subrange(head.len() as int, parts@.len() as int) =~= old_parts.subrange(
                        head.len() as int,
                        old_parts.len() as int,
                    ).push(part));
                    assert(parts@.subrange(0, head.len() as int) =~= old_parts.subrange(
                        0,
                        head.len() as int,
                    ));
                    assert(old_parts.subrange(head.len() as int, old_parts.len() as int).push(part)
                        + spec_segments(s, seg.end as int).1 =~= old_parts.subrange(
                        head.len() as int,
                        old_parts.len() as int,
                    ) + (seq![part] + spec_segments(s, seg.end as int).1));
                    e = seg.end;
                },
                None => {
                    break;
                },
            }
        } else {
            break;
        }
    }
    proof {
        let segs = parts@.subrange(head.len() as int, parts@.len() as int);
        assert(segs + seq![] =~= segs);
        assert(parts@ =~= head + segs);
        assert(head =~= spec_markers(s, p as int).1 + seq![PathPart::Part(first)]);
    }
    Some((e, Expression::Path { span: Span { start: p, end: e }, path: parts }))
}

/// A string literal at `p`, quotes included; `\` escapes the byte after it.
pub fn string_literal(src: &[u8], p: usize) -> (r: Option<(usize, Expression)>)
    requires
        p <= src@.len(),
    ensures
        parsed_as(r, spec_string_literal(src@, p as int), p as int, src@.len() as int),
{
    if !byte_at(src, p, 34) {
        return None;
    }
    let n = src.len();
    let mut q = p + 1;
    loop
        invariant
            p + 1 <= q <= n,
            n == src@.len(),
            string_body_end(src@, q as int) == string_body_end(src@, p + 1),
        ensures
            q == string_body_end(src@, p + 1),
        decreases n - q,
    {
        if q < n && src[q] == 92 && q + 1 < n {
            q = q + 2;
        } else if q < n && src[q] != 92 && src[q] != 34 {
            q = q + 1;
        } else {
            break;
        }
    }
    if byte_at(src, q, 34) {
        Some((q + 1, Expression::StringLiteral(Span { start: p, end: q + 1 })))
    } else {
        None
    }
}

} // verus!

verus! {

proof fn lemma_lead(s: Seq<u8>, q: int)
    requires
        0 <= q <= s.len(),
    ensures
        spec_lead_expression(s, q) == spec_expression(s, skip_ws(s, q)),
    decreases s.len() - q,
{
    if q < s.len() && is_ws(s[q]) {
        lemma_lead(s, q + 1);
    }
}

proof fn lemma_negative(s: Seq<u8>, start: int, q: int)
    requires
        0 <= q <= s.len(),
    ensures
        spec_negative(s, start, q) == (if byte_is(s, skip_ws(s, q), 33) {
            match spec_lead_expression(s, skip_ws(s, q) + 1) {
                Some((e, x)) => Some(
                    (e, Expr::Negative { span: Span::sp(start, e), expr: Box::new(x) }),
                ),
                None => None,
            }
        } else {
            None
        }),
    decreases s.len() - q,
{
    if q < s.len() && is_ws(s[q]) {
        lemma_negative(s, start, q + 1);
    }
}

/// An expression at `p`: the first of negation, legacy helper, helper,
/// string literal and path that matches.
pub fn expression(src: &[u8], p: usize) -> (r: Option<(usize, Expression)>)
    requires
        p <= src@.len(),
    ensures
        parsed_as(r, spec_expression(src@, p as int), p as int, src@.len() as int),
    decreases src@.len() - p, 2int,
{
    match negative(src, p) {
        Some(r) => return Some(r),
        None => {},
    }
    match legacy_helper(src, p) {
        Some(r) => return Some(r),
        None => {},
    }
    match helper(src, p) {
        Some(r) => return Some(r),
        None => {},
    }
    match string_literal(src, p) {
        Some(r) => return Some(r),
        None => {},
    }
    path(src, p)
}

/// `!expr`, with whitespace allowed before the `!` and after it.
pub fn negative(src: &[u8], p: usize) -> (r: Option<(usize, Expression)>)
    requires
        p <= src@.len(),
    ensures
        parsed_as(r, spec_negative(src@, p as int, p as int), p as int, src@.len() as int),
    decreases src@.len() - p, 1int,
{
    proof {
        lemma_negative(src@, p as int, p as int);
    }
    let len = src.len();
    let a = ws(src, p);
    if !byte_at(src, a, 33) {
        return None;
    }
    let b = ws(src, a + 1);
    proof {
        lemma_lead(src@, a + 1);
    }
    match expression(src, b) {
        None => None,
        Some((e, x)) => Some(
            (e, Expression::Negative { span: Span { start: p, end: e }, expr: Box::new(x) }),
        ),
    }
}

/// An expression with the whitespace around it; the end is past the
/// trailing whitespace.
pub fn ws_expression(src: &[u8], q: usize) -> (r: Option<(usize, Expression)>)
    requires
        q <= src@.len(),
    ensures
        parsed_as(r, spec_ws_expression(src@, q as int), q as int, src@.len() as int),
    decreases src@.len() - q, 4int,
{
    let a = ws(src, q);
    proof {
        lemma_lead(src@, q as int);
    }
    match expression(src, a) {
        None => None,
        Some((e, x)) => Some((ws(src, e), x)),
    }
}

/// `name(arg, ...)`.
pub fn helper(src: &[u8], p: usize) -> (r: Option<(usize, Expression)>)
    requires
        p <= src@.len(),
    ensures
        parsed_as(r, spec_helper(src@, p as int), p as int, src@.len() as int),
    decreases src@.len() - p, 1int,
{
    let len = src.len();
    let name = match identifier(src, p) {
        None => return None,
        Some(name) => name,
    };
    let n = name.end;
    if !byte_at(src, n, 40) {
        return None;
    }
    let (q, args) = call_args(src, n + 1);
    if !byte_at(src, q, 41) {
        return None;
    }
    let end = q + 1;
    proof {
        lemma_helper_view(Span { start: p, end }, name, args);
    }
    Some((end, Expression::Helper { span: Span { start: p, end }, name, args }))
}

proof fn lemma_push_view(args: Seq<Expression>, x: Expression, rest: Seq<Expr>)
    ensures
        args_view(args.push(x)) + rest == args_view(args) + (seq![x@] + rest),
{
    assert(args_view(args.push(x)) =~= args_view(args).push(x@));
    assert(args_view(args).push(x@) + rest =~= args_view(args) + (seq![x@] + rest));
}

/// The comma-separated arguments of a helper call.
fn call_args(src: &[u8], q: usize) -> (r: (usize, Vec<Expression>))
    requires
        q <= src@.len(),
    ensures
        (r.0 as int, args_view(r.1@)) == spec_call_args(src@, q as int),
        q <= r.0 <= src@.len(),
    decreases src@.len() - q, 6int,
{
    let ghost s = src@;
    let n = src.len();
    let mut args: Vec<Expression> = Vec::new();
    let (e, x) = match ws_expression(src, q) {
        None => return (q, args),
        Some(ex) => ex,
    };
    proof {
        lemma_push_view(args@, x, spec_call_args_rest(s, e as int).1);
        assert(args_view(args@) =~= seq![]);
        assert(seq![] + (seq![x@] + spec_call_args_rest(s, e as int).1) =~= seq![x@]
            + spec_call_args_rest(s, e as int).1);
    }
    args.push(x);
    let mut i = e;
    loop
        invariant
            q <= i <= n,
            n == s.len(),
            s == src@,
            spec_call_args(s, q as int) == (
                spec_call_args_rest(s, i as int).0,
                args_view(args@) + spec_call_args_rest(s, i as int).1,
            ),
        ensures
            spec_call_args_rest(s, i as int) == (i as int, Seq::<Expr>::empty()),
        decreases n - i,
    {
        if !byte_at(src, i, 44) {
            break;
        }
        match ws_expression(src, i + 1) {
            None => break,
            Some((e2, x2)) => {
                proof {
                    lemma_push_view(args@, x2, spec_call_args_rest(s, e2 as int).1);
                }
                args.push(x2);
                i = e2;
            },
        }
    }
    assert(args_view(args@) + seq![] =~= args_view(args@));
    (i, args)
}

/// `function.name`, optionally followed by `, arg, arg, ...`; without
/// arguments the helper receives an implicit `@value`.
pub fn legacy_helper(src: &[u8], p: usize) -> (r: Option<(usize, Expression)>)
    requires
        p <= src@.len(),
    ensures
        parsed_as(r, spec_legacy_helper(src@, p as int), p as int, src@.len() as int),
    decreases src@.len() - p, 1int,
{
    let function: [u8; 9] = [102, 117, 110, 99, 116, 105, 111, 110, 46];
    assert(function@ == lit_function());
    let len = src.len();
    if !matches_at(src, p, &function) {
        return None;
    }
    let name = match identifier(src, p + 9) {
        None => return None,
        Some(name) => name,
    };
    let n = name.end;
    let a = ws(src, n);
    if byte_at(src, a, 44) {
        let b = ws(src, a + 1);
        let (e, args) = legacy_args(src, b);
        proof {
            lemma_helper_view(Span { start: p, end: e }, name, args);
        }
        Some((e, Expression::LegacyHelper { span: Span { start: p, end: e }, name, args }))
    } else {
        let mut path: Vec<PathPart> = Vec::new();
        path.push(PathPart::ImplicitValue);
        let value = Expression::Path { span: Span { start: n, end: n }, path };
        let mut args: Vec<Expression> = Vec::new();
        args.push(value);
        proof {
            assert(path@ =~= seq![PathPart::ImplicitValue]);
            assert(args_view(args@) =~= seq![implicit_value_at(n as int)]);
            lemma_helper_view(Span { start: p, end: n }, name, args);
        }
        Some((n, Expression::LegacyHelper { span: Span { start: p, end: n }, name, args }))
    }
}

/// The arguments of a legacy helper.
fn legacy_args(src: &[u8], b: usize) -> (r: (usize, Vec<Expression>))
    requires
        b <= src@.len(),
    ensures
        (r.0 as int, args_view(r.1@)) == spec_legacy_args(src@, b as int),
        b <= r.0 <= src@.len(),
    decreases src@.len() - b, 6int,
{
    let ghost s = src@;
    let n = src.len();
    let mut args: Vec<Expression> = Vec::new();
    let (e, x) = match expression(src, b) {
        None => return (b, args),
        Some(ex) => ex,
    };
    proof {
        lemma_push_view(args@, x, spec_legacy_args_rest(s, e as int).1);
        assert(args_view(args@) =~= seq![]);
        assert(seq![] + (seq![x@] + spec_legacy_args_rest(s, e as int).1) =~= seq![x@]
            + spec_legacy_args_rest(s, e as int).1);
    }
    args.push(x);
    let mut i = e;
    loop
        invariant
            b <= i <= n,
            n == s.len(),
            s == src@,
            spec_legacy_args(s, b as int) == (
                spec_legacy_args_rest(s, i as int).0,
                args_view(args@) + spec_legacy_args_rest(s, i as int).1,
            ),
        ensures
            spec_legacy_args_rest(s, i as int) == (i as int, Seq::<Expr>::empty()),
        decreases n - i,
    {
        let a = ws(src, i);
        if !byte_at(src, a, 44) {
            break;
        }
        let c = ws(src, a + 1);
        match expression(src, c) {
            None => break,
            Some((e2, x2)) => {
                proof {
                    lemma_push_view(args@, x2, spec_legacy_args_rest(s, e2 as int).1);
                }
                args.push(x2);
                i = e2;
            },
        }
    }
    assert(args_view(args@) + seq![] =~= args_view(args@));
    (i, args)
}

} // verus!
