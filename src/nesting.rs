//! Span nesting: every parse ends within the source, and every span inside
//! an expression or token lies within the span that holds it.
use vstd::prelude::*;
use crate::expression::{
    implicit_value_at, keyword_len, lemma_identifier, path_of, spec_call_args,
    spec_call_args_rest, spec_expression, spec_helper, spec_identifier, spec_lead_expression,
    spec_legacy_args, spec_legacy_args_rest, spec_legacy_helper, spec_markers, spec_negative,
    spec_path, spec_segments, spec_ws_expression, string_body_end, Expr,
    PathPart,
};
use crate::span::{byte_is, has_at, is_ws, lemma_skip_ws, skip_ws, Span};
use crate::tokens::{
    first_occurrence, lit_begin_upper, lit_close1, lit_close2, lit_close3, lit_comment_close,
    lit_comment_open, lit_each, lit_else, lit_else_upper, lit_end, lit_end_upper,
    lit_endif_upper, lit_if, lit_if_upper, lit_open1, lit_open2, lit_open3, spec_bare,
    spec_delimited, spec_interp_escaped, spec_interp_raw, spec_keyword_subject, spec_legacy_begin,
    spec_legacy_else, spec_legacy_end, spec_legacy_if, spec_new_each, spec_new_else, spec_new_end,
    spec_new_if, spec_token, trimmed_end, with_implicit_root, ws_char_before, Tok,
};

verus! {

/// `inner` is a sub-range of `outer`.
pub open spec fn within(inner: Span, outer: Span) -> bool {
    outer.start <= inner.start && inner.start <= inner.end && inner.end <= outer.end
}

pub open spec fn part_within(part: PathPart, outer: Span) -> bool {
    match part {
        PathPart::Part(sp) => within(sp, outer),
        _ => true,
    }
}

/// Every span inside `x` lies within the span of the node that holds it.
pub open spec fn well_nested(x: Expr) -> bool
    decreases x,
{
    match x {
        Expr::StringLiteral(span) => span.start <= span.end,
        Expr::Path { span, path } => span.start <= span.end && forall|i: int|
            0 <= i < path.len() ==> part_within(#[trigger] path[i], span),
        Expr::Negative { span, expr } => span.start <= span.end && within(expr.span(), span)
            && well_nested(*expr),
        Expr::Helper { span, name, args } => span.start <= span.end && within(name, span) && forall|
            i: int,
        |
            0 <= i < args.len() ==> within((#[trigger] args[i]).span(), span) && well_nested(
                args[i],
            ),
        Expr::LegacyHelper { span, name, args } => span.start <= span.end && within(name, span)
            && forall|i: int|
            0 <= i < args.len() ==> within((#[trigger] args[i]).span(), span) && well_nested(
                args[i],
            ),
    }
}

/// Every argument in `xs` is well nested and lies within `lo..hi`.
pub open spec fn args_within(xs: Seq<Expr>, lo: int, hi: int) -> bool {
    forall|i: int|
        0 <= i < xs.len() ==> lo <= (#[trigger] xs[i]).span().start && xs[i].span().start
            <= xs[i].span().end && xs[i].span().end <= hi && well_nested(xs[i])
}

/// A parse that starts at `p` and gives `(e, x)` covers exactly `p..e`.
pub open spec fn parse_at(s: Seq<u8>, p: int, r: Option<(int, Expr)>) -> bool {
    r matches Some((e, x)) ==> p <= e <= s.len() && x.span() == Span::sp(p, e) && well_nested(x)
}

proof fn lemma_args_cons(x: Expr, xs: Seq<Expr>, lo: int, mid: int, hi: int)
    requires
        lo <= x.span().start,
        x.span().start <= x.span().end,
        x.span().end <= mid,
        well_nested(x),
        args_within(xs, mid, hi),
        mid <= hi,
    ensures
        args_within(seq![x] + xs, lo, hi),
{
    let ys = seq![x] + xs;
    assert forall|i: int| 0 <= i < ys.len() implies lo <= (#[trigger] ys[i]).span().start
        && ys[i].span().start <= ys[i].span().end && ys[i].span().end <= hi && well_nested(
        ys[i],
    ) by {
        if i > 0 {
            assert(ys[i] == xs[i - 1]);
        }
    }
}

proof fn lemma_markers(s: Seq<u8>, p: int)
    requires
        0 <= p <= s.len(),
        s.len() <= usize::MAX,
    ensures
        p <= spec_markers(s, p).0 <= s.len(),
        forall|i: int|
            0 <= i < spec_markers(s, p).1.len() ==> part_within(
                #[trigger] spec_markers(s, p).1[i],
                Span::sp(p, spec_markers(s, p).0),
            ),
    decreases s.len() - p,
{
    let (e, ps) = spec_markers(s, p);
    if has_at(s, p, crate::expression::lit_here()) || has_at(s, p, crate::expression::lit_up()) {
        let k = if has_at(s, p, crate::expression::lit_here()) { 2int } else { 3int };
        lemma_markers(s, p + k);
        let rest = spec_markers(s, p + k).1;
        assert forall|i: int| 0 <= i < ps.len() implies part_within(
            #[trigger] ps[i],
            Span::sp(p, e),
        ) by {
            if i > 0 {
                assert(ps[i] == rest[i - 1]);
            }
        }
    }
}

proof fn lemma_segments(s: Seq<u8>, p: int)
    requires
        0 <= p <= s.len(),
        s.len() <= usize::MAX,
    ensures
        p <= spec_segments(s, p).0 <= s.len(),
        forall|i: int|
            0 <= i < spec_segments(s, p).1.len() ==> part_within(
                #[trigger] spec_segments(s, p).1[i],
                Span::sp(p, spec_segments(s, p).0),
            ),
    decreases s.len() - p,
{
    let (e, ps) = spec_segments(s, p);
    if byte_is(s, p, 46) {
        lemma_identifier(s, p + 1);
        match spec_identifier(s, p + 1) {
            Some(n) => {
                lemma_segments(s, n);
                let rest = spec_segments(s, n).1;
                assert forall|i: int| 0 <= i < ps.len() implies part_within(
                    #[trigger] ps[i],
                    Span::sp(p, e),
                ) by {
                    if i > 0 {
                        assert(ps[i] == rest[i - 1]);
                    }
                }
            },
            None => {},
        }
    }
}

proof fn lemma_path(s: Seq<u8>, p: int)
    requires
        0 <= p <= s.len(),
        s.len() <= usize::MAX,
    ensures
        parse_at(s, p, spec_path(s, p)),
{
    match keyword_len(s, p) {
        Some(k) => {
            let x = path_of(Span::sp(p, p + k));
            assert(well_nested(x));
        },
        None => {
            lemma_markers(s, p);
            let (m, markers) = spec_markers(s, p);
            lemma_identifier(s, m);
            match spec_identifier(s, m) {
                None => {},
                Some(e) => {
                    lemma_segments(s, e);
                    let (e2, segs) = spec_segments(s, e);
                    let path = markers + seq![PathPart::Part(Span::sp(m, e))] + segs;
                    let span = Span::sp(p, e2);
                    assert forall|i: int| 0 <= i < path.len() implies part_within(
                        #[trigger] path[i],
                        span,
                    ) by {
                        if i < markers.len() {
                            assert(path[i] == markers[i]);
                        } else if i > markers.len() {
                            assert(path[i] == segs[i - markers.len() - 1]);
                        }
                    }
                },
            }
        },
    }
}

proof fn lemma_string_body_end(s: Seq<u8>, q: int)
    requires
        0 <= q <= s.len(),
    ensures
        q <= string_body_end(s, q) <= s.len(),
    decreases s.len() - q,
{
    if byte_is(s, q, 92) && q + 1 < s.len() {
        lemma_string_body_end(s, q + 2);
    } else if 0 <= q < s.len() && s[q] != 92 && s[q] != 34 {
        lemma_string_body_end(s, q + 1);
    }
}

pub proof fn lemma_expression_nested(s: Seq<u8>, p: int)
    requires
        0 <= p <= s.len(),
        s.len() <= usize::MAX,
    ensures
        parse_at(s, p, spec_expression(s, p)),
    decreases s.len() - p, 2int,
{
    lemma_negative_nested(s, p, p);
    lemma_legacy_helper_nested(s, p);
    lemma_helper_nested(s, p);
    if byte_is(s, p, 34) {
        lemma_string_body_end(s, p + 1);
    }
    lemma_path(s, p);
}

proof fn lemma_negative_nested(s: Seq<u8>, start: int, q: int)
    requires
        0 <= start <= q <= s.len(),
        s.len() <= usize::MAX,
    ensures
        parse_at(s, start, spec_negative(s, start, q)),
    decreases s.len() - q, 1int,
{
    if q < s.len() && is_ws(s[q]) {
        lemma_negative_nested(s, start, q + 1);
    } else if byte_is(s, q, 33) {
        lemma_lead_nested(s, q + 1);
    }
}

proof fn lemma_lead_nested(s: Seq<u8>, q: int)
    requires
        0 <= q <= s.len(),
        s.len() <= usize::MAX,
    ensures
        spec_lead_expression(s, q) matches Some((e, x)) ==> q <= x.span().start && x.span() == Span::sp(
            x.span().start as int,
            e,
        ) && x.span().start <= e <= s.len() && well_nested(x),
    decreases s.len() - q, 3int,
{
    if q < s.len() && is_ws(s[q]) {
        lemma_lead_nested(s, q + 1);
    } else {
        lemma_expression_nested(s, q);
    }
}

proof fn lemma_ws_expression_nested(s: Seq<u8>, q: int)
    requires
        0 <= q <= s.len(),
        s.len() <= usize::MAX,
    ensures
        spec_ws_expression(s, q) matches Some((e, x)) ==> q <= x.span().start && x.span().start
            <= x.span().end && x.span().end <= e <= s.len() && well_nested(x),
    decreases s.len() - q, 4int,
{
    lemma_lead_nested(s, q);
    match spec_lead_expression(s, q) {
        Some((e, x)) => {
            lemma_skip_ws(s, e);
        },
        None => {},
    }
}

proof fn lemma_helper_nested(s: Seq<u8>, p: int)
    requires
        0 <= p <= s.len(),
        s.len() <= usize::MAX,
    ensures
        parse_at(s, p, spec_helper(s, p)),
    decreases s.len() - p, 1int,
{
    lemma_identifier(s, p);
    match spec_identifier(s, p) {
        Some(n) => {
            if byte_is(s, n, 40) {
                lemma_call_args_nested(s, n + 1);
            }
        },
        None => {},
    }
}

proof fn lemma_call_args_nested(s: Seq<u8>, q: int)
    requires
        0 <= q <= s.len(),
        s.len() <= usize::MAX,
    ensures
        q <= spec_call_args(s, q).0 <= s.len(),
        args_within(spec_call_args(s, q).1, q, spec_call_args(s, q).0),
    decreases s.len() - q, 6int,
{
    lemma_ws_expression_nested(s, q);
    match spec_ws_expression(s, q) {
        None => {},
        Some((e, x)) => {
            lemma_call_args_rest_nested(s, e);
            let (e2, xs) = spec_call_args_rest(s, e);
            lemma_args_cons(x, xs, q, e, e2);
        },
    }
}

proof fn lemma_call_args_rest_nested(s: Seq<u8>, i: int)
    requires
        0 <= i <= s.len(),
        s.len() <= usize::MAX,
    ensures
        i <= spec_call_args_rest(s, i).0 <= s.len(),
        args_within(spec_call_args_rest(s, i).1, i, spec_call_args_rest(s, i).0),
    decreases s.len() - i, 5int,
{
    if byte_is(s, i, 44) {
        lemma_ws_expression_nested(s, i + 1);
        match spec_ws_expression(s, i + 1) {
            Some((e, x)) => {
                if i < e <= s.len() {
                    lemma_call_args_rest_nested(s, e);
                    let (e2, xs) = spec_call_args_rest(s, e);
                    lemma_args_cons(x, xs, i, e, e2);
                }
            },
            None => {},
        }
    }
}

proof fn lemma_legacy_helper_nested(s: Seq<u8>, p: int)
    requires
        0 <= p <= s.len(),
        s.len() <= usize::MAX,
    ensures
        parse_at(s, p, spec_legacy_helper(s, p)),
    decreases s.len() - p, 1int,
{
    if has_at(s, p, crate::expression::lit_function()) {
        lemma_identifier(s, p + 9);
        match spec_identifier(s, p + 9) {
            Some(n) => {
                lemma_skip_ws(s, n);
                let a = skip_ws(s, n);
                if byte_is(s, a, 44) {
                    lemma_skip_ws(s, a + 1);
                    lemma_legacy_args_nested(s, skip_ws(s, a + 1));
                } else {
                    let x = spec_legacy_helper(s, p).unwrap().1;
                    let args = seq![implicit_value_at(n)];
                    assert(args[0] == implicit_value_at(n));
                    assert(well_nested(implicit_value_at(n)));
                    assert(well_nested(x));
                }
            },
            None => {},
        }
    }
}

proof fn lemma_legacy_args_nested(s: Seq<u8>, b: int)
    requires
        0 <= b <= s.len(),
        s.len() <= usize::MAX,
    ensures
        b <= spec_legacy_args(s, b).0 <= s.len(),
        args_within(spec_legacy_args(s, b).1, b, spec_legacy_args(s, b).0),
    decreases s.len() - b, 6int,
{
    lemma_expression_nested(s, b);
    match spec_expression(s, b) {
        None => {},
        Some((e, x)) => {
            lemma_legacy_args_rest_nested(s, e);
            let (e2, xs) = spec_legacy_args_rest(s, e);
            lemma_args_cons(x, xs, b, e, e2);
        },
    }
}

proof fn lemma_legacy_args_rest_nested(s: Seq<u8>, i: int)
    requires
        0 <= i <= s.len(),
        s.len() <= usize::MAX,
    ensures
        i <= spec_legacy_args_rest(s, i).0 <= s.len(),
        args_within(spec_legacy_args_rest(s, i).1, i, spec_legacy_args_rest(s, i).0),
    decreases s.len() - i, 5int,
{
    lemma_skip_ws(s, i);
    let a = skip_ws(s, i);
    if byte_is(s, a, 44) {
        lemma_skip_ws(s, a + 1);
        let c = skip_ws(s, a + 1);
        lemma_expression_nested(s, c);
        match spec_expression(s, c) {
            Some((e, x)) => {
                if i < e <= s.len() {
                    lemma_legacy_args_rest_nested(s, e);
                    let (e2, xs) = spec_legacy_args_rest(s, e);
                    lemma_args_cons(x, xs, i, e, e2);
                }
            },
            None => {},
        }
    }
}

} // verus!

verus! {

/// The expression and raw subject of `t` lie within its span, and the
/// expression is well nested.
pub open spec fn token_nested(t: Tok) -> bool {
    match t {
        Tok::Text(span) => span.start <= span.end,
        Tok::InterpEscaped { span, expr } => within(expr.span(), span) && well_nested(expr),
        Tok::InterpRaw { span, expr } => within(expr.span(), span) && well_nested(expr),
        Tok::If { span, subject } => within(subject.span(), span) && well_nested(subject),
        Tok::Each { span, subject } => within(subject.span(), span) && well_nested(subject),
        Tok::Else { span } => span.start <= span.end,
        Tok::End { span } => span.start <= span.end,
        Tok::LegacyIf { span, subject } => within(subject.span(), span) && well_nested(subject),
        Tok::LegacyBegin { span, subject } => within(subject.span(), span) && well_nested(subject),
        Tok::LegacyElse { span } => span.start <= span.end,
        Tok::LegacyEnd { span, subject_raw } => within(subject_raw, span),
    }
}

proof fn lemma_delimited(s: Seq<u8>, p: int, open: Seq<u8>, close: Seq<u8>)
    requires
        0 <= p <= s.len(),
        s.len() <= usize::MAX,
        open.len() > 0,
    ensures
        spec_delimited(s, p, open, close) matches Some((e, x)) ==> p < e <= s.len() && within(
            x.span(),
            Span::sp(p, e),
        ) && well_nested(x),
{
    if has_at(s, p, open) {
        lemma_ws_expression_nested(s, p + open.len());
    }
}

proof fn lemma_keyword_subject(s: Seq<u8>, p: int, open: Seq<u8>, kw: Seq<u8>, close: Seq<u8>)
    requires
        0 <= p <= s.len(),
        s.len() <= usize::MAX,
        open.len() > 0,
        kw.len() > 0,
    ensures
        spec_keyword_subject(s, p, open, kw, close) matches Some((e, x)) ==> p < e <= s.len()
            && within(x.span(), Span::sp(p, e)) && well_nested(x),
{
    if has_at(s, p, open) {
        lemma_skip_ws(s, p + open.len());
        lemma_delimited(s, skip_ws(s, p + open.len()), kw, close);
    }
}

proof fn lemma_bare(s: Seq<u8>, p: int, open: Seq<u8>, kw: Seq<u8>, close: Seq<u8>)
    requires
        0 <= p <= s.len(),
        open.len() > 0,
    ensures
        spec_bare(s, p, open, kw, close) matches Some(e) ==> p < e <= s.len(),
{
    if has_at(s, p, open) {
        lemma_skip_ws(s, p + open.len());
        let a = skip_ws(s, p + open.len());
        if has_at(s, a, kw) {
            lemma_skip_ws(s, a + kw.len());
        }
    }
}

proof fn lemma_first_occurrence(s: Seq<u8>, b: int, lit: Seq<u8>)
    ensures
        first_occurrence(s, b, lit) matches Some(t) ==> b <= t && t + lit.len() <= s.len(),
    decreases s.len() - b,
{
    if !(b < 0 || b >= s.len() || b + lit.len() > s.len()) && !has_at(s, b, lit) {
        lemma_first_occurrence(s, b + 1, lit);
    }
}

proof fn lemma_trimmed_end(s: Seq<u8>, b: int, t: int)
    requires
        b <= t,
    ensures
        b <= trimmed_end(s, b, t) <= t,
    decreases t - b,
{
    if ws_char_before(s, b, t) > 0 {
        lemma_trimmed_end(s, b, t - ws_char_before(s, b, t));
    }
}

proof fn lemma_implicit_root(x: Expr, outer: Span)
    requires
        within(x.span(), outer),
        well_nested(x),
    ensures
        within(with_implicit_root(x).span(), outer),
        well_nested(with_implicit_root(x)),
{
    match x {
        Expr::LegacyHelper { span, name, args } => {
            let y = with_implicit_root(x);
            let at = if args.len() > 0 {
                Span::sp(args[0].span().start as int, args[0].span().start as int)
            } else {
                Span::sp(span.end as int, span.end as int)
            };
            let root = Expr::Path { span: at, path: seq![PathPart::ImplicitRoot] };
            let ys = seq![root] + args;
            assert(well_nested(root));
            assert forall|i: int| 0 <= i < ys.len() implies within((#[trigger] ys[i]).span(), span)
                && well_nested(ys[i]) by {
                if i > 0 {
                    assert(ys[i] == args[i - 1]);
                }
            }
            assert(y == Expr::LegacyHelper { span, name, args: ys });
        },
        _ => {},
    }
}

/// A token found at `p` covers `p..e`, is no text token, and is well nested.
pub open spec fn token_at(s: Seq<u8>, p: int, r: Option<(int, Tok)>) -> bool {
    r matches Some((e, t)) ==> p < e <= s.len() && t.span() == Span::sp(p, e) && !(t is Text)
        && token_nested(t)
}

proof fn lemma_interp_tokens(s: Seq<u8>, p: int)
    requires
        0 <= p <= s.len(),
        s.len() <= usize::MAX,
    ensures
        token_at(s, p, spec_interp_escaped(s, p)),
        token_at(s, p, spec_interp_raw(s, p)),
{
    lemma_delimited(s, p, lit_open1(), lit_close1());
    lemma_delimited(s, p, lit_open2(), lit_close2());
}

proof fn lemma_block_tokens(s: Seq<u8>, p: int)
    requires
        0 <= p <= s.len(),
        s.len() <= usize::MAX,
    ensures
        token_at(s, p, spec_new_each(s, p)),
        token_at(s, p, spec_new_if(s, p)),
{
    lemma_keyword_subject(s, p, lit_open3(), lit_each(), lit_close3());
    lemma_keyword_subject(s, p, lit_open3(), lit_if(), lit_close3());
}

proof fn lemma_bare_tokens(s: Seq<u8>, p: int)
    requires
        0 <= p <= s.len(),
        s.len() <= usize::MAX,
    ensures
        token_at(s, p, spec_new_else(s, p)),
        token_at(s, p, spec_new_end(s, p)),
{
    lemma_bare(s, p, lit_open3(), lit_else(), lit_close3());
    lemma_bare(s, p, lit_open3(), lit_end(), lit_close3());
}

proof fn lemma_legacy_begin_token(s: Seq<u8>, p: int)
    requires
        0 <= p <= s.len(),
        s.len() <= usize::MAX,
    ensures
        token_at(s, p, spec_legacy_begin(s, p)),
{
    lemma_keyword_subject(s, p, lit_comment_open(), lit_begin_upper(), lit_comment_close());
}

proof fn lemma_legacy_if_token(s: Seq<u8>, p: int)
    requires
        0 <= p <= s.len(),
        s.len() <= usize::MAX,
    ensures
        token_at(s, p, spec_legacy_if(s, p)),
{
    lemma_keyword_subject(s, p, lit_comment_open(), lit_if_upper(), lit_comment_close());
    match spec_keyword_subject(s, p, lit_comment_open(), lit_if_upper(), lit_comment_close()) {
        Some((e, x)) => lemma_implicit_root(x, Span::sp(p, e)),
        None => {},
    }
}

proof fn lemma_legacy_else_token(s: Seq<u8>, p: int)
    requires
        0 <= p <= s.len(),
        s.len() <= usize::MAX,
    ensures
        token_at(s, p, spec_legacy_else(s, p)),
{
    lemma_bare(s, p, lit_comment_open(), lit_else_upper(), lit_comment_close());
}

proof fn lemma_legacy_end_token(s: Seq<u8>, p: int)
    requires
        0 <= p <= s.len(),
        s.len() <= usize::MAX,
    ensures
        token_at(s, p, spec_legacy_end(s, p)),
{
    if has_at(s, p, lit_comment_open()) {
        lemma_legacy_end_opened(s, p);
    }
}

proof fn lemma_legacy_end_opened(s: Seq<u8>, p: int)
    requires
        0 <= p <= s.len(),
        s.len() <= usize::MAX,
        has_at(s, p, lit_comment_open()),
    ensures
        token_at(s, p, spec_legacy_end(s, p)),
{
    lemma_skip_ws(s, p + 4);
    let a = skip_ws(s, p + 4);
    let k = if has_at(s, a, lit_endif_upper()) {
        5int
    } else if has_at(s, a, lit_end_upper()) {
        3int
    } else {
        0int
    };
    if k > 0 {
        lemma_skip_ws(s, a + k);
        let b = skip_ws(s, a + k);
        lemma_first_occurrence(s, b, lit_comment_close());
        match first_occurrence(s, b, lit_comment_close()) {
            Some(t) => lemma_trimmed_end(s, b, t),
            None => {},
        }
    }
}

pub proof fn lemma_token_nested(s: Seq<u8>, p: int)
    requires
        0 <= p <= s.len(),
        s.len() <= usize::MAX,
    ensures
        token_at(s, p, spec_token(s, p)),
{
    reveal(spec_token);
    lemma_interp_tokens(s, p);
    lemma_block_tokens(s, p);
    lemma_bare_tokens(s, p);
    lemma_legacy_begin_token(s, p);
    lemma_legacy_if_token(s, p);
    lemma_legacy_else_token(s, p);
    lemma_legacy_end_token(s, p);
}

} // verus!

verus! {

/// An expression parsed at `p` spans exactly what was consumed, so parsing
/// again at the start of its own span gives back the same expression,
/// ending at the end of that span.
pub proof fn law_reparse(s: Seq<u8>, p: int)
    requires
        0 <= p <= s.len(),
        s.len() <= usize::MAX,
    ensures
        spec_expression(s, p) matches Some((e, x)) ==> x.span() == Span::sp(p, e) && spec_expression(
            s,
            x.span().start as int,
        ) == Some((x.span().end as int, x)),
{
    lemma_expression_nested(s, p);
}

} // verus!
