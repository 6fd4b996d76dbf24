//! The top-level tokenizer: scans the source for anchors and emits text runs
//! between the tokens that the recognizers find there.
use vstd::prelude::*;
use crate::anchors::{anchors, leftmost_first, first_pattern_at, AnchorScanner};
use crate::expression::{path_of, Expression};
use crate::nesting::{lemma_token_nested, token_nested, well_nested};
use crate::span::{byte_is, has_at, Span};
use crate::tokens::{lit_comment_open, spec_token, token, Tok, Token};

verus! {

pub open spec fn tokens_view(v: Seq<Token>) -> Seq<Tok> {
    v.map_values(|t: Token| t@)
}

/// A UTF-8 continuation byte (`0b10xx_xxxx`).
pub open spec fn is_continuation(b: u8) -> bool {
    128 <= b < 192
}

/// The first character boundary at or after `i`.
pub open spec fn next_boundary(s: Seq<u8>, i: int) -> int
    decreases s.len() - i,
{
    if 0 <= i < s.len() && is_continuation(s[i]) {
        next_boundary(s, i + 1)
    } else {
        i
    }
}

/// A text token for `base..m`, if that is not empty.
pub open spec fn text_before(base: int, m: int) -> Seq<Tok> {
    if m > base {
        seq![Tok::Text(Span::sp(base, m))]
    } else {
        seq![]
    }
}

proof fn lemma_first_pattern_at(pats: Seq<Seq<u8>>, h: Seq<u8>, pos: int, k: int)
    ensures
        first_pattern_at(pats, h, pos, k) matches Some(j) ==> k <= j < pats.len() && has_at(
            h,
            pos,
            pats[j],
        ),
    decreases pats.len() - k,
{
    if 0 <= k < pats.len() && !has_at(h, pos, pats[k]) {
        lemma_first_pattern_at(pats, h, pos, k + 1);
    }
}

pub proof fn lemma_leftmost_first(pats: Seq<Seq<u8>>, h: Seq<u8>, from: int)
    ensures
        leftmost_first(pats, h, from) matches Some((k, m)) ==> from <= m && 0 <= k < pats.len()
            && has_at(h, m, pats[k]),
    decreases h.len() - from,
{
    if 0 <= from < h.len() {
        lemma_first_pattern_at(pats, h, from, 0);
        if first_pattern_at(pats, h, from, 0) is None {
            lemma_leftmost_first(pats, h, from + 1);
        }
    }
}

pub proof fn lemma_anchor_lengths()
    ensures
        anchors().len() == 9,
        forall|k: int| 0 <= k < 4 ==> #[trigger] anchors()[k].len() >= 2,
        forall|k: int| 0 <= k < 9 ==> #[trigger] anchors()[k].len() >= 1,
{
    assert forall|k: int| 0 <= k < 9 implies #[trigger] anchors()[k].len() >= 1 && (k < 4
        ==> anchors()[k].len() >= 2) by {
        if k == 0 {
        } else if k == 1 {
        } else if k == 2 {
        } else if k == 3 {
        } else if k == 4 {
        } else if k == 5 {
        } else if k == 6 {
        } else if k == 7 {
        } else {
        }
    }
}

/// The tokens of `s[base..]`, and the spans of the bare keywords among
/// them, where the scan for anchors resumes at `base + index`.
///
/// An opener (`{`, `<!--`) that starts a token gives the text before it and
/// the token; one that does not is skipped by one character. An escaped
/// opener ends the text before its `\`, drops the `\` and is passed over. A
/// bare `@key`, `@value` or `@index` becomes an interpolation of that path.
/// (A token found at `m` always ends after `m`; the tests on `e` and `nb`
/// only let the definition terminate.)
pub open spec fn spec_scan(s: Seq<u8>, base: int, index: int) -> (Seq<Tok>, Seq<Span>)
    decreases s.len() - (base + index),
{
    if base < 0 || index < 0 || base + index >= s.len() {
        (text_before(base, base + index), seq![])
    } else {
        match leftmost_first(anchors(), s, base + index) {
            None => (seq![Tok::Text(Span::sp(base, s.len() as int))], seq![]),
            Some((k, m)) => {
                proof {
                    lemma_leftmost_first(anchors(), s, base + index);
                    lemma_anchor_lengths();
                }
                let l = anchors()[k].len() as int;
                if k == 4 || k == 5 {
                    match spec_token(s, m) {
                        Some((e, tok)) => if m < e <= s.len() {
                            let (ts, ds) = spec_scan(s, e, 0);
                            (text_before(base, m) + seq![tok] + ts, ds)
                        } else {
                            (seq![], seq![])
                        },
                        None => {
                            let nb = next_boundary(s, m + 1);
                            if m < nb <= s.len() {
                                spec_scan(s, base, nb - base)
                            } else {
                                (seq![], seq![])
                            }
                        },
                    }
                } else if k < 4 {
                    let (ts, ds) = spec_scan(s, m + 1, l - 1);
                    (text_before(base, m) + ts, ds)
                } else {
                    let span = Span::sp(m, m + l);
                    let (ts, ds) = spec_scan(s, m + l, 0);
                    (
                        text_before(base, m) + seq![Tok::InterpEscaped { span, expr: path_of(span) }]
                            + ts,
                        seq![span] + ds,
                    )
                }
            },
        }
    }
}

/// The tokens of `s`, and the spans of the bare keywords among them.
pub open spec fn spec_tokens(s: Seq<u8>) -> (Seq<Tok>, Seq<Span>) {
    spec_scan(s, 0, 0)
}

fn next_char_boundary(src: &[u8], i: usize) -> (r: usize)
    requires
        i <= src@.len(),
    ensures
        r == next_boundary(src@, i as int),
        i <= r <= src@.len(),
{
    let mut j = i;
    while j < src.len() && 128 <= src[j] && src[j] < 192
        invariant
            i <= j <= src@.len(),
            next_boundary(src@, j as int) == next_boundary(src@, i as int),
        decreases src@.len() - j,
    {
        j = j + 1;
    }
    j
}

proof fn lemma_tokens_push(v: Seq<Token>, t: Token)
    ensures
        tokens_view(v.push(t)) == tokens_view(v).push(t@),
{
    assert(tokens_view(v.push(t)) =~= tokens_view(v).push(t@));
}

/// Tokenizes `src` with an anchor scanner.
pub fn tokenize_with(scanner: &AnchorScanner, src: &[u8]) -> (r: (Vec<Token>, Vec<Span>))
    requires
        scanner.patterns() == anchors(),
    ensures
        (tokens_view(r.0@), r.1@) == spec_tokens(src@),
{
    let ghost s = src@;
    let len = src.len();
    let mut toks: Vec<Token> = Vec::new();
    let mut deprecated: Vec<Span> = Vec::new();
    let mut base: usize = 0;
    let mut index: usize = 0;
    proof {
        assert(tokens_view(toks@) + spec_scan(s, 0, 0).0 =~= spec_scan(s, 0, 0).0);
        assert(deprecated@ + spec_scan(s, 0, 0).1 =~= spec_scan(s, 0, 0).1);
    }
    while base + index < len
        invariant
            base + index <= len,
            len == s.len(),
            s == src@,
            scanner.patterns() == anchors(),
            spec_tokens(s) == (
                tokens_view(toks@) + spec_scan(s, base as int, index as int).0,
                deprecated@ + spec_scan(s, base as int, index as int).1,
            ),
        decreases len - (base + index),
    {
        let from = base + index;
        proof {
            lemma_leftmost_first(anchors(), s, from as int);
            lemma_anchor_lengths();
        }
        let ghost old_toks = toks@;
        let ghost old_scan = spec_scan(s, base as int, index as int);
        match scanner.find(src, from) {
            None => {
                index = len - base;
            },
            Some((k, m, e)) => {
                if k == 4 || k == 5 {
                    match token(src, m) {
                        Some((end, tok)) => {
                            let ghost rest = spec_scan(s, end as int, 0);
                            let ghost tv = tok@;
                            if m > base {
                                let text = Token::Text(Span { start: base, end: m });
                                proof {
                                    lemma_tokens_push(toks@, text);
                                }
                                toks.push(text);
                            }
                            proof {
                                lemma_tokens_push(toks@, tok);
                            }
                            toks.push(tok);
                            proof {
                                assert(tokens_view(toks@) =~= tokens_view(old_toks) + text_before(
                                    base as int,
                                    m as int,
                                ) + seq![tv]);
                                assert(tokens_view(toks@) + rest.0 =~= tokens_view(old_toks) + (
                                text_before(base as int, m as int) + seq![tv] + rest.0));
                            }
                            base = end;
                            index = 0;
                        },
                        None => {
                            let nb = next_char_boundary(src, m + 1);
                            index = nb - base;
                        },
                    }
                } else if k < 4 {
                    let ghost rest = spec_scan(s, m + 1, e - m - 1);
                    if m > base {
                        let text = Token::Text(Span { start: base, end: m });
                        proof {
                            lemma_tokens_push(toks@, text);
                        }
                        toks.push(text);
                    }
                    proof {
                        assert(tokens_view(toks@) =~= tokens_view(old_toks) + text_before(
                            base as int,
                            m as int,
                        ));
                        assert(tokens_view(toks@) + rest.0 =~= tokens_view(old_toks) + (
                        text_before(base as int, m as int) + rest.0));
                    }
                    base = m + 1;
                    index = e - m - 1;
                } else {
                    let span = Span { start: m, end: e };
                    let ghost rest = spec_scan(s, e as int, 0);
                    if m > base {
                        let text = Token::Text(Span { start: base, end: m });
                        proof {
                            lemma_tokens_push(toks@, text);
                        }
                        toks.push(text);
                    }
                    let tok = Token::InterpEscaped { span, expr: Expression::path_from_span(span) };
                    let ghost tv = tok@;
                    proof {
                        lemma_tokens_push(toks@, tok);
                    }
                    toks.push(tok);
                    let ghost old_dep = deprecated@;
                    deprecated.push(span);
                    proof {
                        assert(tokens_view(toks@) =~= tokens_view(old_toks) + text_before(
                            base as int,
                            m as int,
                        ) + seq![tv]);
                        assert(tokens_view(toks@) + rest.0 =~= tokens_view(old_toks) + (
                        text_before(base as int, m as int) + seq![tv] + rest.0));
                        assert(deprecated@ + rest.1 =~= old_dep + (seq![span] + rest.1));
                    }
                    base = e;
                    index = 0;
                }
            },
        }
    }
    if index > 0 {
        let text = Token::Text(Span { start: base, end: base + index });
        proof {
            lemma_tokens_push(toks@, text);
        }
        toks.push(text);
    }
    proof {
        assert(tokens_view(toks@) =~= spec_tokens(s).0);
        assert(deprecated@ =~= spec_tokens(s).1);
    }
    (toks, deprecated)
}

/// Tokenizes `src`: the tokens, and the spans of the bare `@key`, `@value`
/// and `@index` keywords (deprecated outside braces) among them. It always
/// gives a result.
pub fn tokens(src: &[u8]) -> (r: Option<(Vec<Token>, Vec<Span>)>)
    ensures
        r is Some,
        r matches Some((t, d)) ==> (tokens_view(t@), d@) == spec_tokens(src@),
{
    match AnchorScanner::new() {
        None => None,
        Some(scanner) => Some(tokenize_with(&scanner, src)),
    }
}

} // verus!

verus! {

/// An escaped opener starts at `pos`: `\{` or `\<!--`.
pub open spec fn escape_at(s: Seq<u8>, pos: int) -> bool {
    byte_is(s, pos, 92) && (byte_is(s, pos + 1, 123) || has_at(s, pos + 1, lit_comment_open()))
}

/// The spans of `ts`, in order, run from `pos` to the end of `s`, each
/// starting where the one before it ended, or one byte later where that
/// byte is the `\` of an escaped opener.
pub open spec fn tiles(s: Seq<u8>, ts: Seq<Tok>, pos: int) -> bool
    decreases ts.len(),
{
    if ts.len() == 0 {
        pos == s.len()
    } else {
        let sp = ts[0].span();
        (sp.start == pos || (sp.start == pos + 1 && escape_at(s, pos))) && sp.start <= sp.end
            && tiles(s, ts.drop_first(), sp.end as int)
    }
}

/// No text token of `ts` is empty.
pub open spec fn texts_nonempty(ts: Seq<Tok>) -> bool {
    forall|i: int| 0 <= i < ts.len() && (#[trigger] ts[i]) is Text ==> ts[i].span().start
        < ts[i].span().end
}

/// Every token of `ts` is well nested.
pub open spec fn all_nested(ts: Seq<Tok>) -> bool {
    forall|i: int| 0 <= i < ts.len() ==> token_nested(#[trigger] ts[i])
}

proof fn lemma_escape_anchor(s: Seq<u8>, m: int, k: int)
    requires
        0 <= k < 4,
        has_at(s, m, anchors()[k]),
    ensures
        escape_at(s, m),
{
    let a = anchors()[k];
    assert(s.subrange(m, m + a.len()) == a);
    assert(s[m] == s.subrange(m, m + a.len())[0]);
    assert(s[m + 1] == s.subrange(m, m + a.len())[1]);
    if k == 3 {
        assert(s.subrange(m + 1, m + 5) =~= lit_comment_open());
    }
}

proof fn lemma_prepend(s: Seq<u8>, t: Tok, rest: Seq<Tok>, pos: int)
    requires
        t.span().start == pos || (t.span().start == pos + 1 && escape_at(s, pos)),
        t.span().start <= t.span().end,
        tiles(s, rest, t.span().end as int),
    ensures
        tiles(s, seq![t] + rest, pos),
{
    assert((seq![t] + rest).drop_first() =~= rest);
}

proof fn lemma_scan(s: Seq<u8>, base: int, index: int)
    requires
        s.len() <= usize::MAX,
        0 <= base,
        0 <= index,
        base + index <= s.len(),
    ensures
        tiles(s, spec_scan(s, base, index).0, base),
        texts_nonempty(spec_scan(s, base, index).0),
        all_nested(spec_scan(s, base, index).0),
        index > 0 ==> spec_scan(s, base, index).0.len() > 0 && spec_scan(s, base, index).0[0].span().start
            == base,
    decreases s.len() - (base + index),
{
    let ts = spec_scan(s, base, index).0;
    if base + index >= s.len() {
        if index > 0 {
            lemma_prepend(s, Tok::Text(Span::sp(base, base + index)), seq![], base);
            assert(seq![Tok::Text(Span::sp(base, base + index))] + seq![] =~= ts);
        }
    } else {
        lemma_leftmost_first(anchors(), s, base + index);
        lemma_anchor_lengths();
        match leftmost_first(anchors(), s, base + index) {
            None => {
                lemma_prepend(s, Tok::Text(Span::sp(base, s.len() as int)), seq![], base);
                assert(seq![Tok::Text(Span::sp(base, s.len() as int))] + seq![] =~= ts);
            },
            Some((k, m)) => {
                let l = anchors()[k].len() as int;
                if k == 4 || k == 5 {
                    lemma_token_nested(s, m);
                    match spec_token(s, m) {
                        Some((e, tok)) => {
                            lemma_scan(s, e, 0);
                            let rest = spec_scan(s, e, 0).0;
                            lemma_prepend(s, tok, rest, m);
                            if m > base {
                                let text = Tok::Text(Span::sp(base, m));
                                lemma_prepend(s, text, seq![tok] + rest, base);
                                assert(ts =~= seq![text] + (seq![tok] + rest));
                            } else {
                                assert(ts =~= seq![tok] + rest);
                            }
                            assert forall|i: int| 0 <= i < ts.len() implies token_nested(
                                #[trigger] ts[i],
                            ) && (ts[i] is Text ==> ts[i].span().start < ts[i].span().end) by {
                                let off = if m > base { 1int } else { 0int };
                                if i > off {
                                    assert(ts[i] == rest[i - off - 1]);
                                }
                            }
                        },
                        None => {
                            let nb = next_boundary(s, m + 1);
                            lemma_next_boundary(s, m + 1);
                            lemma_scan(s, base, nb - base);
                        },
                    }
                } else if k < 4 {
                    lemma_escape_anchor(s, m, k);
                    lemma_scan(s, m + 1, l - 1);
                    let rest = spec_scan(s, m + 1, l - 1).0;
                    let r0 = rest[0];
                    assert(rest =~= seq![r0] + rest.drop_first());
                    if m > base {
                        let text = Tok::Text(Span::sp(base, m));
                        lemma_prepend(s, r0, rest.drop_first(), m);
                        lemma_prepend(s, text, rest, base);
                        assert(ts =~= seq![text] + rest);
                        assert forall|i: int| 0 <= i < ts.len() implies token_nested(
                            #[trigger] ts[i],
                        ) && (ts[i] is Text ==> ts[i].span().start < ts[i].span().end) by {
                            if i > 0 {
                                assert(ts[i] == rest[i - 1]);
                            }
                        }
                    } else {
                        lemma_prepend(s, r0, rest.drop_first(), base);
                        assert(ts =~= rest);
                    }
                } else {
                    let span = Span::sp(m, m + l);
                    let tok = Tok::InterpEscaped { span, expr: path_of(span) };
                    lemma_scan(s, m + l, 0);
                    let rest = spec_scan(s, m + l, 0).0;
                    lemma_prepend(s, tok, rest, m);
                    if m > base {
                        let text = Tok::Text(Span::sp(base, m));
                        lemma_prepend(s, text, seq![tok] + rest, base);
                        assert(ts =~= seq![text] + (seq![tok] + rest));
                    } else {
                        assert(ts =~= seq![tok] + rest);
                    }
                    assert(token_nested(tok)) by {
                        assert(well_nested(path_of(span)));
                    }
                    assert forall|i: int| 0 <= i < ts.len() implies token_nested(
                        #[trigger] ts[i],
                    ) && (ts[i] is Text ==> ts[i].span().start < ts[i].span().end) by {
                        let off = if m > base { 1int } else { 0int };
                        if i > off {
                            assert(ts[i] == rest[i - off - 1]);
                        }
                    }
                }
            },
        }
    }
}

/// Two text tokens next to each other in `ts` are split by the `\` of an
/// escaped opener, which the tokenizer drops.
pub open spec fn texts_split(s: Seq<u8>, ts: Seq<Tok>) -> bool {
    forall|i: int|
        0 <= i && i + 1 < ts.len() && (#[trigger] ts[i]) is Text && ts[i + 1] is Text
            ==> ts[i + 1].span().start == ts[i].span().end + 1 && escape_at(
            s,
            ts[i].span().end as int,
        )
}

proof fn lemma_split_after(s: Seq<u8>, ts: Seq<Tok>, rest: Seq<Tok>, off: int)
    requires
        0 <= off,
        ts.len() == off + rest.len(),
        forall|i: int| 0 <= i < rest.len() ==> ts[off + i] == rest[i],
        texts_split(s, rest),
        forall|i: int| 0 <= i && i + 1 < ts.len() && i + 1 <= off ==> !(#[trigger] ts[i + 1] is Text)
            || !(ts[i] is Text) || (ts[i + 1].span().start == ts[i].span().end + 1 && escape_at(
            s,
            ts[i].span().end as int,
        )),
    ensures
        texts_split(s, ts),
{
    assert forall|i: int|
        0 <= i && i + 1 < ts.len() && (#[trigger] ts[i]) is Text && ts[i + 1] is Text implies ts[i
        + 1].span().start == ts[i].span().end + 1 && escape_at(s, ts[i].span().end as int) by {
        if i >= off {
            assert(ts[i] == rest[i - off]);
            assert(ts[off + (i + 1 - off)] == rest[i + 1 - off]);
        }
    }
}

proof fn lemma_scan_split(s: Seq<u8>, base: int, index: int)
    requires
        s.len() <= usize::MAX,
        0 <= base,
        0 <= index,
        base + index <= s.len(),
    ensures
        texts_split(s, spec_scan(s, base, index).0),
    decreases s.len() - (base + index),
{
    let ts = spec_scan(s, base, index).0;
    if base + index < s.len() {
        lemma_leftmost_first(anchors(), s, base + index);
        lemma_anchor_lengths();
        match leftmost_first(anchors(), s, base + index) {
            None => {},
            Some((k, m)) => {
                let l = anchors()[k].len() as int;
                if k == 4 || k == 5 {
                    lemma_token_nested(s, m);
                    match spec_token(s, m) {
                        Some((e, tok)) => {
                            lemma_scan_split(s, e, 0);
                            let rest = spec_scan(s, e, 0).0;
                            let off = if m > base { 2int } else { 1int };
                            if m > base {
                                assert(ts =~= seq![Tok::Text(Span::sp(base, m)), tok] + rest);
                            } else {
                                assert(ts =~= seq![tok] + rest);
                            }
                            assert(ts[off - 1] == tok);
                            lemma_split_after(s, ts, rest, off);
                        },
                        None => {
                            let nb = next_boundary(s, m + 1);
                            lemma_next_boundary(s, m + 1);
                            lemma_scan_split(s, base, nb - base);
                        },
                    }
                } else if k < 4 {
                    lemma_escape_anchor(s, m, k);
                    lemma_scan_split(s, m + 1, l - 1);
                    lemma_scan(s, m + 1, l - 1);
                    let rest = spec_scan(s, m + 1, l - 1).0;
                    if m > base {
                        let text = Tok::Text(Span::sp(base, m));
                        assert(ts =~= seq![text] + rest);
                        assert(ts[1] == rest[0]);
                        lemma_split_after(s, ts, rest, 1);
                    } else {
                        assert(ts =~= rest);
                    }
                } else {
                    let span = Span::sp(m, m + l);
                    let tok = Tok::InterpEscaped { span, expr: path_of(span) };
                    lemma_scan_split(s, m + l, 0);
                    let rest = spec_scan(s, m + l, 0).0;
                    let off = if m > base { 2int } else { 1int };
                    if m > base {
                        assert(ts =~= seq![Tok::Text(Span::sp(base, m)), tok] + rest);
                    } else {
                        assert(ts =~= seq![tok] + rest);
                    }
                    assert(ts[off - 1] == tok);
                    lemma_split_after(s, ts, rest, off);
                }
            },
        }
    }
}

proof fn lemma_next_boundary(s: Seq<u8>, i: int)
    requires
        0 <= i <= s.len(),
    ensures
        i <= next_boundary(s, i) <= s.len(),
    decreases s.len() - i,
{
    if i < s.len() && is_continuation(s[i]) {
        lemma_next_boundary(s, i + 1);
    }
}

/// The spans of the tokens of `s` cover it from start to end, in order and
/// without overlap; the only bytes between them are the `\` of escaped
/// openers, which the tokenizer drops.
pub proof fn law_coverage(s: Seq<u8>)
    requires
        s.len() <= usize::MAX,
    ensures
        tiles(s, spec_tokens(s).0, 0),
{
    lemma_scan(s, 0, 0);
}

/// Two text tokens of `s` meet only across the `\` of an escaped opener,
/// which the tokenizer drops; elsewhere text is one token.
pub proof fn law_texts_split_by_escapes(s: Seq<u8>)
    requires
        s.len() <= usize::MAX,
    ensures
        texts_split(s, spec_tokens(s).0),
{
    lemma_scan_split(s, 0, 0);
}

/// No text token of the tokens of `s` is empty.
pub proof fn law_no_empty_text(s: Seq<u8>)
    requires
        s.len() <= usize::MAX,
    ensures
        texts_nonempty(spec_tokens(s).0),
{
    lemma_scan(s, 0, 0);
}

/// Every span inside a token of `s` (the spans of its expression and of
/// every sub-expression and path part) lies within the span of the node
/// that holds it, and the expression's span lies within the token's.
pub proof fn law_span_containment(s: Seq<u8>)
    requires
        s.len() <= usize::MAX,
    ensures
        all_nested(spec_tokens(s).0),
{
    lemma_scan(s, 0, 0);
}

} // verus!
