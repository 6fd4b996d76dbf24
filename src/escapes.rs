//! Escaping: a `\` before `{` or `<!--` makes the tokenizer pass the opener
//! through as text.
use vstd::prelude::*;
use crate::anchors::{anchors, first_pattern_at, leftmost_first};
use crate::expression::{lit_index, lit_key, lit_value};
use crate::span::{byte_is, has_at, Span};
use crate::tokenize::{escape_at, lemma_anchor_lengths, spec_scan, spec_tokens};
use crate::tokens::{lit_comment_open, Tok};

verus! {

/// `s` with a `\` put before every `{` and every `<!--`.
pub open spec fn escape(s: Seq<u8>) -> Seq<u8>
    decreases s.len(),
{
    if s.len() == 0 {
        seq![]
    } else if s[0] == 123 {
        seq![92u8, 123u8] + escape(s.subrange(1, s.len() as int))
    } else if has_at(s, 0, lit_comment_open()) {
        seq![92u8, 60u8, 33u8, 45u8, 45u8] + escape(s.subrange(4, s.len() as int))
    } else {
        seq![s[0]] + escape(s.subrange(1, s.len() as int))
    }
}

/// `t` without the `\` of its escaped openers.
pub open spec fn unescape(t: Seq<u8>) -> Seq<u8>
    decreases t.len(),
{
    if t.len() == 0 {
        seq![]
    } else if escape_at(t, 0) {
        unescape(t.subrange(1, t.len() as int))
    } else {
        seq![t[0]] + unescape(t.subrange(1, t.len() as int))
    }
}

/// The bytes of the tokens `ts` of `t`, one after the other.
pub open spec fn joined(t: Seq<u8>, ts: Seq<Tok>) -> Seq<u8>
    decreases ts.len(),
{
    if ts.len() == 0 {
        seq![]
    } else {
        t.subrange(ts[0].span().start as int, ts[0].span().end as int) + joined(t, ts.drop_first())
    }
}

/// Every token of `ts` is a text token.
pub open spec fn all_text(ts: Seq<Tok>) -> bool {
    forall|i: int| 0 <= i < ts.len() ==> (#[trigger] ts[i]) is Text
}

/// `s` holds none of the bare keywords `@key`, `@value`, `@index`.
pub open spec fn no_bare_keyword(s: Seq<u8>) -> bool {
    forall|i: int|
        !has_at(s, i, lit_key()) && !has_at(s, i, lit_value()) && !has_at(s, i, lit_index())
}

proof fn lemma_has_at_shift(h: Seq<u8>, e: Seq<u8>, j: int, w: Seq<u8>)
    requires
        has_at(h + e, j, w),
        j >= h.len(),
    ensures
        has_at(e, j - h.len(), w),
{
    assert((h + e).subrange(j, j + w.len()) =~= e.subrange(j - h.len(), j - h.len() + w.len()));
}

/// A window of `escape(y)` at its start that holds no `\` is a window of `y`.
proof fn lemma_escape_prefix(y: Seq<u8>, w: Seq<u8>)
    requires
        has_at(escape(y), 0, w),
        forall|i: int| 0 <= i < w.len() ==> w[i] != 92,
    ensures
        has_at(y, 0, w),
    decreases w.len(),
{
    if w.len() > 0 {
        let t = escape(y);
        assert(t[0] == t.subrange(0, w.len() as int)[0]);
        if y.len() > 0 && y[0] != 123 && !has_at(y, 0, lit_comment_open()) {
            let rest = y.subrange(1, y.len() as int);
            let w2 = w.subrange(1, w.len() as int);
            assert(t == seq![y[0]] + escape(rest));
            assert(escape(rest).subrange(0, w2.len() as int) =~= t.subrange(1, w.len() as int));
            assert(t.subrange(1, w.len() as int) =~= w2);
            lemma_escape_prefix(rest, w2);
            assert(y.subrange(0, w.len() as int) =~= seq![y[0]] + rest.subrange(0, w2.len() as int));
            assert(w =~= seq![w[0]] + w2);
        }
    } else {
        assert(y.subrange(0, 0) =~= w);
    }
}

proof fn lemma_escape_shape(s: Seq<u8>)
    ensures
        forall|j: int| 0 <= j < escape(s).len() && #[trigger] escape(s)[j] == 123 ==> j >= 1
            && escape(s)[j - 1] == 92,
        forall|j: int| #[trigger] has_at(escape(s), j, lit_comment_open()) ==> j >= 1 && escape(s)[j - 1] == 92,
    decreases s.len(),
{
    let t = escape(s);
    if s.len() > 0 {
        let (h, rest) = if s[0] == 123 {
            (seq![92u8, 123u8], s.subrange(1, s.len() as int))
        } else if has_at(s, 0, lit_comment_open()) {
            (seq![92u8, 60u8, 33u8, 45u8, 45u8], s.subrange(4, s.len() as int))
        } else {
            (seq![s[0]], s.subrange(1, s.len() as int))
        };
        lemma_escape_shape(rest);
        let e = escape(rest);
        assert(t == h + e);
        assert forall|j: int| 0 <= j < t.len() && #[trigger] t[j] == 123 implies j >= 1 && t[j - 1]
            == 92 by {
            if j >= h.len() {
                assert(t[j] == e[j - h.len()]);
                if j > h.len() {
                    assert(t[j - 1] == e[j - h.len() - 1]);
                }
            }
        }
        assert forall|j: int| #[trigger] has_at(t, j, lit_comment_open()) implies j >= 1 && t[j - 1]
            == 92 by {
            assert(t[j] == t.subrange(j, j + 4)[0]);
            if j >= h.len() {
                lemma_has_at_shift(h, e, j, lit_comment_open());
                if j > h.len() {
                    assert(t[j - 1] == e[j - h.len() - 1]);
                }
            } else if h.len() == 1 {
                let w = seq![33u8, 45u8, 45u8];
                assert(t.subrange(0, 4) =~= lit_comment_open());
                assert(t[0] == s[0]);
                assert(e.subrange(0, 3) =~= t.subrange(1, 4));
                assert(t.subrange(1, 4) =~= w);
                lemma_escape_prefix(rest, w);
                assert(rest.subrange(0, 3) =~= w);
                assert(s.subrange(0, 4) =~= seq![s[0]] + rest.subrange(0, 3));
                assert(t[0] == t.subrange(0, 4)[0]);
                assert(s[0] == 60);
                assert(s.subrange(0, 4) =~= lit_comment_open());
                assert(has_at(s, 0, lit_comment_open()));
            } else {
                assert(t[j] == h[j]);
                assert(t.subrange(j, j + 4)[0] == 60);
                if j >= 1 {
                    assert(t[j - 1] == h[j - 1]);
                }
            }
        }
    }
}

proof fn lemma_escape_keywords(s: Seq<u8>, w: Seq<u8>, j: int)
    requires
        has_at(escape(s), j, w),
        w.len() > 0,
        w[0] == 64,
        forall|i: int| 0 <= i < w.len() ==> w[i] != 92,
    ensures
        exists|i: int| has_at(s, i, w),
    decreases s.len(),
{
    let t = escape(s);
    if s.len() > 0 {
        let (h, rest, k) = if s[0] == 123 {
            (seq![92u8, 123u8], s.subrange(1, s.len() as int), 1int)
        } else if has_at(s, 0, lit_comment_open()) {
            (seq![92u8, 60u8, 33u8, 45u8, 45u8], s.subrange(4, s.len() as int), 4int)
        } else {
            (seq![s[0]], s.subrange(1, s.len() as int), 1int)
        };
        let e = escape(rest);
        assert(t == h + e);
        assert(t[j] == t.subrange(j, j + w.len())[0]);
        if j >= h.len() {
            lemma_has_at_shift(h, e, j, w);
            lemma_escape_keywords(rest, w, j - h.len());
            let i = choose|i: int| has_at(rest, i, w);
            assert(s.subrange(i + k, i + k + w.len()) =~= rest.subrange(i, i + w.len()));
            assert(has_at(s, i + k, w));
        } else if h.len() == 1 {
            assert(t.subrange(0, w.len() as int) =~= w);
            lemma_escape_prefix(s, w);
            assert(has_at(s, 0, w));
        } else {
            assert(t[j] == h[j]);
        }
    } else {
        assert(t.len() == 0);
    }
}

} // verus!

verus! {

proof fn lemma_unescape_escape(s: Seq<u8>)
    ensures
        unescape(escape(s)) == s,
    decreases s.len(),
{
    if s.len() > 0 {
        let t = escape(s);
        if s[0] == 123 {
            let rest = s.subrange(1, s.len() as int);
            lemma_unescape_escape(rest);
            lemma_escape_shape(rest);
            let e = escape(rest);
            let t1 = t.subrange(1, t.len() as int);
            assert(t1 =~= seq![123u8] + e);
            assert(t1.subrange(1, t1.len() as int) =~= e);
            assert(!escape_at(t1, 0));
            assert(escape_at(t, 0));
            assert(unescape(t) == unescape(t1));
            assert(unescape(t1) == seq![123u8] + unescape(e));
            assert(s =~= seq![123u8] + rest);
        } else if has_at(s, 0, lit_comment_open()) {
            let rest = s.subrange(4, s.len() as int);
            lemma_unescape_escape(rest);
            let e = escape(rest);
            let c = lit_comment_open();
            assert(escape_at(t, 0)) by {
                assert(t.subrange(1, 5) =~= c);
            }
            let t1 = t.subrange(1, t.len() as int);
            assert(t1 =~= c + e);
            let t2 = t1.subrange(1, t1.len() as int);
            let t3 = t2.subrange(1, t2.len() as int);
            let t4 = t3.subrange(1, t3.len() as int);
            assert(t2 =~= seq![33u8, 45u8, 45u8] + e);
            assert(t3 =~= seq![45u8, 45u8] + e);
            assert(t4 =~= seq![45u8] + e);
            assert(t4.subrange(1, t4.len() as int) =~= e);
            assert(unescape(t4) == seq![45u8] + unescape(e));
            assert(unescape(t3) == seq![45u8] + unescape(t4));
            assert(unescape(t2) == seq![33u8] + unescape(t3));
            assert(unescape(t1) == seq![60u8] + unescape(t2));
            assert(s.subrange(0, 4) =~= c);
            assert(s =~= c + rest);
            assert(unescape(t) == unescape(t1));
            assert(unescape(t1) =~= c + unescape(e));
        } else {
            let rest = s.subrange(1, s.len() as int);
            lemma_unescape_escape(rest);
            let e = escape(rest);
            assert(t =~= seq![s[0]] + e);
            assert(t.subrange(1, t.len() as int) =~= e);
            assert(!escape_at(t, 0)) by {
                if escape_at(t, 0) {
                    lemma_escape_shape(rest);
                    if byte_is(t, 1, 123) {
                        assert(e[0] == 123);
                    } else {
                        assert(t.subrange(1, 5) =~= e.subrange(0, 4));
                        assert(has_at(e, 0, lit_comment_open()));
                    }
                }
            }
            assert(unescape(t) == seq![s[0]] + unescape(e));
            assert(s =~= seq![s[0]] + rest);
        }
    }
}

} // verus!

verus! {

/// The shape of an escaped text: each `{` and each `<!--` follows a `\`,
/// and no bare keyword occurs.
pub open spec fn escaped_shape(t: Seq<u8>) -> bool {
    &&& forall|j: int| 0 <= j < t.len() && #[trigger] t[j] == 123 ==> j >= 1 && t[j - 1] == 92
    &&& forall|j: int| #[trigger] has_at(t, j, lit_comment_open()) ==> j >= 1 && t[j - 1] == 92
    &&& no_bare_keyword(t)
}

proof fn lemma_first_pattern_none(pats: Seq<Seq<u8>>, h: Seq<u8>, pos: int, k: int)
    requires
        0 <= k,
    ensures
        forall|j: int|
            k <= j < pats.len() && first_pattern_at(pats, h, pos, k) is None ==> !has_at(
                h,
                pos,
                #[trigger] pats[j],
            ),
    decreases pats.len() - k,
{
    if k < pats.len() && !has_at(h, pos, pats[k]) {
        lemma_first_pattern_none(pats, h, pos, k + 1);
    }
}

proof fn lemma_leftmost_gap(pats: Seq<Seq<u8>>, h: Seq<u8>, from: int)
    requires
        0 <= from,
    ensures
        forall|j: int, k: int|
            from <= j < h.len() && 0 <= k < pats.len() && #[trigger] has_at(h, j, pats[k])
                ==> (leftmost_first(pats, h, from) matches Some((_, m)) && m <= j),
    decreases h.len() - from,
{
    if from < h.len() {
        lemma_first_pattern_none(pats, h, from, 0);
        if first_pattern_at(pats, h, from, 0) is None {
            lemma_leftmost_gap(pats, h, from + 1);
        }
    }
}

proof fn lemma_unescape_step(t: Seq<u8>, a: int)
    requires
        0 <= a < t.len(),
    ensures
        unescape(t.subrange(a, t.len() as int)) == if escape_at(t, a) {
            unescape(t.subrange(a + 1, t.len() as int))
        } else {
            seq![t[a]] + unescape(t.subrange(a + 1, t.len() as int))
        },
{
    let u = t.subrange(a, t.len() as int);
    assert(u.subrange(1, u.len() as int) =~= t.subrange(a + 1, t.len() as int));
    assert(u[0] == t[a]);
    if u.len() >= 2 {
        assert(u[1] == t[a + 1]);
    }
    if u.len() >= 5 {
        assert(u.subrange(1, 5) =~= t.subrange(a + 1, a + 5));
    }
    assert(escape_at(u, 0) == escape_at(t, a));
}

proof fn lemma_unescape_plain(t: Seq<u8>, a: int, b: int)
    requires
        0 <= a <= b <= t.len(),
        forall|j: int| a <= j < b ==> !#[trigger] escape_at(t, j),
    ensures
        unescape(t.subrange(a, t.len() as int)) == t.subrange(a, b) + unescape(
            t.subrange(b, t.len() as int),
        ),
    decreases b - a,
{
    if a < b {
        lemma_unescape_step(t, a);
        lemma_unescape_plain(t, a + 1, b);
        assert(t.subrange(a, b) =~= seq![t[a]] + t.subrange(a + 1, b));
    } else {
        assert(t.subrange(a, b) =~= seq![]);
    }
}

proof fn lemma_joined_cons(t: Seq<u8>, x: Tok, rest: Seq<Tok>)
    ensures
        joined(t, seq![x] + rest) == t.subrange(x.span().start as int, x.span().end as int) + joined(
            t,
            rest,
        ),
{
    assert((seq![x] + rest).drop_first() =~= rest);
}

proof fn lemma_escape_anchor_at(t: Seq<u8>, j: int)
    requires
        escape_at(t, j),
    ensures
        has_at(t, j, anchors()[2]) || has_at(t, j, anchors()[3]),
{
    if byte_is(t, j + 1, 123) {
        assert(t.subrange(j, j + 2) =~= anchors()[2]);
    } else {
        assert(t.subrange(j, j + 5) =~= anchors()[3]);
    }
}

proof fn lemma_scan_escaped(t: Seq<u8>, base: int, index: int)
    requires
        t.len() <= usize::MAX,
        escaped_shape(t),
        0 <= base,
        0 <= index,
        base + index <= t.len(),
        forall|j: int| base <= j < base + index ==> !#[trigger] escape_at(t, j),
        !byte_is(t, base + index, 123),
        !has_at(t, base + index, lit_comment_open()),
    ensures
        all_text(spec_scan(t, base, index).0),
        spec_scan(t, base, index).1 == Seq::<Span>::empty(),
        joined(t, spec_scan(t, base, index).0) == unescape(t.subrange(base, t.len() as int)),
    decreases t.len() - (base + index),
{
    let f = base + index;
    let n = t.len() as int;
    let ts = spec_scan(t, base, index).0;
    lemma_anchor_lengths();
    if f >= n {
        lemma_unescape_plain(t, base, n);
        assert(unescape(t.subrange(n, n)) == Seq::<u8>::empty());
        if index > 0 {
            lemma_joined_cons(t, Tok::Text(Span::sp(base, n)), seq![]);
            assert(seq![Tok::Text(Span::sp(base, n))] + seq![] =~= ts);
        }
        assert(t.subrange(base, n) + Seq::<u8>::empty() =~= t.subrange(base, n));
    } else {
        lemma_leftmost_gap(anchors(), t, f);
        crate::tokenize::lemma_leftmost_first(anchors(), t, f);
        assert forall|j: int| f <= j < n && escape_at(t, j) implies (leftmost_first(
            anchors(),
            t,
            f,
        ) matches Some((_, m)) && m <= j) by {
            lemma_escape_anchor_at(t, j);
        }
        match leftmost_first(anchors(), t, f) {
            None => {
                lemma_unescape_plain(t, base, n);
                assert(unescape(t.subrange(n, n)) == Seq::<u8>::empty());
                lemma_joined_cons(t, Tok::Text(Span::sp(base, n)), seq![]);
                assert(seq![Tok::Text(Span::sp(base, n))] + seq![] =~= ts);
                assert(t.subrange(base, n) + Seq::<u8>::empty() =~= t.subrange(base, n));
            },
            Some((k, m)) => {
                let a = anchors()[k];
                assert(t.subrange(m, m + a.len()) == a);
                assert forall|i: int| 0 <= i < a.len() implies t[m + i] == #[trigger] a[i] by {
                    assert(t[m + i] == t.subrange(m, m + a.len())[i]);
                }
                if k == 0 || k == 1 {
                    if k == 0 {
                        assert(a =~= seq![92u8, 123, 123, 123]);
                    } else {
                        assert(a =~= seq![92u8, 123, 123]);
                    }
                    assert(a[1] == 123 && a[2] == 123);
                    assert(t[m + 1] == a[1]);
                    assert(t[m + 2] == a[2]);
                    assert(t[m + 2] == 123);
                    assert(false);
                } else if k == 4 {
                    assert(a =~= seq![123u8]);
                    assert(a[0] == 123);
                    assert(t[m + 0] == a[0]);
                    assert(t[m] == 123);
                    assert(m > f);
                    assert(t[m - 1] == 92);
                    assert(t.subrange(m - 1, m + 1) =~= anchors()[2]);
                    assert(has_at(t, m - 1, anchors()[2]));
                    assert(false);
                } else if k == 5 {
                    assert(has_at(t, m, lit_comment_open())) by {
                        assert(a =~= lit_comment_open());
                    }
                    assert(m > f);
                    assert(t[m - 1] == 92);
                    assert(t.subrange(m, m + 4) =~= lit_comment_open());
                    assert(t.subrange(m - 1, m + 4) =~= anchors()[3]);
                    assert(has_at(t, m - 1, anchors()[3]));
                    assert(false);
                } else if k >= 6 {
                    assert(a == lit_key() || a == lit_value() || a == lit_index()) by {
                        if k == 6 {
                            assert(a =~= lit_key());
                        } else if k == 7 {
                            assert(a =~= lit_value());
                        } else {
                            assert(a =~= lit_index());
                        }
                    }
                    assert(false);
                } else {
                    let l = a.len() as int;
                    assert(escape_at(t, m)) by {
                        if k == 3 {
                            assert(t.subrange(m + 1, m + 5) =~= lit_comment_open());
                        }
                    }
                    assert forall|j: int| m + 1 <= j < m + l implies !#[trigger] escape_at(t, j) by {
                        assert(t[j] == a[j - m]);
                    }
                    assert(!byte_is(t, m + l, 123) && !has_at(t, m + l, lit_comment_open())) by {
                        assert(t[m + l - 1] == a[l - 1]);
                        if has_at(t, m + l, lit_comment_open()) {
                            assert(t[m + l - 1] == 92);
                        }
                    }
                    lemma_scan_escaped(t, m + 1, l - 1);
                    let rest = spec_scan(t, m + 1, l - 1).0;
                    assert forall|j: int| base <= j < m implies !#[trigger] escape_at(t, j) by {}
                    lemma_unescape_plain(t, base, m);
                    lemma_unescape_step(t, m);
                    if m > base {
                        let text = Tok::Text(Span::sp(base, m));
                        lemma_joined_cons(t, text, rest);
                        assert(ts =~= seq![text] + rest);
                        assert forall|i: int| 0 <= i < ts.len() implies (#[trigger] ts[i]) is Text by {
                            if i > 0 {
                                assert(ts[i] == rest[i - 1]);
                            }
                        }
                    } else {
                        assert(ts =~= rest);
                        assert(t.subrange(base, m) + unescape(t.subrange(m, n)) =~= unescape(
                            t.subrange(m, n),
                        ));
                    }
                }
            },
        }
    }
}

/// Escaping every opener of `s` (a `\` before each `{` and each `<!--`)
/// makes the tokenizer give back text alone, which joined together is `s`.
/// This holds where `s` holds no bare keyword, which escaping leaves as it
/// is.
pub proof fn law_escape(s: Seq<u8>)
    requires
        escape(s).len() <= usize::MAX,
        no_bare_keyword(s),
    ensures
        all_text(spec_tokens(escape(s)).0),
        spec_tokens(escape(s)).1 == Seq::<Span>::empty(),
        joined(escape(s), spec_tokens(escape(s)).0) == s,
{
    let t = escape(s);
    lemma_escape_shape(s);
    assert forall|i: int|
        !has_at(t, i, lit_key()) && !has_at(t, i, lit_value()) && !has_at(t, i, lit_index()) by {
        if has_at(t, i, lit_key()) {
            lemma_escape_keywords(s, lit_key(), i);
        }
        if has_at(t, i, lit_value()) {
            lemma_escape_keywords(s, lit_value(), i);
        }
        if has_at(t, i, lit_index()) {
            lemma_escape_keywords(s, lit_index(), i);
        }
    }
    assert(!byte_is(t, 0, 123));
    assert(!has_at(t, 0, lit_comment_open()));
    lemma_scan_escaped(t, 0, 0);
    lemma_unescape_escape(s);
    assert(t.subrange(0, t.len() as int) =~= t);
}

} // verus!
