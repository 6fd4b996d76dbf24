//! The anchor scan: finding the next place in the source where a token, an
//! escaped opener or a bare loop keyword may start. The search itself is
//! done by an Aho-Corasick automaton.
use vstd::prelude::*;
use aho_corasick::{AhoCorasick, Input, MatchKind};
use crate::span::has_at;

verus! {

#[verifier::external_type_specification]
#[verifier::external_body]
pub struct ExAhoCorasick(AhoCorasick);

/// The patterns, in priority order, that a leftmost-first automaton was
/// built from.
pub uninterp spec fn matcher_patterns(ac: AhoCorasick) -> Seq<Seq<u8>>;

/// The lowest index at or after `k` of a pattern that occurs at `pos`.
pub open spec fn first_pattern_at(pats: Seq<Seq<u8>>, h: Seq<u8>, pos: int, k: int) -> Option<int>
    decreases pats.len() - k,
{
    if k < 0 || k >= pats.len() {
        None
    } else if has_at(h, pos, pats[k]) {
        Some(k)
    } else {
        first_pattern_at(pats, h, pos, k + 1)
    }
}

/// The leftmost-first match at or after `from`: the earliest position where
/// some pattern occurs and, of the patterns that occur there, the first in
/// priority order. Gives the pattern's index and the position.
pub open spec fn leftmost_first(pats: Seq<Seq<u8>>, h: Seq<u8>, from: int) -> Option<(int, int)>
    decreases h.len() - from,
{
    if from < 0 || from >= h.len() {
        None
    } else {
        match first_pattern_at(pats, h, from, 0) {
            Some(k) => Some((k, from)),
            None => leftmost_first(pats, h, from + 1),
        }
    }
}

/// Relies on `AhoCorasickBuilder::build` with `MatchKind::LeftmostFirst`:
/// on success the automaton searches for `patterns`, earlier ones first.
/// The build fails only past state, pattern-count or pattern-length limits
/// near 2^31, so a few short patterns always build.
#[verifier::external_body]
fn build_matcher(patterns: &Vec<Vec<u8>>) -> (r: Option<AhoCorasick>)
    ensures
        r matches Some(ac) ==> matcher_patterns(ac) == patterns@.map_values(|p: Vec<u8>| p@),
        patterns@.len() <= 100 && (forall|i: int|
            0 <= i < patterns@.len() ==> patterns@[i]@.len() <= 100) ==> r is Some,
{
    AhoCorasick::builder().match_kind(MatchKind::LeftmostFirst).build(patterns).ok()
}

/// Relies on `AhoCorasick::find` over `hay[from..]`, for an automaton built
/// by `build_matcher` (leftmost-first): the match that starts earliest and,
/// among those, the one of the earliest pattern; as pattern index, start
/// and end in `hay`.
#[verifier::external_body]
fn find_from(ac: &AhoCorasick, hay: &[u8], from: usize) -> (r: Option<(usize, usize, usize)>)
    requires
        from <= hay@.len(),
        forall|k: int| 0 <= k < matcher_patterns(*ac).len() ==> matcher_patterns(*ac)[k].len() > 0,
    ensures
        match leftmost_first(matcher_patterns(*ac), hay@, from as int) {
            None => r is None,
            Some((k, start)) => r == Some(
                (k as usize, start as usize, (start + matcher_patterns(*ac)[k].len()) as usize),
            ),
        },
{
    ac.find(Input::new(hay).span(from..hay.len())).map(
        |m| (m.pattern().as_usize(), m.start(), m.end()),
    )
}

/// The anchors, by index: `\{{{`, `\{{`, `\{`, `\<!--` (escaped openers),
/// `{`, `<!--` (openers), `@key`, `@value`, `@index` (bare keywords).
pub open spec fn anchors() -> Seq<Seq<u8>> {
    seq![
        seq![92u8, 123, 123, 123],
        seq![92u8, 123, 123],
        seq![92u8, 123],
        seq![92u8, 60, 33, 45, 45],
        seq![123u8],
        seq![60u8, 33, 45, 45],
        seq![64u8, 107, 101, 121],
        seq![64u8, 118, 97, 108, 117, 101],
        seq![64u8, 105, 110, 100, 101, 120],
    ]
}

/// A matcher for [`anchors`].
pub struct AnchorScanner {
    ac: AhoCorasick,
}

impl AnchorScanner {
    pub closed spec fn patterns(&self) -> Seq<Seq<u8>> {
        matcher_patterns(self.ac)
    }

    /// Builds the matcher; it always builds for these few short patterns.
    pub fn new() -> (r: Option<AnchorScanner>)
        ensures
            r is Some,
            r matches Some(sc) ==> sc.patterns() == anchors(),
    {
        let mut pats: Vec<Vec<u8>> = Vec::new();
        pats.push(vec![92u8, 123, 123, 123]);
        pats.push(vec![92u8, 123, 123]);
        pats.push(vec![92u8, 123]);
        pats.push(vec![92u8, 60, 33, 45, 45]);
        pats.push(vec![123u8]);
        pats.push(vec![60u8, 33, 45, 45]);
        pats.push(vec![64u8, 107, 101, 121]);
        pats.push(vec![64u8, 118, 97, 108, 117, 101]);
        pats.push(vec![64u8, 105, 110, 100, 101, 120]);
        assert(pats@[0]@.len() <= 100 && pats@[1]@.len() <= 100 && pats@[2]@.len() <= 100
            && pats@[3]@.len() <= 100 && pats@[4]@.len() <= 100 && pats@[5]@.len() <= 100
            && pats@[6]@.len() <= 100 && pats@[7]@.len() <= 100 && pats@[8]@.len() <= 100);
        match build_matcher(&pats) {
            None => None,
            Some(ac) => {
                assert(pats@.map_values(|p: Vec<u8>| p@) =~~= anchors());
                Some(AnchorScanner { ac })
            },
        }
    }

    /// The first anchor at or after `from`: its index, start and end.
    pub fn find(&self, src: &[u8], from: usize) -> (r: Option<(usize, usize, usize)>)
        requires
            self.patterns() == anchors(),
            from <= src@.len(),
        ensures
            match leftmost_first(anchors(), src@, from as int) {
                None => r is None,
                Some((k, start)) => r == Some(
                    (k as usize, start as usize, (start + anchors()[k].len()) as usize),
                ),
            },
    {
        find_from(&self.ac, src, from)
    }
}

} // verus!
