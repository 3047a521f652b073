//! General properties of building and searching.
use vstd::prelude::*;
use crate::automaton::{build_outcome, Automaton};
use crate::daac::within_limits;
use crate::kinds::{ConstructionError, MatchKind};
use crate::model::{
    all_overlapping_matches,
    dedup_patterns,
    first_at_start,
    is_occurrence,
    leftmost_first_matches,
    non_overlapping,
    occurs_at,
    produced_by,
    sourced_overlapping,
    texts_of,
    valid_patterns,
};

verus! {

/// An automaton that was built reports back the match kind it was built under.
pub proof fn lemma_match_kind_round_trip(
    pats: Seq<(Seq<char>, usize)>,
    kind: MatchKind,
    r: Result<Automaton, ConstructionError>,
)
    requires
        build_outcome(pats, kind, r),
        r is Ok,
    ensures
        r->Ok_0.kind() == kind,
{
}

/// A non-empty set of non-empty patterns builds, within the automaton's size
/// limits, and the automaton reports back the requested kind.
pub proof fn lemma_build_succeeds(
    pats: Seq<(Seq<char>, usize)>,
    kind: MatchKind,
    r: Result<Automaton, ConstructionError>,
)
    requires
        build_outcome(pats, kind, r),
        valid_patterns(pats),
        within_limits(texts_of(dedup_patterns(pats)), kind),
    ensures
        r is Ok,
        r->Ok_0.kind() == kind,
        r->Ok_0.patterns() == pats,
{
    assert(!(exists|k: int| 0 <= k < pats.len() && (#[trigger] pats[k]).0.len() == 0));
}

/// The heap size of an automaton is one value for its whole life.
pub proof fn lemma_heap_size_stable(a: Automaton, first: usize, second: usize)
    requires
        first == a.heap_size(),
        second == a.heap_size(),
    ensures
        first == second,
{
}

/// Every overlapping match is an occurrence of some pattern.
pub proof fn lemma_overlapping_sound(
    text: Seq<char>,
    pats: Seq<(Seq<char>, usize)>,
    r: Seq<(usize, usize, usize)>,
    n: int,
)
    requires
        all_overlapping_matches(text, pats, r),
        0 <= n < r.len(),
    ensures
        exists|k: int| produced_by(text, pats, k, r[n]),
{
    let src = choose|src: Seq<int>| sourced_overlapping(text, pats, r, src);
    assert(produced_by(text, pats, src[n], r[n]));
}

/// The earliest inserted pattern that occurs at `s`.
pub proof fn lemma_first_occurring(text: Seq<char>, pats: Seq<(Seq<char>, usize)>, s: int, k: int) -> (m: int)
    requires
        0 <= k < pats.len(),
        occurs_at(text, pats[k].0, s),
    ensures
        0 <= m <= k,
        occurs_at(text, pats[m].0, s),
        forall|j: int| 0 <= j < m ==> !occurs_at(text, #[trigger] pats[j].0, s),
    decreases k,
{
    if exists|j: int| 0 <= j < k && occurs_at(text, #[trigger] pats[j].0, s) {
        let j = choose|j: int| 0 <= j < k && occurs_at(text, #[trigger] pats[j].0, s);
        lemma_first_occurring(text, pats, s, j)
    } else {
        k
    }
}

/// Under leftmost-first semantics each match comes from a pattern that occurs
/// at its start while no earlier inserted pattern does.
pub proof fn lemma_leftmost_first_earliest(
    text: Seq<char>,
    pats: Seq<(Seq<char>, usize)>,
    c: Seq<(usize, usize, usize)>,
    n: int,
)
    requires
        leftmost_first_matches(text, pats, c),
        0 <= n < c.len(),
    ensures
        exists|i: int|
            produced_by(text, pats, i, c[n]) && forall|j: int|
                0 <= j < i ==> !occurs_at(text, #[trigger] pats[j].0, c[n].0 as int),
{
    assert(is_occurrence(text, pats, c[n]));
    let k = choose|k: int| produced_by(text, pats, k, c[n]);
    let s = c[n].0 as int;
    let m = lemma_first_occurring(text, pats, s, k);
    assert(first_at_start(text, pats, c));
    assert(occurs_at(text, pats[m].0, c[n].0 as int));
    let j = choose|j: int| 0 <= j <= m && produced_by(text, pats, j, c[n]);
    if j < m {
        assert(!occurs_at(text, pats[j].0, s));
    }
    assert(j == m);
    assert(produced_by(text, pats, m, c[n]));
}

/// Building over an empty pattern set fails, whatever the match kind.
pub proof fn lemma_empty_set_fails(kind: MatchKind, r: Result<Automaton, ConstructionError>)
    requires
        build_outcome(Seq::empty(), kind, r),
    ensures
        r == Err::<Automaton, ConstructionError>(ConstructionError::EmptyPatternSet),
{
}

/// In overlapping matches, each occurrence of each pattern is listed exactly once.
pub proof fn lemma_overlapping_exactly_once(
    text: Seq<char>,
    pats: Seq<(Seq<char>, usize)>,
    r: Seq<(usize, usize, usize)>,
    src: Seq<int>,
    k: int,
    s: int,
)
    requires
        sourced_overlapping(text, pats, r, src),
        0 <= k < pats.len(),
        occurs_at(text, pats[k].0, s),
    ensures
        exists|n: int| 0 <= n < r.len() && src[n] == k && r[n].0 == s,
        forall|n1: int, n2: int|
            0 <= n1 < r.len() && 0 <= n2 < r.len() && src[n1] == k && src[n2] == k && r[n1].0 == s
                && r[n2].0 == s ==> n1 == n2,
        exists|n: int| 0 <= n < r.len() && r[n] == (s as usize, (s + pats[k].0.len()) as usize, pats[k].1),
{
    let n = choose|n: int| 0 <= n < r.len() && src[n] == k && r[n].0 == s;
    assert(produced_by(text, pats, src[n], r[n]));
    assert forall|n1: int, n2: int|
        0 <= n1 < r.len() && 0 <= n2 < r.len() && src[n1] == k && src[n2] == k && r[n1].0 == s
            && r[n2].0 == s implies n1 == n2 by {
        assert(produced_by(text, pats, src[n1], r[n1]));
        assert(produced_by(text, pats, src[n2], r[n2]));
        if n1 < n2 {
            assert(r[n1].1 < r[n2].1 || (r[n1].1 == r[n2].1 && (r[n1].0 < r[n2].0 || (r[n1].0
                == r[n2].0 && src[n1] < src[n2]))));
        } else if n2 < n1 {
            assert(r[n2].1 < r[n1].1 || (r[n2].1 == r[n1].1 && (r[n2].0 < r[n1].0 || (r[n2].0
                == r[n1].0 && src[n2] < src[n1]))));
        }
    }
}

/// Non-overlapping matches are sorted by start, and each ends before any later one starts.
pub proof fn lemma_non_overlapping_sorted(c: Seq<(usize, usize, usize)>, n: int, m: int)
    requires
        non_overlapping(c),
        0 <= n < m < c.len(),
    ensures
        c[n].0 < c[m].0,
        c[n].1 <= c[m].0,
    decreases m - n,
{
    assert(c[m - 1].1 <= c[m].0);
    assert(c[m - 1].0 < c[m - 1].1);
    if n < m - 1 {
        lemma_non_overlapping_sorted(c, n, m - 1);
    }
}

/// Scanning one text twice with one automaton gives the same matches.
pub proof fn lemma_scan_repeats(
    a: Automaton,
    text: Seq<char>,
    first: Seq<(usize, usize, usize)>,
    second: Seq<(usize, usize, usize)>,
)
    requires
        (first == a.standard_result(text) && second == a.standard_result(text)) || (first
            == a.overlapping_result(text) && second == a.overlapping_result(text)) || (first
            == a.leftmost_result(text) && second == a.leftmost_result(text)),
    ensures
        first == second,
{
}

} // verus!
