//! Building an automaton from a pattern set, and searching texts with it.
use vstd::prelude::*;
use daachorse::charwise::CharwiseDoubleArrayAhoCorasick;
use crate::daac::{
    automaton_heap_bytes,
    automaton_kind,
    automaton_patterns,
    build_automaton,
    heap_bytes_of,
    within_limits,
    leftmost_bytes,
    leftmost_of,
    overlapping_bytes,
    overlapping_of,
    standard_bytes,
    standard_of,
};
use crate::kinds::{ConstructionError, MatchKind, SearchError};
use crate::model::{
    all_overlapping_matches,
    first_at_start,
    longest_at_start,
    all_sound,
    char_form,
    earliest_at,
    earliest_values,
    is_occurrence,
    leftmost,
    non_overlapping,
    occurs_at,
    produced_by,
    resume_at,
    sourced_overlapping,
    dedup_patterns,
    dedup_prefix,
    distinct_texts,
    first_with_text,
    has_text,
    texts_of,
    valid_patterns,
    leftmost_first_matches,
    leftmost_longest_matches,
    overlapping_matches,
    pattern_seq,
    standard_matches,
};
use crate::offsets::to_char_positions;

verus! {

/// An immutable multi-pattern automaton together with the match kind it was
/// built under.
///
/// The inner automaton holds each distinct pattern text once, with the number
/// of its group as value; the tables map those groups back to the patterns
/// and values that were given.
pub struct Automaton {
    aho: CharwiseDoubleArrayAhoCorasick<usize>,
    kind: MatchKind,
    /// For each given pattern, the group of its text.
    group_of: Vec<usize>,
    /// For each given pattern, its value.
    values: Vec<usize>,
    /// For each group, the value of the first pattern with its text.
    first_value: Vec<usize>,
    pats: Ghost<Seq<(Seq<char>, usize)>>,
    /// For each group, the index of the first pattern with its text.
    first_index: Ghost<Seq<int>>,
}

impl Automaton {
    /// The `(pattern, value)` pairs, in insertion order.
    pub closed spec fn patterns(&self) -> Seq<(Seq<char>, usize)> {
        self.pats@
    }

    /// The match kind fixed at construction.
    pub closed spec fn kind(&self) -> MatchKind {
        self.kind
    }

    /// Bytes of heap that the automaton's tables take.
    pub closed spec fn heap_size(&self) -> usize {
        heap_bytes_of(self.aho)
    }

    /// The distinct texts, each with its group number as value.
    pub closed spec fn groups(&self) -> Seq<(Seq<char>, usize)> {
        automaton_patterns(self.aho)
    }

    #[verifier::type_invariant]
    closed spec fn inv(&self) -> bool {
        let pats = self.pats@;
        let d = automaton_patterns(self.aho);
        let fi = self.first_index@;
        &&& automaton_kind(self.aho) == self.kind
        &&& valid_patterns(pats)
        &&& valid_patterns(d)
        &&& distinct_texts(d)
        &&& d.len() == fi.len() == self.first_value@.len()
        &&& forall|g: int|
            #![trigger d[g]]
            #![trigger fi[g]]
            0 <= g < d.len() ==> 0 <= fi[g] < pats.len() && d[g].0 == pats[fi[g]].0
                && d[g].1 == g && self.first_value@[g] == pats[fi[g]].1 && first_with_text(
                pats,
                fi[g],
            )
        &&& forall|g: int, h: int| 0 <= g < h < d.len() ==> #[trigger] fi[g] < #[trigger] fi[h]
        &&& self.group_of@.len() == pats.len() == self.values@.len()
        &&& forall|k: int|
            0 <= k < pats.len() ==> (#[trigger] self.group_of@[k]) < d.len()
                && d[self.group_of@[k] as int].0 == pats[k].0 && self.values@[k] == pats[k].1
    }

    /// What a standard non-overlapping scan of `text` reports.
    pub closed spec fn standard_result(&self, text: Seq<char>) -> Seq<(usize, usize, usize)> {
        self.with_first_values(char_form(text, standard_of(self.groups(), text)))
    }

    /// What an overlapping scan of `text` reports.
    pub closed spec fn overlapping_result(&self, text: Seq<char>) -> Seq<(usize, usize, usize)> {
        self.with_all_values(char_form(text, overlapping_of(self.groups(), text)))
    }

    /// What a leftmost scan of `text` reports.
    pub closed spec fn leftmost_result(&self, text: Seq<char>) -> Seq<(usize, usize, usize)> {
        self.with_first_values(
            char_form(
                text,
                leftmost_of(self.groups(), self.kind == MatchKind::LeftmostLongest, text),
            ),
        )
    }

    /// Group matches with the group's first value in place of the group.
    closed spec fn with_first_values(&self, c: Seq<(usize, usize, usize)>) -> Seq<
        (usize, usize, usize),
    > {
        c.map_values(|m: (usize, usize, usize)| (m.0, m.1, self.first_value@[m.2 as int]))
    }

    /// The members of group `g` among the first `j` patterns, as matches at `m`.
    closed spec fn members_upto(&self, m: (usize, usize, usize), j: int) -> Seq<
        (usize, usize, usize),
    >
        decreases j,
    {
        if j <= 0 {
            Seq::empty()
        } else if self.group_of@[j - 1] == m.2 {
            self.members_upto(m, j - 1).push((m.0, m.1, self.values@[j - 1]))
        } else {
            self.members_upto(m, j - 1)
        }
    }

    /// The matches of the first `n` group matches, each for every member of its group.
    closed spec fn expand_upto(&self, c: Seq<(usize, usize, usize)>, n: int) -> Seq<
        (usize, usize, usize),
    >
        decreases n,
    {
        if n <= 0 {
            Seq::empty()
        } else {
            self.expand_upto(c, n - 1) + self.members_upto(c[n - 1], self.values@.len() as int)
        }
    }

    /// Group matches with one match for each pattern of the group, in insertion order.
    closed spec fn with_all_values(&self, c: Seq<(usize, usize, usize)>) -> Seq<
        (usize, usize, usize),
    > {
        self.expand_upto(c, c.len() as int)
    }
}

/// The error that building from `pats` gives before any automaton is made.
pub open spec fn input_error(pats: Seq<(Seq<char>, usize)>) -> Option<ConstructionError> {
    if pats.len() == 0 {
        Some(ConstructionError::EmptyPatternSet)
    } else if exists|k: int| 0 <= k < pats.len() && (#[trigger] pats[k]).0.len() == 0 {
        Some(ConstructionError::EmptyPattern)
    } else {
        None
    }
}

/// What building from `pats` under `kind` gives: the input error where there
/// is one; otherwise, where the automaton's size limits admit the distinct
/// texts, an automaton that holds `pats` under `kind`, and past those limits
/// the error that says which limit was exceeded.
pub open spec fn build_outcome(
    pats: Seq<(Seq<char>, usize)>,
    kind: MatchKind,
    r: Result<Automaton, ConstructionError>,
) -> bool {
    match input_error(pats) {
        Some(e) => r == Err::<Automaton, ConstructionError>(e),
        None => {
            &&& (r is Ok <==> within_limits(texts_of(dedup_patterns(pats)), kind))
            &&& match r {
                Ok(a) => a.patterns() == pats && a.kind() == kind,
                Err(e) => e == ConstructionError::InvalidArgument || e
                    == ConstructionError::AutomatonScale,
            }
        },
    }
}

/// Builds an automaton over `patvals` under `match_kind`.
///
/// An empty pattern set and an empty pattern are refused, and so is a set too
/// large for the automaton's tables. A text may be given more than once.
pub fn build_tree(patvals: Vec<(&str, usize)>, match_kind: MatchKind) -> (r: Result<
    Automaton,
    ConstructionError,
>)
    ensures
        build_outcome(pattern_seq(patvals@), match_kind, r),
{
    if patvals.len() == 0 {
        return Err(ConstructionError::EmptyPatternSet);
    }
    let mut k: usize = 0;
    while k < patvals.len()
        invariant
            k <= patvals@.len(),
            forall|j: int| 0 <= j < k ==> (#[trigger] patvals@[j]).0@.len() > 0,
        decreases patvals@.len() - k,
    {
        if patvals[k].0.is_empty() {
            assert(pattern_seq(patvals@)[k as int].0.len() == 0);
            return Err(ConstructionError::EmptyPattern);
        }
        k = k + 1;
    }
    let ghost pats = pattern_seq(patvals@);
    assert(valid_patterns(pats));
    assert(!(exists|k: int| 0 <= k < pats.len() && (#[trigger] pats[k]).0.len() == 0));
    assert(input_error(pats) is None);
    let ghost firsts: Seq<(Seq<char>, usize)> = Seq::empty();
    let ghost fi: Seq<int> = Seq::empty();
    let mut kept: Vec<(&str, usize)> = Vec::new();
    let mut seen: Vec<String> = Vec::new();
    let mut first_value: Vec<usize> = Vec::new();
    let mut group_of: Vec<usize> = Vec::new();
    let mut values: Vec<usize> = Vec::new();
    let mut i: usize = 0;
    while i < patvals.len()
        invariant
            pats == pattern_seq(patvals@),
            valid_patterns(pats),
            i <= patvals@.len(),
            firsts == dedup_prefix(pats, i as int),
            kept@.len() == firsts.len() == seen@.len() == fi.len() == first_value@.len(),
            forall|g: int|
                0 <= g < kept@.len() ==> (#[trigger] kept@[g]).0@ == firsts[g].0 && kept@[g].1
                    == g && seen@[g]@ == firsts[g].0,
            forall|g: int|
                0 <= g < fi.len() ==> 0 <= #[trigger] fi[g] < i && firsts[g] == pats[fi[g]]
                    && first_value@[g] == pats[fi[g]].1 && first_with_text(pats, fi[g]),
            forall|g: int, h: int| 0 <= g < h < fi.len() ==> #[trigger] fi[g] < #[trigger] fi[h],
            forall|t: Seq<char>|
                #[trigger] has_text(pats, t, i as int) <==> has_text(
                    firsts,
                    t,
                    firsts.len() as int,
                ),
            distinct_texts(firsts),
            forall|g: int| 0 <= g < seen@.len() ==> (#[trigger] seen@[g])@ == firsts[g].0,
            forall|g: int| 0 <= g < firsts.len() ==> (#[trigger] firsts[g]).0.len() > 0,
            i > 0 ==> firsts.len() > 0,
            group_of@.len() == i == values@.len(),
            forall|k: int|
                0 <= k < i ==> (#[trigger] group_of@[k]) < firsts.len() && firsts[group_of@[
                    k
                ] as int].0 == pats[k].0 && values@[k] == pats[k].1,
        decreases patvals@.len() - i,
    {
        let (p, v) = patvals[i];
        assert(pats[i as int] == (p@, v));
        let t = p.to_owned();
        let mut found: Option<usize> = None;
        let mut m: usize = 0;
        while m < seen.len()
            invariant
                m <= seen@.len(),
                seen@.len() == firsts.len(),
                forall|q: int| 0 <= q < seen@.len() ==> (#[trigger] seen@[q])@ == firsts[q].0,
                found is None ==> !has_text(firsts, t@, m as int),
                found is Some ==> found->Some_0 < firsts.len() && firsts[found->Some_0 as int].0
                    == t@,
            decreases seen@.len() - m,
        {
            if found.is_none() && seen[m].eq(&t) {
                found = Some(m);
            }
            proof {
                if found is None && has_text(firsts, t@, m + 1) {
                    let j = choose|j: int| 0 <= j < m + 1 && (#[trigger] firsts[j]).0 == t@;
                    assert(j < m);
                }
            }
            m = m + 1;
        }
        let ghost old_firsts = firsts;
        let ghost old_fi = fi;
        assert(found is Some <==> has_text(pats, pats[i as int].0, i as int)) by {
            if found is Some {
                assert(has_text(firsts, t@, firsts.len() as int));
            }
        }
        match found {
            Some(g) => {
                group_of.push(g);
            },
            None => {
                let g = kept.len();
                kept.push((p, g));
                seen.push(t);
                first_value.push(v);
                group_of.push(g);
                proof {
                    firsts = firsts.push(pats[i as int]);
                    fi = fi.push(i as int);
                    assert forall|a: int, b: int|
                        0 <= a < b < firsts.len() implies (#[trigger] firsts[a]).0
                        != (#[trigger] firsts[b]).0 by {
                        if b == firsts.len() - 1 {
                            if firsts[a].0 == firsts[b].0 {
                                assert(has_text(old_firsts, t@, old_firsts.len() as int));
                            }
                        }
                    }
                }
            },
        }
        values.push(v);
        assert forall|s: Seq<char>| #[trigger] has_text(pats, s, i + 1) <==> has_text(
            firsts,
            s,
            firsts.len() as int,
        ) by {
            if has_text(pats, s, i + 1) {
                let j = choose|j: int| 0 <= j < i + 1 && (#[trigger] pats[j]).0 == s;
                if j < i {
                    assert(has_text(pats, s, i as int));
                    let q = choose|q: int|
                        0 <= q < old_firsts.len() && (#[trigger] old_firsts[q]).0 == s;
                    assert(firsts[q].0 == s);
                } else if found is Some {
                    let q = choose|q: int|
                        0 <= q < old_firsts.len() && (#[trigger] old_firsts[q]).0 == s;
                    assert(firsts[q].0 == s);
                } else {
                    assert(firsts[old_firsts.len() as int].0 == s);
                }
            }
            if has_text(firsts, s, firsts.len() as int) {
                let q = choose|q: int| 0 <= q < firsts.len() && (#[trigger] firsts[q]).0 == s;
                if q < old_firsts.len() {
                    assert(old_firsts[q].0 == s);
                    assert(has_text(pats, s, i as int));
                    let j = choose|j: int| 0 <= j < i && (#[trigger] pats[j]).0 == s;
                    assert(pats[j].0 == s);
                } else {
                    assert(pats[i as int].0 == s);
                }
            }
        }
        assert forall|k: int| 0 <= k < i + 1 implies (#[trigger] group_of@[k]) < firsts.len()
            && firsts[group_of@[k] as int].0 == pats[k].0 && values@[k] == pats[k].1 by {
            if k < i {
                assert(old_firsts.len() <= firsts.len());
                assert(firsts[group_of@[k] as int] == old_firsts[group_of@[k] as int]);
            }
        }
        assert forall|g: int| 0 <= g < fi.len() implies 0 <= #[trigger] fi[g] < i + 1
            && firsts[g] == pats[fi[g]] && first_value@[g] == pats[fi[g]].1 && first_with_text(
            pats,
            fi[g],
        ) by {
            if g < old_fi.len() {
                assert(fi[g] == old_fi[g]);
            }
        }
        assert(dedup_prefix(pats, i + 1) == if found is Some {
            dedup_prefix(pats, i as int)
        } else {
            dedup_prefix(pats, i as int).push(pats[i as int])
        });
        i = i + 1;
    }
    assert(pats.len() == i);
    assert(texts_of(pattern_seq(kept@)) =~= texts_of(dedup_patterns(pats)));
    assert(valid_patterns(pattern_seq(kept@)));
    assert(distinct_texts(pattern_seq(kept@)));
    match build_automaton(&kept, match_kind) {
        Ok(aho) => {
            assert(automaton_patterns(aho) == pattern_seq(kept@));
            Ok(
                Automaton {
                    aho,
                    kind: match_kind,
                    group_of,
                    values,
                    first_value,
                    pats: Ghost(pats),
                    first_index: Ghost(fi),
                },
            )
        },
        Err(e) => Err(e),
    }
}

impl Automaton {
    /// Each group match with the value of the group's first pattern.
    fn first_values_of(&self, text: Ghost<Seq<char>>, c: Vec<(usize, usize, usize)>) -> (r: Vec<
        (usize, usize, usize),
    >)
        requires
            all_sound(text@, self.groups(), c@),
        ensures
            r@ == self.with_first_values(c@),
    {
        proof {
            use_type_invariant(self);
        }
        let mut r: Vec<(usize, usize, usize)> = Vec::new();
        let mut n: usize = 0;
        while n < c.len()
            invariant
                n <= c@.len(),
                all_sound(text@, self.groups(), c@),
                self.first_value@.len() == self.groups().len(),
                forall|g: int| 0 <= g < self.groups().len() ==> (#[trigger] self.groups()[g]).1 == g,
                r@ == self.with_first_values(c@).subrange(0, n as int),
            decreases c@.len() - n,
        {
            let m = c[n];
            assert(is_occurrence(text@, self.groups(), c@[n as int]));
            let g = m.2;
            r.push((m.0, m.1, self.first_value[g]));
            n = n + 1;
            assert(r@ =~= self.with_first_values(c@).subrange(0, n as int));
        }
        assert(r@ =~= self.with_first_values(c@));
        r
    }

    /// Facts that hold of `with_first_values` for any match list that is sound over the groups.
    proof fn lemma_first_values(&self, text: Seq<char>, c: Seq<(usize, usize, usize)>)
        requires
            self.inv(),
            all_sound(text, self.groups(), c),
        ensures
            all_sound(text, self.patterns(), self.with_first_values(c)),
            earliest_values(text, self.patterns(), self.with_first_values(c)),
            forall|n: int|
                0 <= n < c.len() ==> (#[trigger] self.with_first_values(c)[n]).0 == c[n].0
                    && self.with_first_values(c)[n].1 == c[n].1,
            self.with_first_values(c).len() == c.len(),
            forall|n: int|
                #![trigger c[n]]
                0 <= n < c.len() ==> produced_by(text, self.groups(), c[n].2 as int, c[n]),
    {
        let r = self.with_first_values(c);
        let pats = self.patterns();
        let d = self.groups();
        assert forall|n: int|
            #![trigger c[n]]
            #![trigger r[n]]
            0 <= n < c.len() implies produced_by(
            text,
            d,
            c[n].2 as int,
            c[n],
        ) && produced_by(text, pats, self.first_index@[c[n].2 as int], r[n]) && first_with_text(
            pats,
            self.first_index@[c[n].2 as int],
        ) by {
            assert(is_occurrence(text, d, c[n]));
            let g = choose|g: int| produced_by(text, d, g, c[n]);
            assert(c[n].2 == g);
        }
        assert(r.len() == c.len());
        assert forall|n: int| 0 <= n < r.len() implies is_occurrence(text, pats, #[trigger] r[n]) by {
            assert(produced_by(text, d, c[n].2 as int, c[n]));
        }
        assert(earliest_values(text, pats, r)) by {
            assert forall|n: int| 0 <= n < r.len() implies earliest_at(text, pats, #[trigger] r[n]) by {
                let k = self.first_index@[c[n].2 as int];
                assert(produced_by(text, pats, k, r[n]) && first_with_text(pats, k));
            }
        }

    }

    /// An occurrence of a given pattern is an occurrence of its group's text.
    proof fn lemma_group_occurs(&self, text: Seq<char>, k: int, s: int)
        requires
            self.inv(),
            0 <= k < self.patterns().len(),
            occurs_at(text, self.patterns()[k].0, s),
        ensures
            0 <= self.group_of@[k] < self.groups().len(),
            occurs_at(text, self.groups()[self.group_of@[k] as int].0, s),
            self.groups()[self.group_of@[k] as int].0.len() == self.patterns()[k].0.len(),
            self.first_index@[self.group_of@[k] as int] <= k,
    {
        let g = self.group_of@[k] as int;
        let f = self.first_index@[g];
        if k < f {
            assert(has_text(self.patterns(), self.patterns()[f].0, f));
        }
    }

    /// Leftmost scanning over the groups is leftmost scanning over the patterns.
    #[verifier::rlimit(50)]
    proof fn lemma_lift_leftmost(&self, text: Seq<char>, c: Seq<(usize, usize, usize)>)
        requires
            self.inv(),
            leftmost(text, self.groups(), c),
        ensures
            leftmost(text, self.patterns(), self.with_first_values(c)),
            earliest_values(text, self.patterns(), self.with_first_values(c)),
    {
        let pats = self.patterns();
        let d = self.groups();
        self.lemma_first_values(text, c);
        assert forall|n: int, k: int, s: int|
            0 <= n <= self.with_first_values(c).len() && 0 <= k < pats.len() && #[trigger] occurs_at(text, pats[k].0, s)
                && resume_at(self.with_first_values(c), n) <= s implies n < self.with_first_values(c).len() && (#[trigger] self.with_first_values(c)[n]).0 <= s by {
            self.lemma_group_occurs(text, k, s);
            let g = self.group_of@[k] as int;
            if n > 0 {
                assert(self.with_first_values(c)[n - 1].1 == c[n - 1].1);
            }
            assert(resume_at(c, n) == resume_at(self.with_first_values(c), n));
            lemma_leftmost_at(text, d, c, n, g, s);
        }
        assert(non_overlapping(self.with_first_values(c)));
    }

    /// Longest at each start over the groups is longest over the patterns.
    #[verifier::rlimit(50)]
    proof fn lemma_lift_longest(&self, text: Seq<char>, c: Seq<(usize, usize, usize)>)
        requires
            self.inv(),
            all_sound(text, self.groups(), c),
            longest_at_start(text, self.groups(), c),
        ensures
            longest_at_start(text, self.patterns(), self.with_first_values(c)),
    {
        let r = self.with_first_values(c);
        let pats = self.patterns();
        let d = self.groups();
        self.lemma_first_values(text, c);
        assert forall|n: int, k: int|
            0 <= n < r.len() && 0 <= k < pats.len() && #[trigger] occurs_at(
                text,
                pats[k].0,
                (#[trigger] r[n]).0 as int,
            ) implies r[n].0 + pats[k].0.len() <= r[n].1 by {
            self.lemma_group_occurs(text, k, r[n].0 as int);
            let g = self.group_of@[k] as int;
            assert(occurs_at(text, d[g].0, c[n].0 as int));
        }
    }

    /// Earliest inserted at each start over the groups is earliest over the patterns.
    #[verifier::rlimit(50)]
    proof fn lemma_lift_first(&self, text: Seq<char>, c: Seq<(usize, usize, usize)>)
        requires
            self.inv(),
            all_sound(text, self.groups(), c),
            first_at_start(text, self.groups(), c),
        ensures
            first_at_start(text, self.patterns(), self.with_first_values(c)),
    {
        let r = self.with_first_values(c);
        let pats = self.patterns();
        let d = self.groups();
        self.lemma_first_values(text, c);
        assert forall|n: int, k: int|
            0 <= n < r.len() && 0 <= k < pats.len() && #[trigger] occurs_at(
                text,
                pats[k].0,
                (#[trigger] r[n]).0 as int,
            ) implies exists|j: int| 0 <= j <= k && produced_by(text, pats, j, r[n]) by {
            self.lemma_group_occurs(text, k, r[n].0 as int);
            let g = self.group_of@[k] as int;
            assert(occurs_at(text, d[g].0, c[n].0 as int));
            let j = choose|j: int| 0 <= j <= g && produced_by(text, d, j, c[n]);
            assert(produced_by(text, d, c[n].2 as int, c[n]));
            let f = self.first_index@[j];
            if j < g {
                assert(self.first_index@[j] < self.first_index@[g]);
            }
            assert(produced_by(text, pats, f, r[n]));
        }
    }

    /// The standard policy over the groups is the standard policy over the patterns.
    #[verifier::rlimit(50)]
    proof fn lemma_lift_standard(&self, text: Seq<char>, c: Seq<(usize, usize, usize)>)
        requires
            self.inv(),
            standard_matches(text, self.groups(), c),
        ensures
            standard_matches(text, self.patterns(), self.with_first_values(c)),
            earliest_values(text, self.patterns(), self.with_first_values(c)),
    {
        let pats = self.patterns();
        let d = self.groups();
        self.lemma_first_values(text, c);
        assert forall|n: int, k: int, s: int|
            0 <= n <= self.with_first_values(c).len() && 0 <= k < pats.len() && #[trigger] occurs_at(text, pats[k].0, s)
                && resume_at(self.with_first_values(c), n) <= s implies n < self.with_first_values(c).len() && (#[trigger] self.with_first_values(c)[n]).1 <= s
            + pats[k].0.len() && (self.with_first_values(c)[n].1 == s + pats[k].0.len() ==> self.with_first_values(c)[n].0 <= s) by {
            self.lemma_group_occurs(text, k, s);
            let g = self.group_of@[k] as int;
            if n > 0 {
                assert(self.with_first_values(c)[n - 1].1 == c[n - 1].1);
            }
            assert(resume_at(c, n) == resume_at(self.with_first_values(c), n));
            lemma_standard_at(text, d, c, n, g, s);
        }
        assert(non_overlapping(self.with_first_values(c)));
    }
}

/// One instance of the leftmost rule.
proof fn lemma_leftmost_at(
    text: Seq<char>,
    d: Seq<(Seq<char>, usize)>,
    c: Seq<(usize, usize, usize)>,
    n: int,
    g: int,
    s: int,
)
    requires
        leftmost(text, d, c),
        0 <= n <= c.len(),
        0 <= g < d.len(),
        occurs_at(text, d[g].0, s),
        resume_at(c, n) <= s,
    ensures
        n < c.len() && c[n].0 <= s,
{
    assert(c[n] == c[n]);
}

/// One instance of the standard rule.
proof fn lemma_standard_at(
    text: Seq<char>,
    d: Seq<(Seq<char>, usize)>,
    c: Seq<(usize, usize, usize)>,
    n: int,
    g: int,
    s: int,
)
    requires
        standard_matches(text, d, c),
        0 <= n <= c.len(),
        0 <= g < d.len(),
        occurs_at(text, d[g].0, s),
        resume_at(c, n) <= s,
    ensures
        n < c.len() && c[n].1 <= s + d[g].0.len() && (c[n].1 == s + d[g].0.len() ==> c[n].0 <= s),
{
    assert(c[n] == c[n]);
}

/// Leftmost non-overlapping matches, under the policy the automaton was built
/// with: longest at each start, or earliest inserted at each start. A text
/// given more than once reports the value it was first given with.
pub fn leftmost_find_iter(resource: &Automaton, haystack: &str) -> (r: Result<
    Vec<(usize, usize, usize)>,
    SearchError,
>)
    ensures
        r is Err <==> resource.kind() == MatchKind::Standard,
        r is Err ==> r->Err_0 == SearchError::PolicyMismatch,
        r is Ok ==> r->Ok_0@ == resource.leftmost_result(haystack@),
        r is Ok ==> earliest_values(haystack@, resource.patterns(), r->Ok_0@),
        r is Ok && resource.kind() == MatchKind::LeftmostLongest ==> leftmost_longest_matches(
            haystack@,
            resource.patterns(),
            r->Ok_0@,
        ),
        r is Ok && resource.kind() == MatchKind::LeftmostFirst ==> leftmost_first_matches(
            haystack@,
            resource.patterns(),
            r->Ok_0@,
        ),
{
    proof {
        use_type_invariant(resource);
    }
    if resource.kind == MatchKind::Standard {
        return Err(SearchError::PolicyMismatch);
    }
    let raw = leftmost_bytes(&resource.aho, haystack);
    let c = to_char_positions(haystack, &raw);
    let ghost text = haystack@;
    let ghost d = resource.groups();
    let ghost pats = resource.patterns();
    assert(leftmost(text, d, c@));
    let r = resource.first_values_of(Ghost(text), c);
    proof {
        resource.lemma_lift_leftmost(text, c@);
        if resource.kind == MatchKind::LeftmostLongest {
            resource.lemma_lift_longest(text, c@);
        } else {
            resource.lemma_lift_first(text, c@);
        }
    }
    Ok(r)
}

/// Every occurrence of every pattern, overlapping ones included, ordered by
/// end position, then by start, then by insertion order of the pattern.
pub fn find_overlapping_iter(resource: &Automaton, haystack: &str) -> (r: Result<
    Vec<(usize, usize, usize)>,
    SearchError,
>)
    ensures
        r is Err <==> resource.kind() != MatchKind::Standard,
        r is Err ==> r->Err_0 == SearchError::PolicyMismatch,
        r is Ok ==> r->Ok_0@ == resource.overlapping_result(haystack@),
        r is Ok ==> all_overlapping_matches(haystack@, resource.patterns(), r->Ok_0@),
{
    proof {
        use_type_invariant(resource);
    }
    if resource.kind != MatchKind::Standard {
        return Err(SearchError::PolicyMismatch);
    }
    let raw = overlapping_bytes(&resource.aho, haystack);
    let c = to_char_positions(haystack, &raw);
    let ghost text = haystack@;
    let ghost d = resource.groups();
    let ghost pats = resource.patterns();
    assert(overlapping_matches(text, d, c@));
    let mut r: Vec<(usize, usize, usize)> = Vec::new();
    let ghost mut src: Seq<int> = Seq::empty();
    let ghost mut blk: Seq<int> = Seq::empty();
    let np = resource.values.len();
    let mut n: usize = 0;
    while n < c.len()
        invariant
            n <= c@.len(),
            np == pats.len(),
            resource.values@.len() == np,
            resource.group_of@.len() == np,
            forall|j: int|
                0 <= j < np ==> (#[trigger] resource.group_of@[j]) < d.len() && d[resource.group_of@[
                    j
                ] as int].0 == pats[j].0 && resource.values@[j] == pats[j].1,
            overlapping_matches(text, d, c@),
            r@ == resource.expand_upto(c@, n as int),
            r@.len() == src.len() == blk.len(),
            forall|q: int|
                0 <= q < r@.len() ==> 0 <= (#[trigger] blk[q]) < n && r@[q].0 == c@[blk[q]].0
                    && r@[q].1 == c@[blk[q]].1 && 0 <= src[q] < pats.len()
                    && resource.group_of@[src[q]] == c@[blk[q]].2 && r@[q].2 == pats[src[q]].1,
            forall|q1: int, q2: int|
                0 <= q1 < q2 < r@.len() ==> #[trigger] blk[q1] <= #[trigger] blk[q2] && (blk[q1]
                    == blk[q2] ==> src[q1] < src[q2]),
            forall|b: int, k: int|
                0 <= b < n && 0 <= k < pats.len() && #[trigger] resource.group_of@[k]
                    == #[trigger] c@[b].2 ==> exists|q: int|
                    0 <= q < r@.len() && src[q] == k && blk[q] == b,
        decreases c@.len() - n,
    {
        let m = c[n];
        let ghost before = r@.len();
        let mut k: usize = 0;
        while k < np
            invariant
                n < c@.len(),
                m == c@[n as int],
                k <= np,
                np == pats.len(),
                resource.values@.len() == np,
                resource.group_of@.len() == np,
                forall|j: int|
                    0 <= j < np ==> (#[trigger] resource.group_of@[j]) < d.len() && d[resource.group_of@[
                        j
                    ] as int].0 == pats[j].0 && resource.values@[j] == pats[j].1,
                before <= r@.len(),
                r@ == resource.expand_upto(c@, n as int) + resource.members_upto(m, k as int),
                r@.len() == src.len() == blk.len(),
                forall|q: int|
                    0 <= q < r@.len() ==> 0 <= #[trigger] blk[q] <= n && r@[q].0 == c@[blk[q]].0
                        && r@[q].1 == c@[blk[q]].1 && 0 <= src[q] < pats.len()
                        && resource.group_of@[src[q]] == c@[blk[q]].2 && r@[q].2
                        == pats[src[q]].1,
                forall|q: int| before <= q < r@.len() ==> (#[trigger] blk[q]) == n,
                forall|q: int| before <= q < r@.len() ==> (#[trigger] src[q]) < k,
                forall|q: int| 0 <= q < before ==> (#[trigger] blk[q]) < n,
                forall|q1: int, q2: int|
                    0 <= q1 < q2 < r@.len() ==> #[trigger] blk[q1] <= #[trigger] blk[q2] && (blk[q1]
                        == blk[q2] ==> src[q1] < src[q2]),
                forall|b: int, j: int|
                    0 <= b < n && 0 <= j < pats.len() && #[trigger] resource.group_of@[j]
                        == #[trigger] c@[b].2 ==> exists|q: int|
                        0 <= q < r@.len() && src[q] == j && blk[q] == b,
                forall|j: int|
                    0 <= j < k && #[trigger] resource.group_of@[j] == m.2 ==> exists|q: int|
                        0 <= q < r@.len() && src[q] == j && blk[q] == n,
            decreases np - k,
        {
            proof {
                use_type_invariant(resource);
            }
            if resource.group_of[k] == m.2 {
                let ghost old_r = r@;
                let ghost old_src = src;
                let ghost old_blk = blk;
                r.push((m.0, m.1, resource.values[k]));
                proof {
                    src = src.push(k as int);
                    blk = blk.push(n as int);
                    assert forall|q: int| 0 <= q < r@.len() implies 0 <= #[trigger] blk[q] <= n
                        && r@[q].0 == c@[blk[q]].0 && r@[q].1 == c@[blk[q]].1 && 0 <= src[q]
                        < pats.len() && resource.group_of@[src[q]] == c@[blk[q]].2 && r@[q].2
                        == pats[src[q]].1 && (q >= before ==> blk[q] == n && src[q] < k + 1) by {
                        if q < old_r.len() {
                            assert(src[q] == old_src[q] && blk[q] == old_blk[q] && r@[q]
                                == old_r[q]);
                            if q >= before {
                                assert(old_blk[q] == n);
                            }
                        } else {
                            assert(resource.group_of@[k as int] < d.len());
                        }
                    }
                    assert forall|q: int| before <= q < r@.len() implies (#[trigger] blk[q]) == n
                        && src[q] < k + 1 by {
                        if q < old_r.len() {
                            assert(old_blk[q] == n);
                        }
                    }
                    assert forall|q1: int, q2: int|
                        0 <= q1 < q2 < r@.len() implies #[trigger] blk[q1] <= #[trigger] blk[q2]
                        && (blk[q1] == blk[q2] ==> src[q1] < src[q2]) by {
                        if q2 < old_r.len() {
                            assert(old_blk[q1] <= old_blk[q2]);
                        } else if q1 >= before {
                            assert(old_blk[q1] == n);
                            assert(old_src[q1] < k);
                        } else {
                            assert(old_blk[q1] < n);
                        }
                    }
                    assert(r@ =~= resource.expand_upto(c@, n as int) + resource.members_upto(
                        m,
                        k + 1,
                    ));
                    assert forall|b: int, j: int|
                        0 <= b < n && 0 <= j < pats.len() && #[trigger] resource.group_of@[j]
                            == #[trigger] c@[b].2 implies exists|q: int|
                        0 <= q < r@.len() && src[q] == j && blk[q] == b by {
                        let q = choose|q: int|
                            0 <= q < old_r.len() && old_src[q] == j && old_blk[q] == b;
                        assert(src[q] == j && blk[q] == b);
                    }
                    assert forall|j: int|
                        0 <= j < k + 1 && #[trigger] resource.group_of@[j] == m.2 implies exists|
                        q: int,
                    | 0 <= q < r@.len() && src[q] == j && blk[q] == n by {
                        if j < k {
                            let q = choose|q: int|
                                0 <= q < old_r.len() && old_src[q] == j && old_blk[q] == n;
                            assert(src[q] == j && blk[q] == n);
                        } else {
                            assert(src[old_r.len() as int] == j);
                        }
                    }
                }
            } else {
                assert(r@ =~= resource.expand_upto(c@, n as int) + resource.members_upto(
                    m,
                    k + 1,
                ));
                assert forall|q: int| before <= q < r@.len() implies (#[trigger] blk[q]) == n
                    && src[q] < k + 1 by {
                    assert(blk[q] == n && src[q] < k);
                }
            }
            assert(forall|q: int| before <= q < r@.len() ==> (#[trigger] src[q]) < k + 1) by {
                assert forall|q: int| before <= q < r@.len() implies (#[trigger] src[q]) < k + 1 by {
                    assert(blk[q] == n);
                }
            }
            k = k + 1;
        }
        proof {
            assert(r@ =~= resource.expand_upto(c@, n + 1));
        }
        n = n + 1;
    }
    proof {
        assert forall|q: int| 0 <= q < r@.len() implies produced_by(
            text,
            pats,
            src[q],
            #[trigger] r@[q],
        ) by {
            let b = blk[q];
            assert(is_occurrence(text, d, c@[b]));
            let g = choose|g: int| produced_by(text, d, g, c@[b]);
            assert(g == c@[b].2);
        }
        assert forall|k: int, s: int|
            0 <= k < pats.len() && #[trigger] occurs_at(text, pats[k].0, s) implies exists|n: int|
            0 <= n < r@.len() && src[n] == k && r@[n].0 == s by {
            resource.lemma_group_occurs(text, k, s);
            let g = resource.group_of@[k] as int;
            assert(occurs_at(text, d[g].0, s));
            let b = choose|b: int|
                0 <= b < c@.len() && c@[b].0 == s && c@[b].1 == s + d[g].0.len() && c@[b].2
                    == d[g].1;
            assert(resource.group_of@[k] == c@[b].2);
            let q = choose|q: int| 0 <= q < r@.len() && src[q] == k && blk[q] == b;
            assert(r@[q].0 == s);
        }
        assert forall|q1: int, q2: int| 0 <= q1 < q2 < r@.len() implies (#[trigger] r@[q1]).1 < (
        #[trigger] r@[q2]).1 || (r@[q1].1 == r@[q2].1 && (r@[q1].0 < r@[q2].0 || (r@[q1].0
            == r@[q2].0 && src[q1] < src[q2]))) by {
            assert(blk[q1] <= blk[q2]);
            if blk[q1] < blk[q2] {
                assert(c@[blk[q1]].1 < c@[blk[q2]].1 || (c@[blk[q1]].1 == c@[blk[q2]].1
                    && c@[blk[q1]].0 < c@[blk[q2]].0));
            }
        }
        assert(sourced_overlapping(text, pats, r@, src));
    }
    Ok(r)
}

/// Non-overlapping matches of the standard policy: from where the previous
/// match ended, the occurrence that ends first, and of those the longest. A
/// text given more than once reports the value it was first given with.
pub fn find_iter(resource: &Automaton, haystack: &str) -> (r: Result<
    Vec<(usize, usize, usize)>,
    SearchError,
>)
    ensures
        r is Err <==> resource.kind() != MatchKind::Standard,
        r is Err ==> r->Err_0 == SearchError::PolicyMismatch,
        r is Ok ==> r->Ok_0@ == resource.standard_result(haystack@),
        r is Ok ==> standard_matches(haystack@, resource.patterns(), r->Ok_0@),
        r is Ok ==> earliest_values(haystack@, resource.patterns(), r->Ok_0@),
{
    proof {
        use_type_invariant(resource);
    }
    if resource.kind != MatchKind::Standard {
        return Err(SearchError::PolicyMismatch);
    }
    let raw = standard_bytes(&resource.aho, haystack);
    let c = to_char_positions(haystack, &raw);
    let ghost text = haystack@;
    let ghost d = resource.groups();
    let ghost pats = resource.patterns();
    assert(standard_matches(text, d, c@));
    let r = resource.first_values_of(Ghost(text), c);
    proof {
        resource.lemma_lift_standard(text, c@);
    }
    Ok(r)
}

/// The match kind the automaton was built under.
pub fn get_match_kind(resource: &Automaton) -> (r: MatchKind)
    ensures
        r == resource.kind(),
{
    resource.kind
}

/// Bytes of heap that the automaton's tables take; never zero.
pub fn tree_heap_bytes(resource: &Automaton) -> (r: usize)
    ensures
        r == resource.heap_size(),
        r > 0,
{
    automaton_heap_bytes(&resource.aho)
}

} // verus!
