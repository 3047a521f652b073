//! Mathematical model of patterns, texts and match sequences.
//!
//! A text is a sequence of characters, a pattern set is a sequence of
//! `(pattern, value)` pairs, and a match is a triple `(start, end, value)`
//! of character positions.
use vstd::prelude::*;

verus! {

/// Number of bytes in the UTF-8 encoding of `c`.
pub open spec fn utf8_width(c: char) -> nat {
    if (c as u32) < 0x80 {
        1
    } else if (c as u32) < 0x800 {
        2
    } else if (c as u32) < 0x10000 {
        3
    } else {
        4
    }
}

/// Byte offset, in the UTF-8 encoding of `text`, of the character position `i`.
pub open spec fn byte_pos(text: Seq<char>, i: int) -> nat
    decreases i,
{
    if i <= 0 {
        0
    } else {
        byte_pos(text, i - 1) + utf8_width(text[i - 1])
    }
}

/// The pattern set with each pattern viewed as its characters.
pub open spec fn pattern_seq(v: Seq<(&str, usize)>) -> Seq<(Seq<char>, usize)> {
    v.map_values(|p: (&str, usize)| (p.0@, p.1))
}

/// The pattern set is non-empty and no pattern is empty.
pub open spec fn valid_patterns(pats: Seq<(Seq<char>, usize)>) -> bool {
    pats.len() > 0 && forall|k: int| 0 <= k < pats.len() ==> (#[trigger] pats[k]).0.len() > 0
}

/// No two patterns of `pats` have the same text.
pub open spec fn distinct_texts(pats: Seq<(Seq<char>, usize)>) -> bool {
    forall|i: int, j: int|
        0 <= i < j < pats.len() ==> (#[trigger] pats[i]).0 != (#[trigger] pats[j]).0
}

/// One of the first `n` patterns of `pats` has the text `t`.
pub open spec fn has_text(pats: Seq<(Seq<char>, usize)>, t: Seq<char>, n: int) -> bool {
    exists|j: int| 0 <= j < n && (#[trigger] pats[j]).0 == t
}

/// The first `n` patterns of `pats`, each text kept only where it first occurs.
pub open spec fn dedup_prefix(pats: Seq<(Seq<char>, usize)>, n: int) -> Seq<(Seq<char>, usize)>
    decreases n,
{
    if n <= 0 {
        Seq::empty()
    } else if has_text(pats, pats[n - 1].0, n - 1) {
        dedup_prefix(pats, n - 1)
    } else {
        dedup_prefix(pats, n - 1).push(pats[n - 1])
    }
}

/// `pats` with each text kept only where it first occurs, in insertion order.
pub open spec fn dedup_patterns(pats: Seq<(Seq<char>, usize)>) -> Seq<(Seq<char>, usize)> {
    dedup_prefix(pats, pats.len() as int)
}

/// The texts of `pats`, in order.
pub open spec fn texts_of(pats: Seq<(Seq<char>, usize)>) -> Seq<Seq<char>> {
    pats.map_values(|p: (Seq<char>, usize)| p.0)
}

/// Pattern `k` is the first of `pats` with its text.
pub open spec fn first_with_text(pats: Seq<(Seq<char>, usize)>, k: int) -> bool {
    !has_text(pats, pats[k].0, k)
}

/// `pat` occurs in `text` starting at character position `s`.
pub open spec fn occurs_at(text: Seq<char>, pat: Seq<char>, s: int) -> bool {
    0 <= s && s + pat.len() <= text.len() && text.subrange(s, s + pat.len()) == pat
}

/// Pattern `k` of `pats` produced the match `m` in `text`.
pub open spec fn produced_by(
    text: Seq<char>,
    pats: Seq<(Seq<char>, usize)>,
    k: int,
    m: (usize, usize, usize),
) -> bool {
    &&& 0 <= k < pats.len()
    &&& occurs_at(text, pats[k].0, m.0 as int)
    &&& m.1 == m.0 + pats[k].0.len()
    &&& m.2 == pats[k].1
}

/// `m` is an occurrence in `text` of some pattern of `pats`.
pub open spec fn is_occurrence(
    text: Seq<char>,
    pats: Seq<(Seq<char>, usize)>,
    m: (usize, usize, usize),
) -> bool {
    exists|k: int| produced_by(text, pats, k, m)
}

/// Every match in `c` is an occurrence of a pattern.
pub open spec fn all_sound(
    text: Seq<char>,
    pats: Seq<(Seq<char>, usize)>,
    c: Seq<(usize, usize, usize)>,
) -> bool {
    forall|n: int| 0 <= n < c.len() ==> is_occurrence(text, pats, #[trigger] c[n])
}

/// The occurrence of pattern `k` at position `s` is listed in `c`.
pub open spec fn listed(
    pats: Seq<(Seq<char>, usize)>,
    c: Seq<(usize, usize, usize)>,
    k: int,
    s: int,
) -> bool {
    exists|n: int|
        0 <= n < c.len() && c[n].0 == s && c[n].1 == s + pats[k].0.len() && c[n].2
            == pats[k].1
}

/// Overlapping semantics: `c` lists every occurrence of every pattern, nothing
/// else, ordered by end position and, at one end position, longest first.
pub open spec fn overlapping_matches(
    text: Seq<char>,
    pats: Seq<(Seq<char>, usize)>,
    c: Seq<(usize, usize, usize)>,
) -> bool {
    &&& all_sound(text, pats, c)
    &&& forall|k: int, s: int|
        0 <= k < pats.len() && #[trigger] occurs_at(text, pats[k].0, s) ==> listed(pats, c, k, s)
    &&& forall|n: int, m: int|
        0 <= n < m < c.len() ==> (#[trigger] c[n]).1 < (#[trigger] c[m]).1 || (c[n].1 == c[m].1
            && c[n].0 < c[m].0)
}

/// `r` lists, for every pattern `src[n]`, its occurrence `r[n]`: every
/// occurrence of every pattern exactly once, ordered by end, then by start,
/// then by insertion order of the pattern.
pub open spec fn sourced_overlapping(
    text: Seq<char>,
    pats: Seq<(Seq<char>, usize)>,
    r: Seq<(usize, usize, usize)>,
    src: Seq<int>,
) -> bool {
    &&& r.len() == src.len()
    &&& forall|n: int| 0 <= n < r.len() ==> produced_by(text, pats, src[n], #[trigger] r[n])
    &&& forall|k: int, s: int|
        0 <= k < pats.len() && #[trigger] occurs_at(text, pats[k].0, s) ==> exists|n: int|
            0 <= n < r.len() && src[n] == k && r[n].0 == s
    &&& forall|n: int, m: int|
        0 <= n < m < r.len() ==> (#[trigger] r[n]).1 < (#[trigger] r[m]).1 || (r[n].1 == r[m].1
            && (r[n].0 < r[m].0 || (r[n].0 == r[m].0 && src[n] < src[m])))
}

/// Overlapping semantics over a pattern set that may repeat a text: each
/// occurrence of each pattern exactly once, in the order above.
pub open spec fn all_overlapping_matches(
    text: Seq<char>,
    pats: Seq<(Seq<char>, usize)>,
    r: Seq<(usize, usize, usize)>,
) -> bool {
    exists|src: Seq<int>| sourced_overlapping(text, pats, r, src)
}

/// `m` is an occurrence of a pattern that is the first with its text.
pub open spec fn earliest_at(
    text: Seq<char>,
    pats: Seq<(Seq<char>, usize)>,
    m: (usize, usize, usize),
) -> bool {
    exists|k: int| produced_by(text, pats, k, m) && first_with_text(pats, k)
}

/// Each match of `c` carries the value of the earliest inserted pattern with its text.
pub open spec fn earliest_values(
    text: Seq<char>,
    pats: Seq<(Seq<char>, usize)>,
    c: Seq<(usize, usize, usize)>,
) -> bool {
    forall|n: int| 0 <= n < c.len() ==> earliest_at(text, pats, #[trigger] c[n])
}

/// Consecutive matches of `c` do not overlap and come in ascending order.
pub open spec fn non_overlapping(c: Seq<(usize, usize, usize)>) -> bool {
    &&& forall|n: int| 0 <= n < c.len() ==> (#[trigger] c[n]).0 < c[n].1
    &&& forall|n: int| 0 <= n < c.len() - 1 ==> (#[trigger] c[n]).1 <= c[n + 1].0
}

/// Where the search for the `n`-th match of `c` begins.
pub open spec fn resume_at(c: Seq<(usize, usize, usize)>, n: int) -> int {
    if n <= 0 {
        0
    } else {
        c[n - 1].1 as int
    }
}

/// Standard non-overlapping semantics: from where the previous match ended,
/// the next match is the occurrence that ends first, and of those ending
/// there the longest; after the last match no occurrence lies in the rest.
pub open spec fn standard_matches(
    text: Seq<char>,
    pats: Seq<(Seq<char>, usize)>,
    c: Seq<(usize, usize, usize)>,
) -> bool {
    &&& all_sound(text, pats, c)
    &&& non_overlapping(c)
    &&& forall|n: int, k: int, s: int|
        0 <= n <= c.len() && 0 <= k < pats.len() && #[trigger] occurs_at(text, pats[k].0, s)
            && resume_at(c, n) <= s ==> n < c.len() && (#[trigger] c[n]).1 <= s + pats[k].0.len()
            && (c[n].1 == s + pats[k].0.len() ==> c[n].0 <= s)
}

/// Leftmost scanning: from where the previous match ended, the next match
/// starts at the leftmost position where any pattern occurs; after the last
/// match no occurrence starts in the rest.
pub open spec fn leftmost(
    text: Seq<char>,
    pats: Seq<(Seq<char>, usize)>,
    c: Seq<(usize, usize, usize)>,
) -> bool {
    &&& all_sound(text, pats, c)
    &&& non_overlapping(c)
    &&& forall|n: int, k: int, s: int|
        0 <= n <= c.len() && 0 <= k < pats.len() && #[trigger] occurs_at(text, pats[k].0, s)
            && resume_at(c, n) <= s ==> n < c.len() && (#[trigger] c[n]).0 <= s
}

/// At the start of each match of `c`, no pattern that occurs there is longer.
pub open spec fn longest_at_start(
    text: Seq<char>,
    pats: Seq<(Seq<char>, usize)>,
    c: Seq<(usize, usize, usize)>,
) -> bool {
    forall|n: int, k: int|
        0 <= n < c.len() && 0 <= k < pats.len() && #[trigger] occurs_at(
            text,
            pats[k].0,
            (#[trigger] c[n]).0 as int,
        ) ==> c[n].0 + pats[k].0.len() <= c[n].1
}

/// At the start of each match of `c`, the match comes from the pattern that
/// was inserted earliest among those occurring there.
pub open spec fn first_at_start(
    text: Seq<char>,
    pats: Seq<(Seq<char>, usize)>,
    c: Seq<(usize, usize, usize)>,
) -> bool {
    forall|n: int, k: int|
        0 <= n < c.len() && 0 <= k < pats.len() && #[trigger] occurs_at(
            text,
            pats[k].0,
            (#[trigger] c[n]).0 as int,
        ) ==> exists|j: int| 0 <= j <= k && produced_by(text, pats, j, c[n])
}

/// Leftmost-longest semantics.
pub open spec fn leftmost_longest_matches(
    text: Seq<char>,
    pats: Seq<(Seq<char>, usize)>,
    c: Seq<(usize, usize, usize)>,
) -> bool {
    leftmost(text, pats, c) && longest_at_start(text, pats, c)
}

/// Leftmost-first semantics.
pub open spec fn leftmost_first_matches(
    text: Seq<char>,
    pats: Seq<(Seq<char>, usize)>,
    c: Seq<(usize, usize, usize)>,
) -> bool {
    leftmost(text, pats, c) && first_at_start(text, pats, c)
}

/// `raw` is `c` with each character position replaced by its byte offset.
pub open spec fn byte_image(
    text: Seq<char>,
    c: Seq<(usize, usize, usize)>,
    raw: Seq<(usize, usize, usize)>,
) -> bool {
    &&& raw.len() == c.len()
    &&& forall|n: int|
        0 <= n < c.len() ==> (#[trigger] c[n]).0 <= c[n].1 <= text.len() && raw[n].0 == byte_pos(
            text,
            c[n].0 as int,
        ) && raw[n].1 == byte_pos(text, c[n].1 as int) && raw[n].2 == c[n].2
}

/// The matches whose byte image is `raw`.
pub open spec fn char_form(text: Seq<char>, raw: Seq<(usize, usize, usize)>) -> Seq<
    (usize, usize, usize),
> {
    choose|c: Seq<(usize, usize, usize)>| byte_image(text, c, raw)
}

} // verus!
