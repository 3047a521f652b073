//! The double-array Aho-Corasick automaton of the `daachorse` crate, and the
//! contracts that this library relies on for it.
use vstd::prelude::*;
use daachorse::charwise::{CharwiseDoubleArrayAhoCorasick, CharwiseDoubleArrayAhoCorasickBuilder};
use daachorse::errors::DaachorseError;
use crate::kinds::{ConstructionError, MatchKind};
use crate::model::{
    byte_image,
    char_form,
    distinct_texts,
    valid_patterns,
    leftmost_first_matches,
    leftmost_longest_matches,
    overlapping_matches,
    pattern_seq,
    standard_matches,
    texts_of,
};

verus! {

#[verifier::external_type_specification]
#[verifier::external_body]
#[verifier::reject_recursive_types(V)]
pub struct ExCharwiseDoubleArrayAhoCorasick<V>(CharwiseDoubleArrayAhoCorasick<V>);

/// The `(pattern, value)` pairs an automaton was built from, in insertion order.
pub uninterp spec fn automaton_patterns(a: CharwiseDoubleArrayAhoCorasick<usize>) -> Seq<
    (Seq<char>, usize),
>;

/// The match kind an automaton was built under.
pub uninterp spec fn automaton_kind(a: CharwiseDoubleArrayAhoCorasick<usize>) -> MatchKind;

/// The builder's size limits admit these pattern texts under this kind: each
/// pattern under 2^32 bytes, and the states and double-array elements of the
/// automaton countable in a `u32`.
pub uninterp spec fn within_limits(texts: Seq<Seq<char>>, kind: MatchKind) -> bool;

/// The heap size of an automaton's tables on this machine.
pub uninterp spec fn heap_bytes_of(a: CharwiseDoubleArrayAhoCorasick<usize>) -> usize;

/// What `find_iter` reports, in byte offsets, for these patterns on this text.
pub uninterp spec fn standard_of(pats: Seq<(Seq<char>, usize)>, text: Seq<char>) -> Seq<
    (usize, usize, usize),
>;

/// What `find_overlapping_iter` reports, in byte offsets, for these patterns on this text.
pub uninterp spec fn overlapping_of(pats: Seq<(Seq<char>, usize)>, text: Seq<char>) -> Seq<
    (usize, usize, usize),
>;

/// What `leftmost_find_iter` reports, in byte offsets, for these patterns on this
/// text, under leftmost-longest (`longest`) or leftmost-first semantics.
pub uninterp spec fn leftmost_of(
    pats: Seq<(Seq<char>, usize)>,
    longest: bool,
    text: Seq<char>,
) -> Seq<(usize, usize, usize)>;

/// Relies on `CharwiseDoubleArrayAhoCorasickBuilder::build_with_values`: on
/// success the automaton holds the given pairs, in order, under the given
/// match kind; each `DaachorseError` variant is passed on as its counterpart.
/// On a non-empty set of non-empty, distinct patterns, only the size limits
/// can make it fail (`InvalidArgument` for a pattern of 2^32 bytes or more,
/// `AutomatonScale` past the `u32` counts of states or elements).
#[verifier::external_body]
pub(crate) fn build_automaton(patvals: &Vec<(&str, usize)>, kind: MatchKind) -> (r: Result<
    CharwiseDoubleArrayAhoCorasick<usize>,
    ConstructionError,
>)
    ensures
        r is Ok ==> automaton_patterns(r->Ok_0) == pattern_seq(patvals@) && automaton_kind(
            r->Ok_0,
        ) == kind,
        r is Err ==> r->Err_0 != ConstructionError::EmptyPatternSet && r->Err_0
            != ConstructionError::EmptyPattern,
        r is Ok <== valid_patterns(pattern_seq(patvals@)) && distinct_texts(pattern_seq(patvals@))
            && within_limits(texts_of(pattern_seq(patvals@)), kind),
        r is Ok ==> within_limits(texts_of(pattern_seq(patvals@)), kind),
        r is Err && valid_patterns(pattern_seq(patvals@)) && distinct_texts(pattern_seq(patvals@))
            ==> !within_limits(texts_of(pattern_seq(patvals@)), kind) && (r->Err_0
            == ConstructionError::InvalidArgument || r->Err_0 == ConstructionError::AutomatonScale),
{
    let k = match kind {
        MatchKind::Standard => daachorse::MatchKind::Standard,
        MatchKind::LeftmostLongest => daachorse::MatchKind::LeftmostLongest,
        MatchKind::LeftmostFirst => daachorse::MatchKind::LeftmostFirst,
    };
    CharwiseDoubleArrayAhoCorasickBuilder::new().match_kind(k).build_with_values(
        patvals.clone(),
    ).map_err(|e| match e {
        DaachorseError::InvalidArgument(_) => ConstructionError::InvalidArgument,
        DaachorseError::DuplicatePattern(_) => ConstructionError::DuplicatePattern,
        DaachorseError::AutomatonScale(_) => ConstructionError::AutomatonScale,
        DaachorseError::InvalidConversion(_) => ConstructionError::InvalidConversion,
    })
}

/// Relies on `CharwiseDoubleArrayAhoCorasick::find_iter` (standard automata
/// only, it panics on others): from where the previous match ended, the
/// occurrence that ends first and, of those, the longest; offsets in bytes.
#[verifier::external_body]
pub(crate) fn standard_bytes(a: &CharwiseDoubleArrayAhoCorasick<usize>, text: &str) -> (r: Vec<
    (usize, usize, usize),
>)
    requires
        automaton_kind(*a) == MatchKind::Standard,
    ensures
        r@ == standard_of(automaton_patterns(*a), text@),
        byte_image(text@, char_form(text@, r@), r@),
        standard_matches(text@, automaton_patterns(*a), char_form(text@, r@)),
{
    a.find_iter(text).map(|m| (m.start(), m.end(), m.value())).collect()
}

/// Relies on `CharwiseDoubleArrayAhoCorasick::find_overlapping_iter` (standard
/// automata only, it panics on others): every occurrence of every pattern,
/// ordered by end and, at one end, longest first; offsets in bytes.
#[verifier::external_body]
pub(crate) fn overlapping_bytes(a: &CharwiseDoubleArrayAhoCorasick<usize>, text: &str) -> (r: Vec<
    (usize, usize, usize),
>)
    requires
        automaton_kind(*a) == MatchKind::Standard,
    ensures
        r@ == overlapping_of(automaton_patterns(*a), text@),
        byte_image(text@, char_form(text@, r@), r@),
        overlapping_matches(text@, automaton_patterns(*a), char_form(text@, r@)),
{
    a.find_overlapping_iter(text).map(|m| (m.start(), m.end(), m.value())).collect()
}

/// Relies on `CharwiseDoubleArrayAhoCorasick::leftmost_find_iter` (leftmost
/// automata only, it panics on others): leftmost non-overlapping matches,
/// longest or earliest inserted at each start as the kind says; offsets in bytes.
#[verifier::external_body]
pub(crate) fn leftmost_bytes(a: &CharwiseDoubleArrayAhoCorasick<usize>, text: &str) -> (r: Vec<
    (usize, usize, usize),
>)
    requires
        automaton_kind(*a) != MatchKind::Standard,
    ensures
        r@ == leftmost_of(
            automaton_patterns(*a),
            automaton_kind(*a) == MatchKind::LeftmostLongest,
            text@,
        ),
        byte_image(text@, char_form(text@, r@), r@),
        automaton_kind(*a) == MatchKind::LeftmostLongest ==> leftmost_longest_matches(
            text@,
            automaton_patterns(*a),
            char_form(text@, r@),
        ),
        automaton_kind(*a) == MatchKind::LeftmostFirst ==> leftmost_first_matches(
            text@,
            automaton_patterns(*a),
            char_form(text@, r@),
        ),
{
    a.leftmost_find_iter(text).map(|m| (m.start(), m.end(), m.value())).collect()
}

/// Relies on `CharwiseDoubleArrayAhoCorasick::heap_bytes`: the size of the
/// automaton's tables, read from their lengths alone; they always hold the
/// root state.
#[verifier::external_body]
pub(crate) fn automaton_heap_bytes(a: &CharwiseDoubleArrayAhoCorasick<usize>) -> (r: usize)
    ensures
        r == heap_bytes_of(*a),
        r > 0,
{
    a.heap_bytes()
}

} // verus!
