//! Text transforms offered beside the search engine.
use vstd::prelude::*;

verus! {

/// The lowercase form of a text, as std's Unicode case mapping gives it.
pub uninterp spec fn lower_of(s: Seq<char>) -> Seq<char>;

/// Relies on `str::to_lowercase`: the result depends on the characters alone,
/// and an empty text stays empty.
#[verifier::external_body]
fn lowercase(s: &str) -> (r: String)
    ensures
        r@ == lower_of(s@),
        s@.len() == 0 ==> r@.len() == 0,
{
    s.to_lowercase()
}

/// The lowercase form of `string`.
pub fn downcase(string: &str) -> (r: String)
    ensures
        r@ == lower_of(string@),
        string@.len() == 0 ==> r@.len() == 0,
{
    lowercase(string)
}

} // verus!
