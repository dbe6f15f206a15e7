use vstd::prelude::*;

verus! {

/// The case-folded form of a text: the sequence of characters that
/// `str::to_lowercase` produces. Unicode case folding would take pages to
/// write out, so the result is only given a name here; the engine keys its
/// entries by this name and every contract speaks of it.
pub uninterp spec fn lower_of(s: Seq<char>) -> Seq<char>;

/// Relies on `str::to_lowercase`: the result is the lowercase equivalent of
/// the input string, determined by the input characters alone.
#[verifier::external_body]
pub(crate) fn lowercase(s: &str) -> (r: String)
    ensures
        r@ == lower_of(s@),
{
    s.to_lowercase()
}

} // verus!
