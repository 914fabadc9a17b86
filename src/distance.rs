//! Levenshtein distance between strings, counted over `char`s.
use vstd::prelude::*;

verus! {

/// The smallest number of single-character insertions, deletions and
/// substitutions that turn `a` into `b`.
pub open spec fn levenshtein(a: Seq<char>, b: Seq<char>) -> nat
    decreases a.len() + b.len(),
{
    if a.len() == 0 {
        b.len()
    } else if b.len() == 0 {
        a.len()
    } else if a.last() == b.last() {
        levenshtein(a.drop_last(), b.drop_last())
    } else {
        let del = levenshtein(a.drop_last(), b);
        let ins = levenshtein(a, b.drop_last());
        let sub = levenshtein(a.drop_last(), b.drop_last());
        1 + if del <= ins && del <= sub {
            del
        } else if ins <= sub {
            ins
        } else {
            sub
        }
    }
}

/// Relies on `edit_distance::edit_distance`: the Levenshtein distance of the
/// two strings over their `char`s.
#[verifier::external_body]
fn edit_distance_of(a: &str, b: &str) -> (r: usize)
    ensures
        r == levenshtein(a@, b@),
{
    edit_distance::edit_distance(a, b)
}

/// The Levenshtein distance between `a` and `b`, counted in `char`s.
pub fn distance(a: &str, b: &str) -> (r: usize)
    ensures
        r == levenshtein(a@, b@),
{
    edit_distance_of(a, b)
}

/// A string is at distance zero from itself.
pub proof fn lemma_distance_to_self(a: Seq<char>)
    ensures
        levenshtein(a, a) == 0,
    decreases a.len(),
{
    if a.len() > 0 {
        lemma_distance_to_self(a.drop_last());
    }
}

/// The distance from `a` to `b` is the distance from `b` to `a`.
pub proof fn lemma_distance_symmetric(a: Seq<char>, b: Seq<char>)
    ensures
        levenshtein(a, b) == levenshtein(b, a),
    decreases a.len() + b.len(),
{
    if a.len() > 0 && b.len() > 0 {
        lemma_distance_symmetric(a.drop_last(), b.drop_last());
        if a.last() != b.last() {
            lemma_distance_symmetric(a.drop_last(), b);
            lemma_distance_symmetric(a, b.drop_last());
        }
    }
}

} // verus!
