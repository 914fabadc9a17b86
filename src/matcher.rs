//! Sliding a window of words along a line and keeping the windows that are
//! close enough to a phrase.
use vstd::prelude::*;

use crate::distance::{distance, levenshtein};
use crate::tokenize::{split_words, strip, strip_str, views, words};

verus! {

/// The words of `ts` joined by single spaces.
pub open spec fn join(ts: Seq<Seq<char>>) -> Seq<char>
    decreases ts.len(),
{
    if ts.len() == 0 {
        Seq::empty()
    } else if ts.len() == 1 {
        ts[0]
    } else {
        join(ts.drop_last()) + seq![' '] + ts.last()
    }
}

/// The words of `s`, each without its punctuation.
pub open spec fn clean_words(s: Seq<char>) -> Seq<Seq<char>> {
    words(s).map_values(|w: Seq<char>| strip(w))
}

/// The window of `w` words of `ts` that starts at word `k`, as one string.
pub open spec fn window(ts: Seq<Seq<char>>, k: int, w: int) -> Seq<char> {
    join(ts.subrange(k, k + w))
}

/// The windows of `w` words of `ts` that start before word `k` and lie
/// within `max` of `p`, in the order of their starts.
pub open spec fn hits(ts: Seq<Seq<char>>, p: Seq<char>, w: int, max: nat, k: int) -> Seq<
    Seq<char>,
>
    decreases k,
{
    if k <= 0 {
        Seq::empty()
    } else {
        let prev = hits(ts, p, w, max, k - 1);
        let cand = window(ts, k - 1, w);
        if levenshtein(cand, p) <= max {
            prev.push(cand)
        } else {
            prev
        }
    }
}

/// Every window of `line` as long as `phrase` (in words) whose distance to
/// the phrase without its punctuation is at most `max`, in the order of their
/// starts.
pub open spec fn line_matches(line: Seq<char>, phrase: Seq<char>, max: nat) -> Seq<Seq<char>> {
    let ts = clean_words(line);
    let w = words(phrase).len() as int;
    if ts.len() < w {
        Seq::empty()
    } else {
        hits(ts, strip(phrase), w, max, ts.len() - w + 1)
    }
}

/// The words of `s`, each without its punctuation.
pub fn clean_tokens(s: &str) -> (r: Vec<String>)
    ensures
        views(r@) == clean_words(s@),
{
    let toks = split_words(s);
    let mut r: Vec<String> = Vec::new();
    for i in 0..toks.len()
        invariant
            views(toks@) == words(s@),
            views(r@) == clean_words(s@).take(i as int),
    {
        let ghost before = r@;
        let t = strip_str(toks[i].as_str());
        r.push(t);
        proof {
            assert(views(toks@)[i as int] == toks@[i as int]@);
            assert(views(toks@).len() == toks@.len());
            assert(clean_words(s@)[i as int] == strip(words(s@)[i as int]));
            assert(views(r@) =~= views(before).push(t@));
            assert(views(r@) =~= clean_words(s@).take(i + 1));
        }
    }
    proof {
        assert(clean_words(s@).take(toks.len() as int) =~= clean_words(s@));
    }
    r
}

/// The words `ts[start..end]` joined by single spaces.
pub fn join_range(ts: &Vec<String>, start: usize, end: usize) -> (r: String)
    requires
        start < end <= ts.len(),
    ensures
        r@ == join(views(ts@).subrange(start as int, end as int)),
{
    let mut r = ts[start].clone();
    let mut j: usize = start + 1;
    proof {
        reveal_strlit(" ");
        assert(views(ts@).subrange(start as int, j as int) =~= seq![ts@[start as int]@]);
    }
    while j < end
        invariant
            start < j <= end <= ts.len(),
            r@ == join(views(ts@).subrange(start as int, j as int)),
        decreases end - j,
    {
        r.append(" ");
        r.append(ts[j].as_str());
        proof {
            reveal_strlit(" ");
            let sub = views(ts@).subrange(start as int, j + 1);
            assert(sub.drop_last() =~= views(ts@).subrange(start as int, j as int));
            assert(sub.last() == ts@[j as int]@);
        }
        j = j + 1;
    }
    r
}

/// Finds, in `line`, every window of as many words as `string` has that lies
/// within `max_distance` of it, after punctuation is taken out of both sides:
/// each window is its words without punctuation joined by single spaces, and
/// it is compared with `string` without its punctuation.
/// Returns how many were found and the windows themselves, in line order.
pub fn find_approx_match(line: &str, string: &str, max_distance: usize) -> (r: (
    usize,
    Vec<String>,
))
    requires
        words(string@).len() > 0,
    ensures
        r.0 == r.1.len(),
        views(r.1@) == line_matches(line@, string@, max_distance as nat),
        words(line@).len() < words(string@).len() ==> r.1.len() == 0,
{
    let toks = clean_tokens(line);
    let w = split_words(string).len();
    let phrase = strip_str(string);
    let mut found: Vec<String> = Vec::new();
    if toks.len() < w {
        return (0, found);
    }
    let n = toks.len() - w + 1;
    for k in 0..n
        invariant
            n == toks.len() - w + 1,
            0 < w <= toks.len(),
            phrase@ == strip(string@),
            views(found@) == hits(views(toks@), phrase@, w as int, max_distance as nat, k as int),
    {
        let cand = join_range(&toks, k, k + w);
        let d = distance(cand.as_str(), phrase.as_str());
        let ghost before = found@;
        if d <= max_distance {
            found.push(cand);
            proof {
                assert(views(found@) =~= views(before).push(cand@));
            }
        }
    }
    (found.len(), found)
}

/// Why a phrase cannot be looked for.
#[derive(Clone, Copy, Debug, PartialEq, Eq)]
pub enum MatchError {
    /// The phrase has no word, so no window can be as long as it.
    EmptyPhrase,
}

/// As `find_approx_match`, but a phrase without any word is a configuration
/// error rather than an input the caller must rule out.
pub fn find_matches(line: &str, phrase: &str, max_distance: usize) -> (r: Result<
    (usize, Vec<String>),
    MatchError,
>)
    ensures
        match r {
            Ok(m) => {
                &&& words(phrase@).len() > 0
                &&& m.0 == m.1.len()
                &&& views(m.1@) == line_matches(line@, phrase@, max_distance as nat)
            },
            Err(e) => e == MatchError::EmptyPhrase && words(phrase@).len() == 0,
        },
{
    if split_words(phrase).len() == 0 {
        Err(MatchError::EmptyPhrase)
    } else {
        Ok(find_approx_match(line, phrase, max_distance))
    }
}

/// A line with fewer words than the phrase has no match, whatever the
/// tolerance.
pub proof fn lemma_short_line_no_match(line: Seq<char>, phrase: Seq<char>, max: nat)
    requires
        words(line).len() < words(phrase).len(),
    ensures
        line_matches(line, phrase, max) == Seq::<Seq<char>>::empty(),
{
}

/// Windows kept at tolerance `m1` are kept at any larger tolerance `m2`.
proof fn lemma_hits_monotonic(ts: Seq<Seq<char>>, p: Seq<char>, w: int, m1: nat, m2: nat, k: int)
    requires
        m1 <= m2,
    ensures
        hits(ts, p, w, m1, k).len() <= hits(ts, p, w, m2, k).len(),
        forall|x: Seq<char>| #[trigger]
            hits(ts, p, w, m1, k).contains(x) ==> hits(ts, p, w, m2, k).contains(x),
    decreases k,
{
    if k > 0 {
        lemma_hits_monotonic(ts, p, w, m1, m2, k - 1);
        let a = hits(ts, p, w, m1, k - 1);
        let b = hits(ts, p, w, m2, k - 1);
        let cand = window(ts, k - 1, w);
        assert forall|x: Seq<char>| #[trigger]
            hits(ts, p, w, m1, k).contains(x) implies hits(ts, p, w, m2, k).contains(x) by {
            if levenshtein(cand, p) <= m1 {
                if x != cand {
                    let i = choose|i: int| 0 <= i < a.len() + 1 && a.push(cand)[i] == x;
                    assert(a.contains(x)) by {
                        assert(a[i] == x);
                    }
                    let j = choose|j: int| 0 <= j < b.len() && b[j] == x;
                    assert(b.push(cand)[j] == x);
                } else {
                    assert(b.push(cand)[b.len() as int] == x);
                }
            } else if levenshtein(cand, p) <= m2 {
                let j = choose|j: int| 0 <= j < b.len() && b[j] == x;
                assert(b.push(cand)[j] == x);
            }
        }
    }
}

/// Raising the tolerance never loses a match: every window found at `m1` is
/// found at `m2 >= m1`, and at least as many windows are found.
pub proof fn lemma_matches_monotonic(line: Seq<char>, phrase: Seq<char>, m1: nat, m2: nat)
    requires
        m1 <= m2,
    ensures
        line_matches(line, phrase, m1).len() <= line_matches(line, phrase, m2).len(),
        forall|x: Seq<char>| #[trigger]
            line_matches(line, phrase, m1).contains(x) ==> line_matches(
                line,
                phrase,
                m2,
            ).contains(x),
{
    let ts = clean_words(line);
    let w = words(phrase).len() as int;
    if ts.len() >= w {
        lemma_hits_monotonic(ts, strip(phrase), w, m1, m2, ts.len() - w + 1);
    }
}

/// Every window kept lies within `max` of `p`.
proof fn lemma_hits_within(ts: Seq<Seq<char>>, p: Seq<char>, w: int, max: nat, k: int)
    ensures
        forall|x: Seq<char>| #[trigger]
            hits(ts, p, w, max, k).contains(x) ==> levenshtein(x, p) <= max,
    decreases k,
{
    if k > 0 {
        lemma_hits_within(ts, p, w, max, k - 1);
        let a = hits(ts, p, w, max, k - 1);
        let cand = window(ts, k - 1, w);
        assert forall|x: Seq<char>| #[trigger]
            hits(ts, p, w, max, k).contains(x) implies levenshtein(x, p) <= max by {
            if levenshtein(cand, p) <= max {
                if x != cand {
                    let i = choose|i: int| 0 <= i < a.len() + 1 && a.push(cand)[i] == x;
                    assert(a[i] == x);
                    assert(a.contains(x));
                }
            } else {
                assert(a.contains(x));
            }
        }
    }
}

/// Every match of a phrase on a line lies within the tolerance of the
/// phrase without its punctuation.
pub proof fn lemma_matches_within(line: Seq<char>, phrase: Seq<char>, max: nat)
    ensures
        forall|x: Seq<char>| #[trigger]
            line_matches(line, phrase, max).contains(x) ==> levenshtein(x, strip(phrase))
                <= max,
{
    let ts = clean_words(line);
    let w = words(phrase).len() as int;
    if ts.len() >= w {
        lemma_hits_within(ts, strip(phrase), w, max, ts.len() - w + 1);
    }
}

} // verus!
