//! Scanning a whole document for every phrase of a dictionary.
use vstd::prelude::*;

use crate::distance::levenshtein;
use crate::matcher::{find_approx_match, lemma_matches_within, line_matches};
use crate::tokenize::{lines_of, split_lines, split_words, strip, views, words};

verus! {

/// A phrase to look for, with the largest edit distance at which a window
/// still counts as an occurrence of it.
#[derive(Clone, Debug, PartialEq, Eq)]
pub struct Phrase {
    pub text: String,
    pub max_distance: usize,
}

/// The windows found for one phrase over a whole document, in document
/// order.
#[derive(Clone, Debug, PartialEq, Eq)]
pub struct Occurrence {
    pub phrase: String,
    pub matches: Vec<String>,
}

/// Why a dictionary cannot be scanned for.
#[derive(Clone, Copy, Debug, PartialEq, Eq)]
pub enum ScanError {
    /// The phrase at this index has no word.
    EmptyPhrase(usize),
    /// The phrase at this index has the same text as an earlier one.
    DuplicatePhrase(usize),
}

/// A phrase as the contracts see it: its text and its tolerance.
pub open spec fn phrase_view(p: Phrase) -> (Seq<char>, nat) {
    (p.text@, p.max_distance as nat)
}

pub open spec fn phrase_views(ps: Seq<Phrase>) -> Seq<(Seq<char>, nat)> {
    ps.map_values(|p: Phrase| phrase_view(p))
}

/// An entry of the table as the contracts see it: the phrase and its matches.
pub open spec fn occurrence_view(o: Occurrence) -> (Seq<char>, Seq<Seq<char>>) {
    (o.phrase@, views(o.matches@))
}

pub open spec fn occurrence_views(t: Seq<Occurrence>) -> Seq<(Seq<char>, Seq<Seq<char>>)> {
    t.map_values(|o: Occurrence| occurrence_view(o))
}

/// No two phrases of `ps` have the same text.
pub open spec fn distinct_texts(ps: Seq<(Seq<char>, nat)>) -> bool {
    forall|i: int, j: int| 0 <= i < j < ps.len() ==> ps[i].0 != ps[j].0
}

/// The phrase at index `j` has a word and a text that no earlier phrase has.
pub open spec fn valid_at(ps: Seq<Phrase>, j: int) -> bool {
    &&& words(ps[j].text@).len() > 0
    &&& forall|i: int| 0 <= i < j ==> ps[i].text@ != ps[j].text@
}

/// Every phrase of the dictionary has at least one word.
pub open spec fn all_have_words(ps: Seq<(Seq<char>, nat)>) -> bool {
    forall|j: int| 0 <= j < ps.len() ==> #[trigger] words(ps[j].0).len() > 0
}

/// The matches of `phrase` on every line of `lines`, line after line.
pub open spec fn doc_matches(lines: Seq<Seq<char>>, phrase: Seq<char>, max: nat) -> Seq<
    Seq<char>,
>
    decreases lines.len(),
{
    if lines.len() == 0 {
        Seq::empty()
    } else {
        doc_matches(lines.drop_last(), phrase, max) + line_matches(lines.last(), phrase, max)
    }
}

/// The table of occurrences: for each phrase of `ps` in turn that has at
/// least one match in `lines`, the phrase and all its matches. A phrase
/// without a match has no entry.
pub open spec fn table(lines: Seq<Seq<char>>, ps: Seq<(Seq<char>, nat)>) -> Seq<
    (Seq<char>, Seq<Seq<char>>),
>
    decreases ps.len(),
{
    if ps.len() == 0 {
        Seq::empty()
    } else {
        let prev = table(lines, ps.drop_last());
        let p = ps.last();
        let ms = doc_matches(lines, p.0, p.1);
        if ms.len() > 0 {
            prev.push((p.0, ms))
        } else {
            prev
        }
    }
}

/// What scanning `lines` for `phrases` gives: the table when every phrase has
/// a word and no text comes twice, else the first index at which one of these
/// fails, and which.
pub open spec fn scan_outcome(
    lines: Seq<Seq<char>>,
    phrases: Seq<Phrase>,
    r: Result<Vec<Occurrence>, ScanError>,
) -> bool {
    match r {
        Ok(t) => {
            &&& forall|j: int| 0 <= j < phrases.len() ==> #[trigger] valid_at(phrases, j)
            &&& all_have_words(phrase_views(phrases))
            &&& distinct_texts(phrase_views(phrases))
            &&& occurrence_views(t@) == table(lines, phrase_views(phrases))
        },
        Err(ScanError::EmptyPhrase(j)) => {
            &&& 0 <= j < phrases.len()
            &&& words(phrases[j as int].text@).len() == 0
            &&& forall|i: int| 0 <= i < j ==> #[trigger] valid_at(phrases, i)
        },
        Err(ScanError::DuplicatePhrase(j)) => {
            &&& 0 <= j < phrases.len()
            &&& words(phrases[j as int].text@).len() > 0
            &&& exists|i: int| 0 <= i < j && phrases[i].text@ == phrases[j as int].text@
            &&& forall|i: int| 0 <= i < j ==> #[trigger] valid_at(phrases, i)
        },
    }
}

/// Every window of every line of `lines` that lies within `max_distance` of
/// `phrase`, in document order.
pub fn matches_in_document(lines: &Vec<String>, phrase: &str, max_distance: usize) -> (r: Vec<
    String,
>)
    requires
        words(phrase@).len() > 0,
    ensures
        views(r@) == doc_matches(views(lines@), phrase@, max_distance as nat),
{
    let mut acc: Vec<String> = Vec::new();
    for i in 0..lines.len()
        invariant
            words(phrase@).len() > 0,
            views(acc@) == doc_matches(
                views(lines@).take(i as int),
                phrase@,
                max_distance as nat,
            ),
    {
        let (_, mut found) = find_approx_match(lines[i].as_str(), phrase, max_distance);
        let ghost before = acc@;
        let ghost more = found@;
        acc.append(&mut found);
        proof {
            let ls = views(lines@).take(i + 1);
            assert(ls.drop_last() =~= views(lines@).take(i as int));
            assert(ls.last() == lines@[i as int]@);
            assert(views(acc@) =~= views(before) + views(more));
        }
    }
    proof {
        assert(views(lines@).take(lines.len() as int) =~= views(lines@));
    }
    acc
}

/// Scans `lines` for every phrase of `phrases`. The table holds one entry per
/// phrase with at least one match, in the order of `phrases`; the matches of
/// an entry come in document order. Fails on the first phrase without words.
pub fn scan(lines: &Vec<String>, phrases: &Vec<Phrase>) -> (r: Result<Vec<Occurrence>, ScanError>)
    ensures
        scan_outcome(views(lines@), phrases@, r),
{
    for j in 0..phrases.len()
        invariant
            forall|i: int| 0 <= i < j ==> #[trigger] valid_at(phrases@, i),
    {
        let parts = split_words(phrases[j].text.as_str());
        if parts.len() == 0 {
            return Err(ScanError::EmptyPhrase(j));
        }
        for i in 0..j
            invariant
                j < phrases.len(),
                words(phrases@[j as int].text@).len() > 0,
                forall|k: int| 0 <= k < j ==> #[trigger] valid_at(phrases@, k),
                forall|k: int| 0 <= k < i ==> phrases@[k].text@ != phrases@[j as int].text@,
        {
            if phrases[i].text == phrases[j].text {
                assert(phrases@[i as int].text@ == phrases@[j as int].text@);
                return Err(ScanError::DuplicatePhrase(j));
            }
        }
    }
    proof {
        let pv = phrase_views(phrases@);
        assert forall|j: int| 0 <= j < pv.len() implies #[trigger] words(pv[j].0).len() > 0 by {
            assert(pv[j] == phrase_view(phrases@[j]));
            assert(valid_at(phrases@, j));
        }
        assert forall|i: int, j: int| 0 <= i < j < pv.len() implies pv[i].0 != pv[j].0 by {
            assert(pv[i] == phrase_view(phrases@[i]));
            assert(pv[j] == phrase_view(phrases@[j]));
            assert(valid_at(phrases@, j));
        }
    }
    let ghost pv = phrase_views(phrases@);
    let mut t: Vec<Occurrence> = Vec::new();
    for j in 0..phrases.len()
        invariant
            pv == phrase_views(phrases@),
            all_have_words(pv),
            occurrence_views(t@) == table(views(lines@), pv.take(j as int)),
    {
        let p = &phrases[j];
        assert(pv[j as int] == phrase_view(phrases@[j as int]));
        assert(words(pv[j as int].0).len() > 0);
        let found = matches_in_document(lines, p.text.as_str(), p.max_distance);
        let ghost before = t@;
        proof {
            let ps = pv.take(j + 1);
            assert(ps.drop_last() =~= pv.take(j as int));
            assert(ps.last() == pv[j as int]);
        }
        if found.len() > 0 {
            let o = Occurrence { phrase: p.text.clone(), matches: found };
            t.push(o);
            assert(occurrence_views(t@) =~= occurrence_views(before).push(occurrence_view(o)));
        }
    }
    proof {
        assert(pv.take(phrases.len() as int) =~= pv);
    }
    Ok(t)
}

/// Scans a whole text, cut into lines at its newlines, for every phrase of
/// `phrases`, as `scan` does.
pub fn scan_document(content: &str, phrases: &Vec<Phrase>) -> (r: Result<
    Vec<Occurrence>,
    ScanError,
>)
    ensures
        scan_outcome(lines_of(content@), phrases@, r),
{
    let lines = split_lines(content);
    scan(&lines, phrases)
}

/// With exactly one match on each line, a phrase has as many matches over the
/// document as the document has lines.
proof fn lemma_one_per_line_count(lines: Seq<Seq<char>>, phrase: Seq<char>, max: nat)
    requires
        forall|i: int| 0 <= i < lines.len() ==> #[trigger] line_matches(lines[i], phrase, max).len()
            == 1,
    ensures
        doc_matches(lines, phrase, max).len() == lines.len(),
    decreases lines.len(),
{
    if lines.len() > 0 {
        let rest = lines.drop_last();
        assert forall|i: int| 0 <= i < rest.len() implies #[trigger] line_matches(
            rest[i],
            phrase,
            max,
        ).len() == 1 by {
            assert(rest[i] == lines[i]);
        }
        lemma_one_per_line_count(rest, phrase, max);
        assert(line_matches(lines[lines.len() - 1], phrase, max).len() == 1);
    }
}

/// A phrase with at least one match has its entry in the table.
proof fn lemma_entry_present(lines: Seq<Seq<char>>, ps: Seq<(Seq<char>, nat)>, j: int)
    requires
        0 <= j < ps.len(),
        doc_matches(lines, ps[j].0, ps[j].1).len() > 0,
    ensures
        table(lines, ps).contains((ps[j].0, doc_matches(lines, ps[j].0, ps[j].1))),
    decreases ps.len(),
{
    let prev = table(lines, ps.drop_last());
    let e = (ps[j].0, doc_matches(lines, ps[j].0, ps[j].1));
    if j == ps.len() - 1 {
        assert(prev.push(e)[prev.len() as int] == e);
    } else {
        assert(ps.drop_last()[j] == ps[j]);
        lemma_entry_present(lines, ps.drop_last(), j);
        let k = choose|k: int| 0 <= k < prev.len() && prev[k] == e;
        let last = ps.last();
        let ms = doc_matches(lines, last.0, last.1);
        if ms.len() > 0 {
            assert(prev.push((last.0, ms))[k] == e);
        }
    }
}

/// Scanning a document of `n > 0` lines on each of which phrase `j` matches
/// exactly once gives that phrase an entry with exactly `n` matches.
pub proof fn lemma_one_match_per_line(lines: Seq<Seq<char>>, ps: Seq<(Seq<char>, nat)>, j: int)
    requires
        0 <= j < ps.len(),
        lines.len() > 0,
        forall|i: int| 0 <= i < lines.len() ==> #[trigger] line_matches(lines[i], ps[j].0, ps[j].1).len()
            == 1,
    ensures
        doc_matches(lines, ps[j].0, ps[j].1).len() == lines.len(),
        table(lines, ps).contains((ps[j].0, doc_matches(lines, ps[j].0, ps[j].1))),
{
    lemma_one_per_line_count(lines, ps[j].0, ps[j].1);
    lemma_entry_present(lines, ps, j);
}

/// Every match over the document was a match on one of its lines.
proof fn lemma_doc_match_from_line(lines: Seq<Seq<char>>, phrase: Seq<char>, max: nat, x: Seq<char>)
    requires
        doc_matches(lines, phrase, max).contains(x),
    ensures
        exists|i: int| 0 <= i < lines.len() && #[trigger] line_matches(lines[i], phrase, max).contains(x),
    decreases lines.len(),
{
    let rest = lines.drop_last();
    let a = doc_matches(rest, phrase, max);
    let b = line_matches(lines.last(), phrase, max);
    let k = choose|k: int| 0 <= k < (a + b).len() && (a + b)[k] == x;
    if k < a.len() {
        assert(a[k] == x);
        lemma_doc_match_from_line(rest, phrase, max, x);
        let i = choose|i: int| 0 <= i < rest.len() && #[trigger] line_matches(rest[i], phrase, max).contains(x);
        assert(rest[i] == lines[i]);
    } else {
        assert(b[k - a.len()] == x);
        assert(line_matches(lines[lines.len() - 1], phrase, max).contains(x));
    }
}

/// Every match stored in the table lies within the tolerance of a phrase of
/// the dictionary with the entry's text.
pub proof fn lemma_table_within_tolerance(
    lines: Seq<Seq<char>>,
    ps: Seq<(Seq<char>, nat)>,
    k: int,
    x: Seq<char>,
)
    requires
        0 <= k < table(lines, ps).len(),
        table(lines, ps)[k].1.contains(x),
    ensures
        exists|j: int|
            0 <= j < ps.len() && #[trigger] ps[j].0 == table(lines, ps)[k].0 && levenshtein(
                x,
                strip(ps[j].0),
            ) <= ps[j].1,
    decreases ps.len(),
{
    let prev = table(lines, ps.drop_last());
    if k < prev.len() {
        assert(table(lines, ps)[k] == prev[k]);
        lemma_table_within_tolerance(lines, ps.drop_last(), k, x);
        let j = choose|j: int|
            0 <= j < ps.drop_last().len() && #[trigger] ps.drop_last()[j].0 == prev[k].0
                && levenshtein(x, strip(ps.drop_last()[j].0)) <= ps.drop_last()[j].1;
        assert(ps.drop_last()[j] == ps[j]);
    } else {
        let j = ps.len() - 1;
        let p = ps[j];
        lemma_doc_match_from_line(lines, p.0, p.1, x);
        let i = choose|i: int| 0 <= i < lines.len() && #[trigger] line_matches(lines[i], p.0, p.1).contains(x);
        lemma_matches_within(lines[i], p.0, p.1);
    }
}

} // verus!
