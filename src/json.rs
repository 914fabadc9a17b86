//! Reading a phrase dictionary from JSON and writing a table of occurrences
//! as JSON.
use vstd::prelude::*;

use std::collections::BTreeMap;

use crate::scan::{distinct_texts, occurrence_views, phrase_views, Occurrence, Phrase};

verus! {

#[verifier::external_type_specification]
#[verifier::external_body]
pub struct ExJsonError(serde_json::Error);

/// The entries of the JSON object `s` whose values are all unsigned integers
/// that fit in `usize`, in increasing order of key, if `s` is such an object.
pub uninterp spec fn json_phrase_map(s: Seq<char>) -> Option<Seq<(Seq<char>, nat)>>;

/// The pretty-printed JSON object that maps each phrase of `t` to its list of
/// matches, keys in increasing order; where a phrase stands in `t` more than
/// once, the last of its lists is the one written.
pub uninterp spec fn json_table(t: Seq<(Seq<char>, Seq<Seq<char>>)>) -> Seq<char>;

/// Relies on `serde_json::from_str` into a `BTreeMap<String, usize>`, whose
/// entries come out in increasing order of key, each key once.
#[verifier::external_body]
fn parse_phrase_map(s: &str) -> (r: Result<Vec<(String, usize)>, serde_json::Error>)
    ensures
        match r {
            Ok(v) => {
                &&& json_phrase_map(s@) == Some(
                    v@.map_values(|e: (String, usize)| (e.0@, e.1 as nat)),
                )
                &&& distinct_texts(v@.map_values(|e: (String, usize)| (e.0@, e.1 as nat)))
            },
            Err(_) => json_phrase_map(s@) is None,
        },
{
    match serde_json::from_str::<BTreeMap<String, usize>>(s) {
        Ok(m) => Ok(m.into_iter().collect()),
        Err(e) => Err(e),
    }
}

/// Relies on `serde_json::to_string_pretty` of a map from each phrase to its
/// matches. It fails only where a `Serialize` impl fails or a map key is not a
/// string; neither can happen with string keys and lists of strings.
#[verifier::external_body]
fn table_to_json(t: &Vec<Occurrence>) -> (r: Result<String, serde_json::Error>)
    ensures
        r is Ok && r->Ok_0@ == json_table(occurrence_views(t@)),
{
    let m: BTreeMap<&str, &Vec<String>> = t.iter().map(|o| (o.phrase.as_str(), &o.matches)).collect();
    serde_json::to_string_pretty(&m)
}

/// Why a JSON text could not be read or written.
#[derive(Clone, Copy, Debug, PartialEq, Eq)]
pub enum JsonError {
    /// The dictionary is not a JSON object of unsigned integers.
    Malformed,
}

/// Reads a dictionary written as a JSON object from phrase to tolerance. The
/// phrases come as `json_phrase_map` lists them, no text twice.
pub fn parse_dictionary(json: &str) -> (r: Result<Vec<Phrase>, JsonError>)
    ensures
        match r {
            Ok(ps) => json_phrase_map(json@) == Some(phrase_views(ps@)) && distinct_texts(
                phrase_views(ps@),
            ),
            Err(e) => e == JsonError::Malformed && json_phrase_map(json@) is None,
        },
{
    match parse_phrase_map(json) {
        Ok(v) => {
            let ghost pairs = v@.map_values(|e: (String, usize)| (e.0@, e.1 as nat));
            let mut ps: Vec<Phrase> = Vec::new();
            for i in 0..v.len()
                invariant
                    pairs == v@.map_values(|e: (String, usize)| (e.0@, e.1 as nat)),
                    phrase_views(ps@) == pairs.take(i as int),
            {
                let ghost before = ps@;
                let p = Phrase { text: v[i].0.clone(), max_distance: v[i].1 };
                ps.push(p);
                assert(phrase_views(ps@) =~= pairs.take(i + 1)) by {
                    assert(phrase_views(ps@) =~= phrase_views(before).push(
                        (p.text@, p.max_distance as nat),
                    ));
                }
            }
            assert(pairs.take(v.len() as int) =~= pairs);
            Ok(ps)
        },
        Err(_) => Err(JsonError::Malformed),
    }
}

/// Writes a table of occurrences as a pretty-printed JSON object from each
/// phrase to its list of matches.
pub fn export_json(table: &Vec<Occurrence>) -> (r: String)
    ensures
        r@ == json_table(occurrence_views(table@)),
{
    match table_to_json(table) {
        Ok(s) => s,
        Err(_) => vstd::pervasive::unreached(),
    }
}

} // verus!
