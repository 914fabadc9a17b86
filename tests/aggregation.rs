use find_occurences::json::{export_json, parse_dictionary, JsonError};
use find_occurences::scan::{scan, scan_document, Occurrence, Phrase, ScanError};

fn phrase(text: &str, max_distance: usize) -> Phrase {
    Phrase { text: text.to_string(), max_distance }
}

fn lines(v: &[&str]) -> Vec<String> {
    v.iter().map(|l| l.to_string()).collect()
}

#[test]
fn one_match_per_line_gives_one_per_line() {
    let doc = lines(&[
        "Jehan de Luxembourg vint",
        "puis Jehan de Luxembourcq",
        "et messire Jehan de Luxembourc",
        "Jehan de Luxembourg.",
    ]);
    let table = scan(&doc, &vec![phrase("Jehan de Luxembourc", 1)]).unwrap();
    assert_eq!(table.len(), 1);
    assert_eq!(table[0].phrase, "Jehan de Luxembourc");
    assert_eq!(table[0].matches.len(), 4);
}

#[test]
fn matches_come_in_document_order() {
    let doc = lines(&["Paris et Parys", "rien", "Pariss"]);
    let table = scan(&doc, &vec![phrase("Paris", 1), phrase("Rome", 0)]).unwrap();
    assert_eq!(
        table,
        vec![Occurrence {
            phrase: "Paris".to_string(),
            matches: vec!["Paris".to_string(), "Parys".to_string(), "Pariss".to_string()],
        }]
    );
}

#[test]
fn windows_do_not_cross_lines() {
    let table = scan_document("Jehan de\nLuxembourg", &vec![phrase("Jehan de Luxembourg", 3)]);
    assert_eq!(table, Ok(vec![]));
    let table = scan_document("Jehan de Luxembourg\n", &vec![phrase("Jehan de Luxembourg", 0)]);
    assert_eq!(table.unwrap()[0].matches, vec!["Jehan de Luxembourg".to_string()]);
}

#[test]
fn empty_phrase_is_rejected() {
    let doc = lines(&["a b c"]);
    let ps = vec![phrase("a", 0), phrase("  ", 0), phrase("", 0)];
    assert_eq!(scan(&doc, &ps), Err(ScanError::EmptyPhrase(1)));
    assert_eq!(scan_document("a", &vec![phrase("", 2)]), Err(ScanError::EmptyPhrase(0)));
}

#[test]
fn empty_document_gives_empty_table() {
    assert_eq!(scan(&vec![], &vec![phrase("a", 3)]), Ok(vec![]));
    assert_eq!(scan_document("", &vec![phrase("a", 3)]), Ok(vec![]));
}

#[test]
fn parse_dictionary_reads_an_object() {
    let ps = parse_dictionary("{\"Paris\": 1, \"Jehan de Luxembourg\": 3}").unwrap();
    assert_eq!(ps, vec![phrase("Jehan de Luxembourg", 3), phrase("Paris", 1)]);
    assert_eq!(parse_dictionary("{}"), Ok(vec![]));
}

#[test]
fn parse_dictionary_rejects_other_json() {
    assert_eq!(parse_dictionary("{\"a\": -1}"), Err(JsonError::Malformed));
    assert_eq!(parse_dictionary("[1, 2]"), Err(JsonError::Malformed));
    assert_eq!(parse_dictionary("{\"a\": 1"), Err(JsonError::Malformed));
}

#[test]
fn export_json_maps_phrases_to_matches() {
    let table = vec![Occurrence { phrase: "a".to_string(), matches: vec!["x".to_string()] }];
    assert_eq!(export_json(&table), "{\n  \"a\": [\n    \"x\"\n  ]\n}");
    assert_eq!(export_json(&vec![]), "{}");
}

#[test]
fn export_json_orders_keys() {
    let table = vec![
        Occurrence { phrase: "b".to_string(), matches: vec![] },
        Occurrence { phrase: "a".to_string(), matches: vec!["y".to_string(), "z".to_string()] },
    ];
    assert_eq!(
        export_json(&table),
        "{\n  \"a\": [\n    \"y\",\n    \"z\"\n  ],\n  \"b\": []\n}"
    );
}

#[test]
fn duplicate_phrase_is_rejected() {
    let doc = lines(&["a b c"]);
    let ps = vec![phrase("a", 0), phrase("b", 1), phrase("a", 2)];
    assert_eq!(scan(&doc, &ps), Err(ScanError::DuplicatePhrase(2)));
    let ps = vec![phrase("a", 0), phrase("a", 0), phrase("", 0)];
    assert_eq!(scan(&doc, &ps), Err(ScanError::DuplicatePhrase(1)));
    let ps = vec![phrase("a", 0), phrase("", 0), phrase("a", 0)];
    assert_eq!(scan(&doc, &ps), Err(ScanError::EmptyPhrase(1)));
}
