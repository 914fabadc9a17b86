use find_occurences::distance::distance;
use find_occurences::matcher::{find_approx_match, find_matches, MatchError};
use find_occurences::tokenize::{split_lines, split_words, strip_str, RemovePunctuation};

#[test]
fn test_remove_punctuation() {
    let line = "He said: \"Hello, world!\"";
    let result = "He said Hello world";

    assert_eq!(line.to_string().remove_punctuation(), result);
}

#[test]
fn test_find_approx_match() {
    let line =
        "Le vallet Jehan de Luxembourcq pris son arme.\n Il s'appelait Jehan de Luxembourg.";
    let string = "Jehan de Luxembourc";
    let max_distance = 3;

    assert_eq!(
        find_approx_match(line, string, max_distance),
        (
            2,
            vec![
                "Jehan de Luxembourcq".to_string(),
                "Jehan de Luxembourg".to_string()
            ]
        )
    );
}

#[test]
fn strip_keeps_letters_digits_and_non_ascii() {
    assert_eq!(strip_str("l'an 1415, à Paris!"), "lan 1415 à Paris");
    assert_eq!(strip_str(""), "");
    assert_eq!(strip_str("«»—"), "«»—");
}

#[test]
fn split_words_on_runs_of_whitespace() {
    assert_eq!(split_words("  a \t bc\n\u{3000}d  "), vec!["a", "bc", "d"]);
    assert!(split_words("").is_empty());
    assert!(split_words(" \n\t ").is_empty());
}

#[test]
fn split_words_agrees_with_std() {
    let s = "x\u{85}y\u{a0}z\u{1680}w\u{2000}v\u{200a}u\u{2028}t\u{2029}s\u{202f}r\u{205f}q\u{3000}p\u{b}o\u{c}n\rm";
    let std_words: Vec<String> = s.split_whitespace().map(|w| w.to_string()).collect();
    assert_eq!(split_words(s), std_words);
}

#[test]
fn split_lines_at_newlines() {
    assert_eq!(split_lines("a b\nc\n\nd"), vec!["a b", "c", "", "d"]);
    assert_eq!(split_lines("a\n"), vec!["a"]);
    assert!(split_lines("").is_empty());
    assert_eq!(split_lines("\n"), vec![""]);
}

#[test]
fn distance_exact_values() {
    assert_eq!(distance("kitten", "sitting"), 3);
    assert_eq!(distance("", "abc"), 3);
    assert_eq!(distance("Jehan de Luxembourg", "Jehan de Luxembourc"), 1);
    assert_eq!(distance("é", "e"), 1);
}

#[test]
fn distance_to_self_is_zero() {
    for a in ["", "a", "Jehan de Luxembourg", "ééé"] {
        assert_eq!(distance(a, a), 0);
    }
}

#[test]
fn distance_is_symmetric() {
    let pairs = [("kitten", "sitting"), ("", "ab"), ("Luxembourcq", "Luxembourg"), ("abc", "ca")];
    for (a, b) in pairs {
        assert_eq!(distance(a, b), distance(b, a));
    }
}

#[test]
fn short_line_has_no_window() {
    assert_eq!(find_approx_match("Jehan de", "Jehan de Luxembourg", 100), (0, vec![]));
    assert_eq!(find_approx_match("", "Jehan", 100), (0, vec![]));
}

#[test]
fn larger_tolerance_keeps_matches() {
    let line = "prins par messire Jehan de Luxembourg et autres";
    let phrase = "Jehan de Luxembourc";
    let mut previous: Vec<String> = Vec::new();
    for tol in 0..30 {
        let (n, found) = find_approx_match(line, phrase, tol);
        assert_eq!(n, found.len());
        for m in &previous {
            assert!(found.contains(m));
        }
        assert!(found.len() >= previous.len());
        previous = found;
    }
    assert_eq!(previous.len(), 6);
}

#[test]
fn scenario_single_match_at_distance_one() {
    let line = "prins par messire Jehan de Luxembourg et autres";
    let (n, found) = find_approx_match(line, "Jehan de Luxembourc", 3);
    assert_eq!(n, 1);
    assert_eq!(found, vec!["Jehan de Luxembourg".to_string()]);
    assert_eq!(distance(&found[0], "Jehan de Luxembourc"), 1);
}

#[test]
fn scenario_variant_spelling() {
    let line = "Le vallet Jehan de Luxembourcq pris son arme.";
    let (n, found) = find_approx_match(line, "Jehan de Luxembourc", 3);
    assert_eq!(n, 1);
    assert_eq!(found, vec!["Jehan de Luxembourcq".to_string()]);
    assert_eq!(distance(&found[0], "Jehan de Luxembourc"), 1);
}

#[test]
fn scenario_two_sentences_two_matches() {
    let line = "Le vallet Jehan de Luxembourcq pris son arme. Il s'appelait Jehan de Luxembourg.";
    let (n, found) = find_approx_match(line, "Jehan de Luxembourc", 3);
    assert_eq!(n, 2);
    assert_eq!(
        found,
        vec!["Jehan de Luxembourcq".to_string(), "Jehan de Luxembourg".to_string()]
    );
}

#[test]
fn scenario_zero_tolerance_exact_only() {
    let line = "le roi de France et le roy de France";
    let (n, found) = find_approx_match(line, "roi de France", 0);
    assert_eq!(n, 1);
    assert_eq!(found, vec!["roi de France".to_string()]);
    assert_eq!(find_approx_match(line, "roi de France", 1).0, 2);
}

#[test]
fn punctuation_is_stripped_from_the_phrase_too() {
    let (n, found) = find_approx_match("Il s'appelait Jehan.", "s'appelait Jehan", 0);
    assert_eq!(n, 1);
    assert_eq!(found, vec!["sappelait Jehan".to_string()]);
}

#[test]
fn overlapping_windows_are_all_reported() {
    let (n, found) = find_approx_match("aa aa aa", "aa aa", 0);
    assert_eq!(n, 2);
    assert_eq!(found, vec!["aa aa".to_string(), "aa aa".to_string()]);
}

#[test]
fn find_matches_rejects_a_phrase_without_words() {
    assert_eq!(find_matches("a b", "", 3), Err(MatchError::EmptyPhrase));
    assert_eq!(find_matches("a b", " \t ", 3), Err(MatchError::EmptyPhrase));
    assert_eq!(find_matches("a b", "b", 0), Ok((1, vec!["b".to_string()])));
}

#[test]
fn phrase_whitespace_is_kept_in_the_comparison() {
    assert_eq!(find_approx_match("a", " a", 0), (0, vec![]));
    assert_eq!(find_approx_match("a", " a", 1), (1, vec!["a".to_string()]));
    assert_eq!(find_approx_match("a b", "a  b", 0), (0, vec![]));
    assert_eq!(find_approx_match("a b", "a  b", 1), (1, vec!["a b".to_string()]));
}
