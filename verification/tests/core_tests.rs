use text_matcher_rs::{Candidate, Error, MatchAlgo, ScopeFile, Sens, StreetMatcher, Text};
use text_matcher_rs::matcher::TextMatcher;
use text_matcher_rs::rank::{rank_and_keep, try_sort_and_keep};
use text_matcher_rs::search::{cfind_matches_in_chunks, merge_ranked, partition_lines};
use text_matcher_rs::street_sim::StreetFile;

#[test]
fn candidate_sensitivity_lower_than_zero() {
    let r = Sens::new((-1.0f64).to_bits());
    assert!(matches!(r, Err(Error::InvalidSensitivity)));
}

#[test]
fn candidate_sensitivity_larger_than_one() {
    let r = Sens::new((1.1f64).to_bits());
    assert!(matches!(r, Err(Error::InvalidSensitivity)));
}

fn cand(text: &str, sim: f64) -> Candidate {
    Candidate { text: text.to_string(), similarity: sim.to_bits(), file_found: String::new() }
}

fn corpus() -> Vec<String> {
    vec![
        "quai du seujet 36".to_string(),
        "rue du stand 3".to_string(),
        "bernstrasse 7".to_string(),
        "aarstrasse 76".to_string(),
    ]
}

// Searching the single-line corpus with Jaro at the loose threshold returns
// exactly the one candidate, strictly above the threshold.
#[test]
fn scenario_jaro_single_file() {
    let lines = vec!["quai du seujet 36".to_string()];
    let found = TextMatcher::new((0.7f64).to_bits(), 5, MatchAlgo::Jaro)
        .unwrap()
        .find_matches_in_lines("qu du seujet 36", &lines, "1201", None);
    assert_eq!(found.len(), 1);
    assert_eq!(found[0].text, "quai du seujet 36");
    assert!(f64::from_bits(found[0].similarity) > 0.7);
}

// The same query against the same corpus at an unreasonably high bar
// returns an empty sequence.
#[test]
fn scenario_jaro_high_bar() {
    let lines = vec!["quai du seujet 36".to_string()];
    let found = TextMatcher::new((0.99f64).to_bits(), 5, MatchAlgo::Jaro)
        .unwrap()
        .find_matches_in_lines("qu du seujet 36", &lines, "1201", None);
    assert_eq!(found.len(), 0);
}

// A keep count of zero always yields the empty sequence, however many
// candidates would qualify.
#[test]
fn scenario_keep_zero() {
    let candidates = vec![cand("a", 0.9), cand("b", 0.8), cand("c", 0.95)];
    let kept = rank_and_keep(candidates, &Sens((0.1f64).to_bits()), 0);
    assert_eq!(kept.len(), 0);
}

// Ranking its own output with the same threshold and keep count returns it
// unchanged.
#[test]
fn ranking_is_idempotent() {
    let candidates = vec![
        cand("a", 0.9),
        cand("b", 0.5),
        cand("c", 0.95),
        cand("d", 0.9),
        cand("e", 0.2),
    ];
    let sens = Sens((0.4f64).to_bits());
    let once = rank_and_keep(candidates, &sens, 3);
    let twice = rank_and_keep(once.clone(), &sens, 3);
    let a: Vec<(String, u64)> = once.iter().map(|c| (c.text.clone(), c.similarity)).collect();
    let b: Vec<(String, u64)> = twice.iter().map(|c| (c.text.clone(), c.similarity)).collect();
    assert_eq!(a, b);
}

// A candidate admitted at a stricter threshold is admitted at a looser one.
#[test]
fn admission_is_monotone() {
    let candidates = vec![cand("a", 0.9), cand("b", 0.65), cand("c", 0.3)];
    let strict = rank_and_keep(candidates.clone(), &Sens((0.8f64).to_bits()), 10);
    let loose = rank_and_keep(candidates, &Sens((0.5f64).to_bits()), 10);
    for c in &strict {
        assert!(loose.iter().any(|l| l.text == c.text));
    }
}

// Ties keep their first-seen order and the sort is descending.
#[test]
fn ranking_orders_and_breaks_ties() {
    let candidates = vec![cand("first", 0.8), cand("top", 0.9), cand("second", 0.8)];
    let kept = rank_and_keep(candidates, &Sens((0.1f64).to_bits()), 10);
    let texts: Vec<&str> = kept.iter().map(|c| c.text.as_str()).collect();
    assert_eq!(texts, vec!["top", "first", "second"]);
}

#[test]
fn sort_and_keep_of_nothing_is_not_found() {
    let mut empty: Vec<Candidate> = Vec::new();
    let r = try_sort_and_keep(&mut empty, 5);
    assert!(matches!(r, Err(Error::NotFound)));
}

#[test]
fn error_descriptions() {
    assert_eq!(Error::NotFound.describe(), "CandidatesNotFound");
    assert_eq!(Error::Io("broken".to_string()).describe(), "IoFailure");
    assert_eq!(Error::MissingStreetNumber.describe(), "MissingStreetNumber");
    assert_eq!(Error::InvalidSensitivity.describe(), "InvalidSensitivity");
}

// The directory search result does not depend on how many partitions the
// lines were split into.
#[test]
fn partition_count_invariance() {
    let sens = (0.3f64).to_bits();
    let one = partition_lines(corpus(), 1);
    let three = partition_lines(corpus(), 3);
    let r1 = cfind_matches_in_chunks(sens, 3, "aarstrasse 76", &one, "src", MatchAlgo::Jaro)
        .unwrap();
    let r3 = cfind_matches_in_chunks(sens, 3, "aarstrasse 76", &three, "src", MatchAlgo::Jaro)
        .unwrap();
    let a: Vec<(String, u64)> = r1.iter().map(|c| (c.text.clone(), c.similarity)).collect();
    let b: Vec<(String, u64)> = r3.iter().map(|c| (c.text.clone(), c.similarity)).collect();
    assert_eq!(a, b);
}

// Merging per-part results ranks their union.
#[test]
fn merge_reranks_parts() {
    let parts = vec![
        vec![cand("a", 0.9), cand("b", 0.7)],
        vec![cand("c", 0.95), cand("d", 0.8)],
    ];
    let merged = merge_ranked(parts, &Sens((0.75f64).to_bits()), 10);
    let texts: Vec<&str> = merged.iter().map(|c| c.text.as_str()).collect();
    assert_eq!(texts, vec!["c", "a", "d"]);
}

// The case-folding wrapper really folds: an uppercase accented input comes
// out lowercase in the cleaned form.
#[test]
fn text_new_folds_case_and_strips() {
    let t = Text::new("  ÄB-C'S 7 ".to_string());
    assert_eq!(t.cleaned, "äbcs7");
    assert_eq!(t.init, "  ÄB-C'S 7 ");
}

// The first-letter filter drops candidates whose leading grapheme differs.
#[test]
fn first_letter_filter_drops_mismatches() {
    let lines = vec!["abcd".to_string(), "xbcd".to_string()];
    let sens = (0.1f64).to_bits();
    let unfiltered = TextMatcher::new(sens, 10, MatchAlgo::Jaro)
        .unwrap()
        .find_matches_in_lines("abcd", &lines, "", Some(false));
    let filtered = TextMatcher::new(sens, 10, MatchAlgo::Jaro)
        .unwrap()
        .find_matches_in_lines("abcd", &lines, "", Some(true));
    assert_eq!(unfiltered.len(), 2);
    assert_eq!(filtered.len(), 1);
    assert_eq!(filtered[0].text, "abcd");
}

fn assert_close(actual_bits: u64, expected: f64) {
    let actual = f64::from_bits(actual_bits);
    assert!(
        (actual - expected).abs() < 1e-9,
        "expected {} but the score was {}",
        expected,
        actual
    );
}

#[test]
fn levenshtein_score_value() {
    // distance 3 over the longer length 7
    assert_close(MatchAlgo::Levenshtein.score("kitten", "sitting"), 1.0 - 3.0 / 7.0);
}

#[test]
fn damerau_levenshtein_score_value() {
    // one transposition over length 5
    assert_close(MatchAlgo::DamerauLevenshtein.score("abcde", "abced"), 1.0 - 1.0 / 5.0);
}

#[test]
fn jaro_score_value() {
    assert_close(MatchAlgo::Jaro.score("martha", "marhta"), 17.0 / 18.0);
}

#[test]
fn jaro_winkler_score_value() {
    // jaro 17/18 with a common prefix of length 3
    let jaro = 17.0 / 18.0;
    assert_close(MatchAlgo::JaroWinkler.score("martha", "marhta"), jaro + 0.3 * (1.0 - jaro));
}

#[test]
fn sorensen_dice_score_value() {
    assert_close(MatchAlgo::SorensenDice.score("feris", "ferris"), 0.8888888888888888);
}

#[test]
fn osa_score_value() {
    // one transposition over the length 6; the encoder rounds toward zero,
    // within one unit in the last place of the exact ratio
    let got = f64::from_bits(MatchAlgo::Osa.score("abcdef", "abcdfe"));
    assert!((got - 5.0 / 6.0).abs() < 1e-9, "score was {}", got);
}

#[test]
fn osa_score_of_equal_strings_is_one() {
    assert_eq!(MatchAlgo::Osa.score("bernstrasse 7", "bernstrasse 7"), (1.0f64).to_bits());
}

#[test]
fn candidate_from_starts_unscored() {
    let c = Candidate::from("quai du seujet 36");
    assert_eq!(c.text, "quai du seujet 36");
    assert_eq!(c.similarity, 0);
    assert_eq!(c.file_found, "");
}

// Resolving with an existing scope confirms it; a scope that no file bears
// still finds the street through the broad fallback, with no scope claimed.
#[test]
fn scenario_scope_confirmation_and_fallback() {
    let dir = vec![ScopeFile {
        name: "1201".to_string(),
        lines: vec!["quai du seujet 36".to_string()],
    }];
    let with_scope = StreetMatcher::default()
        .match_by_plz("qu du seujet 36", Some(1201), &dir)
        .unwrap();
    assert_eq!(with_scope.street.as_deref(), Some("quai du seujet 36"));
    assert_eq!(with_scope.file_found.as_deref(), Some("1201"));
    let without_scope = StreetMatcher::default()
        .match_by_plz("qu du seujet 36", Some(9999999), &dir)
        .unwrap();
    assert_eq!(without_scope.street.as_deref(), Some("quai du seujet 36"));
    assert_eq!(without_scope.file_found, None);
}

// All grouped values come back sorted and unique; a hit on the key narrows
// to that group alone.
#[test]
fn street_file_values() {
    let data = StreetFile::new(vec![
        ScopeFile {
            name: "1201".to_string(),
            lines: vec!["b street 2".to_string(), "a street 1".to_string()],
        },
        ScopeFile {
            name: "3000".to_string(),
            lines: vec!["a street 1".to_string(), "c street 3".to_string()],
        },
    ]);
    let all = data.get_all_values();
    assert_eq!(all, vec!["a street 1", "b street 2", "c street 3"]);
    let (narrow, passed) = data.try_get_values_by(text_matcher_rs::Plz::new(3000));
    assert_eq!(narrow, vec!["a street 1", "c street 3"]);
    assert!(passed.is_some());
    let (broad, missed) = data.try_get_values_by(text_matcher_rs::Plz::new(42));
    assert_eq!(broad, vec!["a street 1", "b street 2", "c street 3"]);
    assert!(missed.is_none());
}

#[test]
fn plz_renders_decimally() {
    assert_eq!(text_matcher_rs::Plz::new(1201).0, "1201");
    assert_eq!(text_matcher_rs::Plz::new(0).0, "0");
}

#[test]
fn place_resolves_against_list() {
    let places = vec!["bercher".to_string(), "bern".to_string()];
    let p = text_matcher_rs::Place::new("Bercher", &places);
    assert_eq!(p.0, "bercher");
    let q = text_matcher_rs::Place::new("qqqqqq", &places);
    assert_eq!(q.0, "qqqqqq");
}

// The filter compares only the first grapheme, not the whole text: a line
// sharing just its first letter with the query is still scored.
#[test]
fn first_letter_filter_is_first_letter_only() {
    let lines = vec!["ax".to_string()];
    let found = TextMatcher::new((0.1f64).to_bits(), 10, MatchAlgo::Jaro)
        .unwrap()
        .find_matches_in_lines("ab", &lines, "", Some(true));
    assert_eq!(found.len(), 1);
    assert_eq!(found[0].text, "ax");
}
