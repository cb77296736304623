use text_matcher_rs::{Candidate, Error, MatchAlgo, ScopeFile, Sensitivity, TextMatcher};
use text_matcher_rs::search::find_matches_in_sources;

fn seujet_lines() -> Vec<String> {
    vec![
        "quai du seujet 36".to_string(),
        "rue du stand 3".to_string(),
        "place du bourg-de-four 1".to_string(),
    ]
}

#[test]
fn sensitivity_lower_than_zero() {
    let r = Sensitivity::new((-1.0f64).to_bits());
    assert!(matches!(r, Err(Error::InvalidSensitivity)));
}

#[test]
fn sensitivity_larger_than_one() {
    let r = Sensitivity::new((1.1f64).to_bits());
    assert!(matches!(r, Err(Error::InvalidSensitivity)));
}

#[test]
fn high_sensitivity() {
    let matches = TextMatcher::new((0.99f64).to_bits(), 5, MatchAlgo::default())
        .unwrap()
        .find_matches_in_lines("qu du seujet 36", &seujet_lines(), "1201", Some(true));
    assert_eq!(matches.len(), 0, "Expected empty Vec, but value was {:?}", matches);
}

#[test]
fn zero_to_keep() {
    let matches = TextMatcher::new((0.7f64).to_bits(), 0, MatchAlgo::default())
        .unwrap()
        .find_matches_in_lines("qu du seujet 36", &seujet_lines(), "1201", Some(true));
    assert_eq!(matches.len(), 0);
}

fn assert_candidate(expected: &str, actual: &Candidate) {
    let sim_lower_threshold = 0.7;
    assert_eq!(expected.to_string(), actual.text);
    let sim = f64::from_bits(actual.similarity);
    assert!(
        sim > sim_lower_threshold,
        "Similarity expected > {}, but value was {}",
        sim_lower_threshold,
        sim
    );
}

#[test]
fn nomal_sensitivity() {
    let found = TextMatcher::new((0.7f64).to_bits(), 5, MatchAlgo::default())
        .unwrap()
        .find_matches_in_lines("qu du seujet 36", &seujet_lines(), "1201", Some(true));
    assert_candidate("quai du seujet 36", &found[0]);
}

#[test]
fn find_in_dir() {
    let sources = vec![
        ScopeFile { name: "1201".to_string(), lines: seujet_lines() },
        ScopeFile {
            name: "3000".to_string(),
            lines: vec!["bernstrasse 7".to_string(), "aarstrasse 76".to_string()],
        },
    ];
    let found = find_matches_in_sources(
        (0.1f64).to_bits(),
        5,
        "qu du seujet 36",
        &sources,
        Some(true),
        MatchAlgo::default(),
    )
    .unwrap();
    assert_candidate("quai du seujet 36", &found[0]);
}
