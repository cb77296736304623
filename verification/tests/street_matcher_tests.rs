use text_matcher_rs::{Error, MatchedStreet, ScopeFile, StreetMatcher, SwissStreet};

const STREET_WITHOUT_NUMBERS: &str = "Bernstrasse";
const STREET_WITH_NUMBER: &str = "Bernstrasse 7";

fn scope(name: &str, lines: &[&str]) -> ScopeFile {
    ScopeFile {
        name: name.to_string(),
        lines: lines.iter().map(|l| l.to_string()).collect(),
    }
}

fn seujet_dir() -> Vec<ScopeFile> {
    vec![
        scope("1201", &["quai du seujet 36", "rue du stand 3"]),
        scope("3000", &["bernstrasse 7", "aarstrasse 76"]),
    ]
}

fn places_dir() -> Vec<ScopeFile> {
    vec![
        scope("bercher", &["chemin de saint-cierges 3", "rue du village 1"]),
        scope("bern", &["aarstrasse 76"]),
    ]
}

fn places_list() -> Vec<String> {
    vec!["bercher".to_string(), "bern".to_string(), "zurich".to_string()]
}

#[test]
fn street_matcher_max_sensitivity() {
    // Some random string in the input
    let street = "FdsfdsfsdfssFSDfdsfsdfsBernstrasse 7";
    let one = (1.0f64).to_bits();
    let mat = StreetMatcher::new(Some(one), Some(one))
        .match_by_plz(street, None, &seujet_dir())
        .unwrap();
    assert_eq!(mat, MatchedStreet::empty());
}

#[test]
fn street_matcher_street_contains_numbers() {
    assert!(SwissStreet::contains_numbers(STREET_WITH_NUMBER))
}

#[test]
fn street_matcher_street_does_not_contain_numbers() {
    assert!(!SwissStreet::contains_numbers(STREET_WITHOUT_NUMBERS))
}

#[test]
fn street_matcher_no_numbers_in_street_plz() {
    let r = StreetMatcher::default().match_by_plz(STREET_WITHOUT_NUMBERS, None, &seujet_dir());
    assert!(matches!(r, Err(Error::MissingStreetNumber)));
}

#[test]
fn no_numbers_in_street_place() {
    let r = StreetMatcher::default().match_by_place(
        STREET_WITHOUT_NUMBERS,
        None,
        &places_dir(),
        &places_list(),
    );
    assert!(matches!(r, Err(Error::MissingStreetNumber)));
}

fn assert_clean_street(expected_street: &str, street_to_clean: &str) {
    assert_eq!(expected_street.to_string(), SwissStreet::clean(street_to_clean));
}

#[test]
fn street_matcher_clean_street() {
    assert_clean_street("bernstrasse 7", "   Bernstrasse 7   ");
    assert_clean_street("bernstrasse a4", "   a4 Bernstrasse   ");
    assert_clean_street("bernstrasse 4", "   4 Bernstrasse   ");
    assert_clean_street("bernstrasse 4a", "   Bernstrasse 4a, 5, 6   ");
    assert_clean_street("bernstrasse 4a", "   Bernstrasse 4a 5 6   ");
    assert_clean_street("bernstrasse 4a", "   Bernstrasse 4a-5-6   ");
    assert_clean_street("bernstrasse 4a", "   Bernstrasse 4a/5/6   ");
    assert_clean_street("bernstrasse 4a", "   Bernstrasse 4a. 5 6   ");
    assert_clean_street("bernstrasse 4 a", "  Bernstrasse 4 A fasdfs");
}

#[test]
fn street_matcher_match_with_place() {
    let mat = StreetMatcher::default()
        .match_by_place("ch de saint-cierges 3", Some("bercher"), &places_dir(), &places_list())
        .unwrap();
    assert_eq!(
        mat,
        MatchedStreet::new("chemin de saint-cierges 3".to_string(), "bercher".to_string())
    );
}

#[test]
fn street_matcher_match_without_place() {
    let mat = StreetMatcher::default()
        .match_by_place("ch de saint-cierges 3", None, &places_dir(), &places_list())
        .unwrap();
    assert_eq!(mat.street.unwrap(), "chemin de saint-cierges 3".to_string());
}

#[test]
fn street_matcher_match_with_plz() {
    let mat = StreetMatcher::default()
        .match_by_plz("qu du seujet 36", Some(1201), &seujet_dir())
        .unwrap();
    assert_eq!(mat.street.unwrap(), String::from("quai du seujet 36"));
    assert_eq!(mat.file_found.unwrap(), String::from("1201"));
}

#[test]
fn street_matcher_match_without_plz() {
    let mat = StreetMatcher::default().match_by_plz("qu du seujet 36", None, &seujet_dir()).unwrap();
    assert_eq!(mat.street.unwrap(), String::from("quai du seujet 36"));
    assert_eq!(mat.file_found, None)
}

#[test]
fn street_matcher_match_with_wrong_plz() {
    let mat = StreetMatcher::default()
        .match_by_plz("qu du seujet 36", Some(1231231), &seujet_dir())
        .unwrap();
    assert_eq!(mat.street.unwrap(), String::from("quai du seujet 36"));
    assert_eq!(mat.file_found, None)
}

#[test]
fn street_matcher_match_with_wrong_first_word() {
    let mat = StreetMatcher::default()
        .match_by_plz("u du seujet 36", Some(1201), &seujet_dir())
        .unwrap();
    assert_eq!(mat.street.unwrap(), String::from("quai du seujet 36"));
    assert_eq!(mat.file_found.unwrap(), String::from("1201"))
}

#[test]
fn street_matcher_match_with_wrong_first_word_no_plz() {
    let mat = StreetMatcher::default().match_by_plz("u du seujet 36", None, &seujet_dir()).unwrap();
    assert_eq!(mat.street.unwrap(), String::from("quai du seujet 36"));
    assert_eq!(mat.file_found, None)
}

#[test]
fn street_matcher_match_with_wrong_first_word_wrong_plz() {
    let mat = StreetMatcher::default()
        .match_by_plz("u du seujet 36", Some(2132131), &seujet_dir())
        .unwrap();
    assert_eq!(mat.street.unwrap(), String::from("quai du seujet 36"));
    assert_eq!(mat.file_found, None)
}
