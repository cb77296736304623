use text_matcher_rs::{Candidate, Error, Place, Plz, ScopeFile, Sens, Street, StreetFile};
use text_matcher_rs::street_sim::find_matches;

const STREET_WITHOUT_NUMBERS: &str = "Bernstrasse";
const STREET_WITH_NUMBER: &str = "Bernstrasse 7";

fn street_names() -> Vec<String> {
    vec![
        "bernstrasse".to_string(),
        "quai du seujet".to_string(),
        "chemin de saint-cierges".to_string(),
        "aarstrasse".to_string(),
    ]
}

fn places_list() -> Vec<String> {
    vec!["bercher".to_string(), "bern".to_string(), "zurich".to_string()]
}

fn group(name: &str, lines: &[&str]) -> ScopeFile {
    ScopeFile {
        name: name.to_string(),
        lines: lines.iter().map(|l| l.to_string()).collect(),
    }
}

fn seujet_data() -> StreetFile {
    StreetFile::new(vec![
        group("1201", &["quai du seujet 36", "quai du seujet 2"]),
        group("bercher", &["chemin de saint-cierges 3"]),
    ])
}

#[test]
fn street_sim_max_sensitivity() {
    // Some random string in the input
    let street = "FdsfdsfsdfssFSDfdsfsdfsBernstrasse 7";
    let one = Sens((1.0f64).to_bits());
    let r = Street::new(street, Some(one), &street_names());
    assert!(matches!(r, Err(Error::NotFound)));
}

#[test]
fn street_sim_street_contains_numbers() {
    assert!(Street::contains_numbers(STREET_WITH_NUMBER))
}

#[test]
fn street_sim_street_does_not_contain_numbers() {
    assert!(!Street::contains_numbers(STREET_WITHOUT_NUMBERS))
}

#[test]
fn street_sim_no_numbers_in_street_plz() {
    let r = Street::new(STREET_WITHOUT_NUMBERS, None, &street_names());
    assert!(matches!(r, Err(Error::MissingStreetNumber)));
}

fn assert_clean_street(expected_street: &str, street_to_clean: &str) {
    assert_eq!(
        expected_street.to_string(),
        Street::new(street_to_clean, None, &street_names()).unwrap().value.cleaned
    );
}

#[test]
fn street_sim_clean_street() {
    assert_clean_street("bernstrasse7", "   Bernstrasse 7   ");
    assert_clean_street("bernstrassea4", "   a4 Bernstrasse   ");
    assert_clean_street("bernstrasse4", "   4 Bernstrasse   ");
    assert_clean_street("bernstrasse4a", "   Bernstrasse 4a, 5, 6   ");
    assert_clean_street("bernstrasse4a", "   Bernstrasse 4a 5 6   ");
    assert_clean_street("bernstrasse4a", "   Bernstrasse 4a-5-6   ");
    assert_clean_street("bernstrasse4a", "   Bernstrasse 4a/5/6   ");
    assert_clean_street("bernstrasse4a", "   Bernstrasse 4a. 5 6   ");
    assert_clean_street("bernstrasse4a", "  Bernstrasse 4 A fasdfs");
}

#[test]
fn street_sim_match_with_place() {
    let location = Place::new("bercher", &places_list());
    assert_eq!(
        find_matches(
            &Street::new("ch de saint-cierges 3", None, &street_names()).unwrap(),
            Some(location.clone()),
            None,
            &seujet_data(),
        ),
        (Some(Candidate::from("chemin de saint-cierges 3")), Some(location))
    );
}

#[test]
fn street_sim_match_without_place() {
    let mat = find_matches::<Place>(
        &Street::new("ch de saint-cierges 3", None, &street_names()).unwrap(),
        None,
        None,
        &seujet_data(),
    );
    assert_eq!(mat, (Some(Candidate::from("chemin de saint-cierges 3")), None));
}

#[test]
fn street_sim_match_with_plz() {
    let location = Plz::new(1201);
    let mat = find_matches(
        &Street::new("qu du seujet 36", None, &street_names()).unwrap(),
        Some(location.clone()),
        None,
        &seujet_data(),
    );
    assert_eq!(mat, (Some(Candidate::from("quai du seujet 36")), Some(location)));
}

#[test]
fn street_sim_match_without_plz() {
    let mat = find_matches::<Plz>(
        &Street::new("qu du seujet 36", None, &street_names()).unwrap(),
        None,
        None,
        &seujet_data(),
    );
    assert_eq!(mat, (Some(Candidate::from("quai du seujet 36")), None));
}

#[test]
fn street_sim_match_with_wrong_plz() {
    let mat = find_matches(
        &Street::new("qu du seujet 36", None, &street_names()).unwrap(),
        Some(Plz::new(1231231)),
        None,
        &seujet_data(),
    );
    assert_eq!(mat, (Some(Candidate::from("quai du seujet 36")), None));
}

#[test]
fn street_sim_match_with_wrong_first_word() {
    let location = Plz::new(1201);
    let mat = find_matches(
        &Street::new("uai du seujet 36", None, &street_names()).unwrap(),
        Some(location.clone()),
        None,
        &seujet_data(),
    );
    assert_eq!(mat, (Some(Candidate::from("quai du seujet 36")), Some(location)));
}

#[test]
fn street_sim_match_with_wrong_first_word_no_plz() {
    let mat = find_matches::<Plz>(
        &Street::new("uai du seujet 36", None, &street_names()).unwrap(),
        None,
        None,
        &seujet_data(),
    );
    assert_eq!(mat, (Some(Candidate::from("quai du seujet 36")), None));
}

#[test]
fn street_sim_match_with_wrong_first_word_wrong_plz() {
    let location = Plz::new(2132131);
    let mat = find_matches(
        &Street::new("uai du seujet 36", None, &street_names()).unwrap(),
        Some(location),
        None,
        &seujet_data(),
    );
    assert_eq!(mat, (Some(Candidate::from("quai du seujet 36")), None));
}
