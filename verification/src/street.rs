use vstd::prelude::*;
use vstd::string::*;
use crate::candidate::{valid_sens, Candidate, CandidateView, Error, DEFAULT_SENS_BITS};
use crate::chars::{chars_of, dec_str_spec, str_eq, string_of, to_decimal};
use crate::matcher::{matches_spec, TextMatcher};
use crate::normalize::{clean_chars_spec, clean_street, contains_digit, has_digit, lower_of,
    lowercase, strip_punct, strip_punct_spec, trim_chars, trim_spec};
use crate::rank::rank_spec;
use crate::score::MatchAlgo;
use crate::search::{concat_results, find_matches_in_sources, source_results_spec, ScopeFile,
    ScopeFileView};

verus! {

/// The stricter threshold for a lookup inside one scope file, where near
/// exact agreement is expected.
pub const FILE_SENS_BITS: u64 = 0x3FEBD70A3D70A3D7;

/// The threshold for resolving a human-entered place name to its canonical
/// spelling.
pub const PLACE_SEARCH_SENS_BITS: u64 = 0x3FE6666666666666;

/// How many candidates each search tier retains.
pub const NUM_TO_KEEP: usize = 50;

/// A street string accepted by the address pipeline: it held a digit, and
/// its value is the cleaned, spaced canonical form.
pub struct SwissStreet {
    pub value: String,
}

impl SwissStreet {
    /// Cleans the street after checking the digit precondition; a street
    /// without any digit is refused with `MissingStreetNumber`.
    pub fn new(street: &str) -> (r: Result<SwissStreet, Error>)
        ensures
            has_digit(street@) ==> (r matches Ok(s) && s.value@ == clean_chars_spec(street@)),
            !has_digit(street@) ==> (r matches Err(e) && e is MissingStreetNumber),
    {
        if !SwissStreet::contains_numbers(street) {
            return Err(Error::MissingStreetNumber);
        }
        Ok(SwissStreet { value: SwissStreet::clean(street) })
    }

    /// Whether the street holds any digit at all.
    pub fn contains_numbers(street: &str) -> (r: bool)
        ensures
            r == has_digit(street@),
    {
        contains_digit(&chars_of(street))
    }

    /// The cleaned, spaced form of a raw street string.
    pub fn clean(street: &str) -> (r: String)
        ensures
            r@ == clean_chars_spec(street@),
    {
        clean_street(street)
    }
}

/// The mathematical content of a match outcome.
pub ghost struct MatchedStreetView {
    pub street: Option<Seq<char>>,
    pub file_found: Option<Seq<char>>,
}

/// The outcome of a street match: the winning candidate text, if any, and
/// the narrow scope it was confirmed in, if any.
#[derive(Debug)]
pub struct MatchedStreet {
    pub street: Option<String>,
    pub file_found: Option<String>,
}

impl View for MatchedStreet {
    type V = MatchedStreetView;

    open spec fn view(&self) -> MatchedStreetView {
        MatchedStreetView {
            street: match self.street {
                Some(ref s) => Some(s@),
                None => None,
            },
            file_found: match self.file_found {
                Some(ref f) => Some(f@),
                None => None,
            },
        }
    }
}

impl PartialEq for MatchedStreet {
    /// Outcomes agree when both fields agree.
    fn eq(&self, other: &Self) -> bool {
        let st = match (&self.street, &other.street) {
            (Some(a), Some(b)) => crate::chars::str_eq(a.as_str(), b.as_str()),
            (None, None) => true,
            _ => false,
        };
        let ff = match (&self.file_found, &other.file_found) {
            (Some(a), Some(b)) => crate::chars::str_eq(a.as_str(), b.as_str()),
            (None, None) => true,
            _ => false,
        };
        st && ff
    }
}

impl vstd::std_specs::cmp::PartialEqSpecImpl for MatchedStreet {
    open spec fn obeys_eq_spec() -> bool {
        true
    }

    open spec fn eq_spec(&self, other: &Self) -> bool {
        self@ == other@
    }
}

impl MatchedStreet {
    /// An outcome with both the street and its scope settled.
    pub fn new(street: String, file_found: String) -> (r: MatchedStreet)
        ensures
            r@.street == Some(street@),
            r@.file_found == Some(file_found@),
    {
        MatchedStreet { street: Some(street), file_found: Some(file_found) }
    }

    /// The outcome of a search that found nothing.
    pub fn empty() -> (r: MatchedStreet)
        ensures
            r@.street is None,
            r@.file_found is None,
    {
        MatchedStreet { street: None, file_found: None }
    }
}

/// The scope confirmed for the best candidate: the hinted scope name, kept
/// only when some candidate of the same text was found in that very scope.
pub open spec fn confirmed_scope(c: Seq<CandidateView>, file: Option<Seq<char>>) -> Option<
    Seq<char>,
> {
    match file {
        None => None,
        Some(name) => if exists|i: int|
            0 <= i < c.len() && c[i].text == c[0].text && c[i].file_found == name {
            Some(name)
        } else {
            None
        },
    }
}

/// The outcome built from ranked candidates: the best text, if any, with
/// the scope confirmation applied.
pub open spec fn matched_from_spec(c: Seq<CandidateView>, file: Option<Seq<char>>) -> MatchedStreetView {
    if c.len() == 0 {
        MatchedStreetView { street: None, file_found: None }
    } else {
        MatchedStreetView { street: Some(c[0].text), file_found: confirmed_scope(c, file) }
    }
}

/// Builds the outcome from ranked candidates and an optional hinted scope.
fn matched_from(candidates: &Vec<Candidate>, file_candidate: Option<String>) -> (r: MatchedStreet)
    ensures
        r@ == matched_from_spec(
            candidates.deep_view(),
            match file_candidate {
                Some(ref f) => Some(f@),
                None => None,
            },
        ),
{
    if candidates.len() == 0 {
        return MatchedStreet { street: None, file_found: None };
    }
    let best = candidates[0].text.clone();
    match file_candidate {
        None => MatchedStreet { street: Some(best), file_found: None },
        Some(name) => {
            let mut i: usize = 0;
            let mut hit: bool = false;
            while i < candidates.len() && !hit
                invariant
                    i <= candidates@.len(),
                    candidates@.len() > 0,
                    best@ == candidates.deep_view()[0].text,
                    hit ==> i < candidates@.len() && candidates.deep_view()[i as int].text
                        == best@ && candidates.deep_view()[i as int].file_found == name@,
                    !hit ==> forall|j: int|
                        0 <= j < i ==> !(candidates.deep_view()[j].text
                            == candidates.deep_view()[0].text
                            && candidates.deep_view()[j].file_found == name@),
                decreases candidates@.len() - i + (if hit { 0int } else { 1int }),
            {
                let c = &candidates[i];
                if c.text == best && c.file_found == name {
                    hit = true;
                } else {
                    i += 1;
                }
            }
            if hit {
                MatchedStreet { street: Some(best), file_found: Some(name) }
            } else {
                MatchedStreet { street: Some(best), file_found: None }
            }
        },
    }
}

/// The first scope of the directory bearing the given name.
pub open spec fn scope_named(dir: Seq<ScopeFileView>, name: Seq<char>) -> Option<ScopeFileView>
    decreases dir.len(),
{
    if dir.len() == 0 {
        None
    } else if dir.first().name == name {
        Some(dir.first())
    } else {
        scope_named(dir.drop_first(), name)
    }
}

/// A scope that the lookup yields bears the looked-up name.
proof fn lemma_scope_named_name(dir: Seq<ScopeFileView>, name: Seq<char>)
    requires
        scope_named(dir, name) is Some,
    ensures
        scope_named(dir, name)->Some_0.name == name,
    decreases dir.len(),
{
    if dir.len() > 0 && dir.first().name != name {
        lemma_scope_named_name(dir.drop_first(), name);
    }
}

/// Finds the scope file carrying the given name, if the directory holds one.
pub(crate) fn find_scope(dir: &Vec<ScopeFile>, name: &str) -> (r: Option<usize>)
    ensures
        match r {
            Some(i) => i < dir@.len() && scope_named(dir.deep_view(), name@) == Some(
                dir.deep_view()[i as int],
            ),
            None => scope_named(dir.deep_view(), name@) is None,
        },
{
    let mut i: usize = 0;
    proof {
        assert(dir.deep_view().skip(0) =~= dir.deep_view());
    }
    while i < dir.len()
        invariant
            i <= dir@.len(),
            scope_named(dir.deep_view(), name@) == scope_named(
                dir.deep_view().skip(i as int),
                name@,
            ),
        decreases dir@.len() - i,
    {
        let ghost dv = dir.deep_view();
        proof {
            assert(dv.skip(i as int).len() == dv.len() - i);
            assert(dv.skip(i as int).first() == dv[i as int]);
            assert(dv.skip(i as int).drop_first() =~= dv.skip(i + 1 as int));
            assert(dv[i as int].name == dir@[i as int].name@);
        }
        if str_eq(dir[i].name.as_str(), name) {
            return Some(i);
        }
        i += 1;
    }
    proof {
        assert(dir.deep_view().skip(dir@.len() as int) =~= Seq::<ScopeFileView>::empty());
    }
    None
}

/// The two-pass directory search: first with the first-letter filter, and
/// if that found nothing, again without it.
pub open spec fn dir_search_spec(
    sens: u64,
    keep: nat,
    q: Seq<char>,
    dir: Seq<ScopeFileView>,
    algo: MatchAlgo,
) -> Seq<CandidateView> {
    let first = rank_spec(
        concat_results(source_results_spec(dir, q, sens, algo, true, keep)),
        sens,
        keep,
    );
    if first.len() > 0 {
        first
    } else {
        rank_spec(concat_results(source_results_spec(dir, q, sens, algo, false, keep)), sens, keep)
    }
}

/// The address matcher for the street corpus: a loose threshold for the
/// directory-wide tier and a strict one for the scope-file tier.
pub struct StreetMatcher {
    pub sensitivity: u64,
    pub file_sensitivity: u64,
}

impl Default for StreetMatcher {
    /// The stated default thresholds of the two tiers.
    fn default() -> (r: StreetMatcher)
        ensures
            r.sensitivity == DEFAULT_SENS_BITS,
            r.file_sensitivity == FILE_SENS_BITS,
    {
        StreetMatcher { sensitivity: DEFAULT_SENS_BITS, file_sensitivity: FILE_SENS_BITS }
    }
}

impl StreetMatcher {
    /// A matcher with the given threshold encodings, the stated defaults
    /// standing in for an absent one.
    pub fn new(sensitivity: Option<u64>, file_sensitivity: Option<u64>) -> (r: StreetMatcher)
        ensures
            r.sensitivity == match sensitivity {
                Some(s) => s,
                None => DEFAULT_SENS_BITS,
            },
            r.file_sensitivity == match file_sensitivity {
                Some(s) => s,
                None => FILE_SENS_BITS,
            },
    {
        StreetMatcher {
            sensitivity: match sensitivity {
                Some(s) => s,
                None => DEFAULT_SENS_BITS,
            },
            file_sensitivity: match file_sensitivity {
                Some(s) => s,
                None => FILE_SENS_BITS,
            },
        }
    }

    /// What matching a cleaned query against a hinted scope name yields:
    /// the narrow scope file is tried at the strict threshold, and the
    /// two-pass directory search catches everything else.
    pub open spec fn match_query_spec(
        &self,
        q: Seq<char>,
        name: Option<Seq<char>>,
        dir: Seq<ScopeFileView>,
    ) -> MatchedStreetView {
        match name {
            None => matched_from_spec(
                dir_search_spec(self.sensitivity, NUM_TO_KEEP as nat, q, dir, MatchAlgo::Levenshtein),
                None,
            ),
            Some(n) => match scope_named(dir, n) {
                None => matched_from_spec(
                    dir_search_spec(
                        self.sensitivity,
                        NUM_TO_KEEP as nat,
                        q,
                        dir,
                        MatchAlgo::Levenshtein,
                    ),
                    Some(n),
                ),
                Some(f) => {
                    let narrow = rank_spec(
                        matches_spec(
                            f.lines,
                            q,
                            self.file_sensitivity,
                            MatchAlgo::Levenshtein,
                            false,
                            n,
                        ),
                        self.file_sensitivity,
                        NUM_TO_KEEP as nat,
                    );
                    if narrow.len() > 0 {
                        MatchedStreetView { street: Some(narrow[0].text), file_found: Some(n) }
                    } else {
                        matched_from_spec(
                            dir_search_spec(
                                self.sensitivity,
                                NUM_TO_KEEP as nat,
                                q,
                                dir,
                                MatchAlgo::Levenshtein,
                            ),
                            Some(n),
                        )
                    }
                },
            },
        }
    }

    /// Runs the two-pass directory search and builds the outcome.
    fn search_in_dir(&self, q: &str, dir: &Vec<ScopeFile>, file_candidate: Option<String>) -> (r:
        Result<MatchedStreet, Error>)
        requires
            valid_sens(self.sensitivity),
        ensures
            r matches Ok(m) && m@ == matched_from_spec(
                dir_search_spec(
                    self.sensitivity,
                    NUM_TO_KEEP as nat,
                    q@,
                    dir.deep_view(),
                    MatchAlgo::Levenshtein,
                ),
                match file_candidate {
                    Some(ref f) => Some(f@),
                    None => None,
                },
            ),
    {
        let first = match find_matches_in_sources(
            self.sensitivity,
            NUM_TO_KEEP,
            q,
            dir,
            Some(true),
            MatchAlgo::Levenshtein,
        ) {
            Ok(v) => v,
            Err(e) => {
                return Err(e);
            },
        };
        let candidates = if first.len() > 0 {
            first
        } else {
            match find_matches_in_sources(
                self.sensitivity,
                NUM_TO_KEEP,
                q,
                dir,
                Some(false),
                MatchAlgo::Levenshtein,
            ) {
                Ok(v) => v,
                Err(e) => {
                    return Err(e);
                },
            }
        };
        Ok(matched_from(&candidates, file_candidate))
    }

    /// Matches a cleaned query, trying the hinted scope file first.
    fn find_with_scope(&self, q: &str, dir: &Vec<ScopeFile>, name: Option<String>) -> (r: Result<
        MatchedStreet,
        Error,
    >)
        requires
            valid_sens(self.sensitivity),
            valid_sens(self.file_sensitivity),
        ensures
            r matches Ok(m) && m@ == self.match_query_spec(
                q@,
                match name {
                    Some(ref n) => Some(n@),
                    None => None,
                },
                dir.deep_view(),
            ),
    {
        match name {
            None => self.search_in_dir(q, dir, None),
            Some(n) => {
                match find_scope(dir, n.as_str()) {
                    None => self.search_in_dir(q, dir, Some(n)),
                    Some(i) => {
                        let matcher = match TextMatcher::new(
                            self.file_sensitivity,
                            NUM_TO_KEEP,
                            MatchAlgo::Levenshtein,
                        ) {
                            Ok(m) => m,
                            Err(e) => {
                                return Err(e);
                            },
                        };
                        let scope = &dir[i];
                        let narrow = matcher.find_matches_in_lines(
                            q,
                            &scope.lines,
                            scope.name.as_str(),
                            None,
                        );
                        if narrow.len() > 0 {
                            let best = narrow[0].text.clone();
                            proof {
                                let dv = dir.deep_view();
                                assert(scope_named(dv, n@) == Some(dv[i as int]));
                                lemma_scope_named_name(dv, n@);
                                assert(dv[i as int].name == n@);
                                assert(dv[i as int].name == dir@[i as int].name@);
                                assert(dv[i as int].lines == dir@[i as int].lines.deep_view());
                                assert(narrow.deep_view()[0] == narrow@[0]@);
                                assert(best@ == narrow.deep_view()[0].text);
                            }
                            Ok(MatchedStreet { street: Some(best), file_found: Some(n) })
                        } else {
                            proof {
                                let dv = dir.deep_view();
                                assert(scope_named(dv, n@) == Some(dv[i as int]));
                                lemma_scope_named_name(dv, n@);
                                assert(dv[i as int].name == n@);
                                assert(dv[i as int].name == dir@[i as int].name@);
                                assert(dv[i as int].lines == dir@[i as int].lines.deep_view());
                            }
                            self.search_in_dir(q, dir, Some(n))
                        }
                    },
                }
            },
        }
    }

    /// The cleaned, punctuation-free query form of an accepted street.
    pub open spec fn query_of(street: Seq<char>) -> Seq<char> {
        strip_punct_spec(clean_chars_spec(street))
    }

    /// Matches a raw street against a directory of per-postal-code scopes.
    /// A street without a digit is refused before anything else; a postal
    /// code hint names the scope file tried first at the strict threshold;
    /// when that scope is absent or yields nothing, the whole directory is
    /// searched at the loose threshold, first with and then without the
    /// first-letter filter.
    pub fn match_by_plz(&self, street: &str, plz: Option<u64>, dir: &Vec<ScopeFile>) -> (r: Result<
        MatchedStreet,
        Error,
    >)
        ensures
            !has_digit(street@) ==> (r matches Err(e) && e is MissingStreetNumber),
            has_digit(street@) && !(valid_sens(self.sensitivity) && valid_sens(
                self.file_sensitivity,
            )) ==> (r matches Err(e) && e is InvalidSensitivity),
            has_digit(street@) && valid_sens(self.sensitivity) && valid_sens(self.file_sensitivity)
                ==> (r matches Ok(m) && m@ == self.match_query_spec(
                Self::query_of(street@),
                match plz {
                    Some(p) => Some(dec_str_spec(p as nat)),
                    None => None,
                },
                dir.deep_view(),
            )),
    {
        let s = match SwissStreet::new(street) {
            Ok(s) => s,
            Err(e) => {
                return Err(e);
            },
        };
        if !(1 <= self.sensitivity && self.sensitivity <= crate::candidate::BITS_ONE && 1
            <= self.file_sensitivity && self.file_sensitivity <= crate::candidate::BITS_ONE) {
            return Err(Error::InvalidSensitivity);
        }
        let q = string_of(&strip_punct(&chars_of(s.value.as_str())));
        let name = match plz {
            Some(p) => Some(to_decimal(p)),
            None => None,
        };
        self.find_with_scope(q.as_str(), dir, name)
    }

    /// Matches a raw street against a directory of per-place scopes. A
    /// place hint is first resolved against the canonical place list by a
    /// high-precision fuzzy lookup; the resolved name then selects the
    /// scope file, and the tiers fall back as for a postal code.
    pub fn match_by_place(
        &self,
        street: &str,
        place: Option<&str>,
        dir: &Vec<ScopeFile>,
        places: &Vec<String>,
    ) -> (r: Result<MatchedStreet, Error>)
        ensures
            !has_digit(street@) ==> (r matches Err(e) && e is MissingStreetNumber),
            has_digit(street@) && !(valid_sens(self.sensitivity) && valid_sens(
                self.file_sensitivity,
            )) ==> (r matches Err(e) && e is InvalidSensitivity),
            has_digit(street@) && valid_sens(self.sensitivity) && valid_sens(self.file_sensitivity)
                ==> (r matches Ok(m) && m@ == self.match_query_spec(
                Self::query_of(street@),
                match place {
                    Some(p) => resolve_place_spec(p@, places.deep_view()),
                    None => None,
                },
                dir.deep_view(),
            )),
    {
        let s = match SwissStreet::new(street) {
            Ok(s) => s,
            Err(e) => {
                return Err(e);
            },
        };
        if !(1 <= self.sensitivity && self.sensitivity <= crate::candidate::BITS_ONE && 1
            <= self.file_sensitivity && self.file_sensitivity <= crate::candidate::BITS_ONE) {
            return Err(Error::InvalidSensitivity);
        }
        let q = string_of(&strip_punct(&chars_of(s.value.as_str())));
        let name = match place {
            Some(p) => match_place(p, places),
            None => None,
        };
        self.find_with_scope(q.as_str(), dir, name)
    }
}

/// The canonical scope token of a resolved place name: spaces become
/// underscores and each slash becomes its escape token.
pub open spec fn escape_place_spec(s: Seq<char>) -> Seq<char>
    decreases s.len(),
{
    if s.len() == 0 {
        Seq::empty()
    } else {
        escape_place_spec(s.drop_last()) + (if s.last() == ' ' {
            seq!['_']
        } else if s.last() == '/' {
            seq!['%', '2', 'C']
        } else {
            seq![s.last()]
        })
    }
}

fn escape_place(v: &Vec<char>) -> (r: Vec<char>)
    ensures
        r@ == escape_place_spec(v@),
{
    let mut r: Vec<char> = Vec::new();
    let mut i: usize = 0;
    while i < v.len()
        invariant
            i <= v@.len(),
            r@ == escape_place_spec(v@.subrange(0, i as int)),
        decreases v@.len() - i,
    {
        let c = v[i];
        proof {
            assert(v@.subrange(0, i + 1 as int).drop_last() =~= v@.subrange(0, i as int));
            assert(v@.subrange(0, i + 1 as int).last() == v@[i as int]);
        }
        if c == ' ' {
            r.push('_');
        } else if c == '/' {
            r.push('%');
            r.push('2');
            r.push('C');
        } else {
            r.push(c);
        }
        proof {
            assert(r@ =~= escape_place_spec(v@.subrange(0, i + 1 as int)));
        }
        i += 1;
    }
    proof {
        assert(v@.subrange(0, v@.len() as int) =~= v@);
    }
    r
}

/// The scope token that a human-entered place resolves to: the best match
/// of the trimmed, lowercased place against the canonical list at the
/// place threshold, escaped; none when nothing clears the threshold.
pub open spec fn resolve_place_spec(place: Seq<char>, places: Seq<Seq<char>>) -> Option<Seq<char>> {
    let q = lower_of(trim_spec(place));
    let found = rank_spec(
        matches_spec(
            places,
            q,
            PLACE_SEARCH_SENS_BITS,
            MatchAlgo::JaroWinkler,
            false,
            Seq::empty(),
        ),
        PLACE_SEARCH_SENS_BITS,
        NUM_TO_KEEP as nat,
    );
    if found.len() > 0 {
        Some(escape_place_spec(found[0].text))
    } else {
        None
    }
}

/// Resolves a human-entered place name to its canonical scope token.
fn match_place(place: &str, places: &Vec<String>) -> (r: Option<String>)
    ensures
        match r {
            Some(n) => resolve_place_spec(place@, places.deep_view()) == Some(n@),
            None => resolve_place_spec(place@, places.deep_view()) is None,
        },
{
    let matcher = match TextMatcher::new(PLACE_SEARCH_SENS_BITS, NUM_TO_KEEP, MatchAlgo::JaroWinkler) {
        Ok(m) => m,
        Err(_) => {
            proof {
                assert(valid_sens(PLACE_SEARCH_SENS_BITS));
            }
            return None;
        },
    };
    let q = lowercase(string_of(&trim_chars(&chars_of(place))).as_str());
    let found = matcher.find_matches_in_lines(q.as_str(), places, "", None);
    proof {
        reveal_strlit("");
        assert(""@ =~= Seq::<char>::empty());
    }
    if found.len() > 0 {
        let escaped = escape_place(&chars_of(found[0].text.as_str()));
        Some(string_of(&escaped))
    } else {
        None
    }
}

} // verus!
