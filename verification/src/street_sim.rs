use vstd::prelude::*;
use vstd::string::*;
use crate::candidate::{valid_sens, Candidate, CandidateView, Error, Sens, Text,
    DEFAULT_SENS_BITS};
use crate::chars::{chars_of, dec_str_spec, str_eq, string_of, to_decimal};
use crate::matcher::{matches_spec, TextMatcher};
use crate::normalize::{clean_chars_spec, clean_street, contains_digit, has_digit, lower_of,
    strip_punct, strip_punct_spec};
use crate::rank::rank_spec;
use crate::score::MatchAlgo;
use crate::search::{ScopeFile, ScopeFileView};
use crate::street::scope_named;

verus! {

/// The threshold for resolving a place name against the canonical list.
pub const PLACE_SENS_BITS: u64 = DEFAULT_SENS_BITS;

/// How many near streets the coarse pass keeps before the fine pass.
pub const STREET_FILTER_KEEP: usize = 500;

/// A geographic key that selects one group of a street's data: its text
/// names the group.
pub trait Location {
    /// The characters of the key.
    spec fn key_spec(&self) -> Seq<char>;

    /// The key as a string.
    fn key(&self) -> (r: String)
        ensures
            r@ == self.key_spec(),
    ;
}

/// What searching candidate values for a query at a threshold yields when
/// only the single best is kept.
pub open spec fn best_of_spec(values: Seq<Seq<char>>, q: Seq<char>, t: u64, algo: MatchAlgo, keep: nat) -> Seq<
    CandidateView,
> {
    rank_spec(matches_spec(values, q, t, algo, false, Seq::empty()), t, keep)
}

/// The canonical spelling a raw place name resolves to: the best match in
/// the place list at the place threshold, or the raw name itself when
/// nothing clears it.
pub open spec fn place_spec(value: Seq<char>, places: Seq<Seq<char>>) -> Seq<char> {
    let q = strip_punct_spec(lower_of(value));
    let found = best_of_spec(places, q, PLACE_SENS_BITS, MatchAlgo::JaroWinkler, 1);
    if found.len() > 0 {
        found[0].text
    } else {
        value
    }
}

/// A place name resolved against the canonical place list.
#[derive(Debug, Clone)]
pub struct Place(pub String);

impl Place {
    /// Resolves a raw place name fuzzily against the canonical list; a name
    /// that nothing in the list comes near stands as given.
    pub fn new(value: &str, places: &Vec<String>) -> (r: Place)
        ensures
            r.0@ == place_spec(value@, places.deep_view()),
    {
        let text = Text::new(value.to_owned());
        let matcher = match TextMatcher::new(PLACE_SENS_BITS, 1, MatchAlgo::JaroWinkler) {
            Ok(m) => m,
            Err(_) => {
                proof {
                    assert(valid_sens(PLACE_SENS_BITS));
                }
                return Place(value.to_owned());
            },
        };
        let found = matcher.find_matches_from_str(places, text.cleaned.as_str());
        if found.len() > 0 {
            proof {
                assert(found.deep_view()[0] == found@[0]@);
            }
            Place(found[0].text.clone())
        } else {
            Place(value.to_owned())
        }
    }
}

impl Location for Place {
    open spec fn key_spec(&self) -> Seq<char> {
        self.0@
    }

    fn key(&self) -> (r: String) {
        self.0.clone()
    }
}

impl PartialEq for Place {
    /// Places agree when their resolved names agree.
    fn eq(&self, other: &Self) -> bool {
        str_eq(self.0.as_str(), other.0.as_str())
    }
}

impl vstd::std_specs::cmp::PartialEqSpecImpl for Place {
    open spec fn obeys_eq_spec() -> bool {
        true
    }

    open spec fn eq_spec(&self, other: &Self) -> bool {
        self.0@ == other.0@
    }
}

/// A Swiss postal code, kept as its decimal rendering.
#[derive(Debug, Clone)]
pub struct Plz(pub String);

impl Plz {
    /// Renders a postal code for use as a group key.
    pub fn new(value: usize) -> (r: Plz)
        ensures
            r.0@ == dec_str_spec(value as nat),
    {
        Plz(to_decimal(value as u64))
    }
}

impl Location for Plz {
    open spec fn key_spec(&self) -> Seq<char> {
        self.0@
    }

    fn key(&self) -> (r: String) {
        self.0.clone()
    }
}

impl PartialEq for Plz {
    /// Postal codes agree when their renderings agree.
    fn eq(&self, other: &Self) -> bool {
        str_eq(self.0.as_str(), other.0.as_str())
    }
}

impl vstd::std_specs::cmp::PartialEqSpecImpl for Plz {
    open spec fn obeys_eq_spec() -> bool {
        true
    }

    open spec fn eq_spec(&self, other: &Self) -> bool {
        self.0@ == other.0@
    }
}

/// The texts of a candidate sequence, in order.
pub open spec fn texts_of(c: Seq<CandidateView>) -> Seq<Seq<char>>
    decreases c.len(),
{
    if c.len() == 0 {
        Seq::empty()
    } else {
        texts_of(c.drop_last()).push(c.last().text)
    }
}

fn texts_vec(c: &Vec<Candidate>) -> (r: Vec<String>)
    ensures
        r.deep_view() == texts_of(c.deep_view()),
{
    let mut r: Vec<String> = Vec::new();
    let mut i: usize = 0;
    while i < c.len()
        invariant
            i <= c@.len(),
            r.deep_view() == texts_of(c.deep_view().take(i as int)),
        decreases c@.len() - i,
    {
        let ghost sofar = r.deep_view();
        let t = c[i].text.clone();
        r.push(t);
        proof {
            assert(c.deep_view().take(i + 1 as int).drop_last() =~= c.deep_view().take(i as int));
            assert(c.deep_view().take(i + 1 as int).last() == c.deep_view()[i as int]);
            assert(r.deep_view() =~= sofar.push(c.deep_view()[i as int].text));
        }
        i += 1;
    }
    proof {
        assert(c.deep_view().take(c@.len() as int) =~= c.deep_view());
    }
    r
}

/// The name a street resolves to: a coarse wide pass over the canonical
/// street names keeps the near ones, and a fine pass picks the best.
pub open spec fn street_name_spec(q: Seq<char>, names: Seq<Seq<char>>, t: u64) -> Seq<
    CandidateView,
> {
    let coarse = best_of_spec(names, q, t, MatchAlgo::Jaro, STREET_FILTER_KEEP as nat);
    best_of_spec(texts_of(coarse), q, t, MatchAlgo::Levenshtein, 1)
}

/// A street accepted by the address pipeline, beside the canonical street
/// name it resolved to.
#[derive(Debug)]
pub struct Street {
    pub value: Text,
    pub street_name: String,
}

impl Street {
    /// Cleans the street and resolves its canonical name against the given
    /// list. A street without a digit is refused with
    /// `MissingStreetNumber`; one whose name nothing in the list comes
    /// near is refused with `NotFound`.
    pub fn new(street: &str, sens: Option<Sens>, street_names: &Vec<String>) -> (r: Result<
        Street,
        Error,
    >)
        requires
            sens matches Some(s) ==> valid_sens(s.0),
        ensures
            !has_digit(street@) ==> (r matches Err(e) && e is MissingStreetNumber),
            has_digit(street@) ==> {
                let t = match sens {
                    Some(s) => s.0,
                    None => DEFAULT_SENS_BITS,
                };
                let named = street_name_spec(
                    strip_punct_spec(clean_chars_spec(street@)),
                    street_names.deep_view(),
                    t,
                );
                &&& named.len() > 0 ==> (r matches Ok(st) && st.value.init@ == clean_chars_spec(
                    street@,
                ) && st.value.cleaned@ == strip_punct_spec(clean_chars_spec(street@))
                    && st.street_name@ == named[0].text)
                &&& named.len() == 0 ==> (r matches Err(e) && e is NotFound)
            },
    {
        if !Street::contains_numbers(street) {
            return Err(Error::MissingStreetNumber);
        }
        let t: u64 = match sens {
            Some(s) => s.0,
            None => DEFAULT_SENS_BITS,
        };
        let cleaned = Street::clean(street);
        let stripped = string_of(&strip_punct(&chars_of(cleaned.as_str())));
        let value = Text { init: cleaned, cleaned: stripped };
        let coarse_matcher = match TextMatcher::new(t, STREET_FILTER_KEEP, MatchAlgo::Jaro) {
            Ok(m) => m,
            Err(e) => {
                return Err(e);
            },
        };
        let coarse = coarse_matcher.find_matches_from_str(street_names, value.cleaned.as_str());
        let near = texts_vec(&coarse);
        let fine_matcher = match TextMatcher::new(t, 1, MatchAlgo::Levenshtein) {
            Ok(m) => m,
            Err(e) => {
                return Err(e);
            },
        };
        let named = fine_matcher.find_matches_from_str(&near, value.cleaned.as_str());
        if named.len() > 0 {
            proof {
                assert(named.deep_view()[0] == named@[0]@);
            }
            Ok(Street { value, street_name: named[0].text.clone() })
        } else {
            Err(Error::NotFound)
        }
    }

    /// Whether the street holds any digit at all.
    pub fn contains_numbers(street: &str) -> (r: bool)
        ensures
            r == has_digit(street@),
    {
        contains_digit(&chars_of(street))
    }

    /// The cleaned, spaced form of a raw street string.
    pub fn clean(street: &str) -> (r: String)
        ensures
            r@ == clean_chars_spec(street@),
    {
        clean_street(street)
    }
}

/// Lexicographic order on character sequences by code point, the order the
/// canonical value list is kept in.
pub open spec fn seq_le(a: Seq<char>, b: Seq<char>) -> bool
    decreases a.len(),
{
    if a.len() == 0 {
        true
    } else if b.len() == 0 {
        false
    } else if (a.first() as u32) < (b.first() as u32) {
        true
    } else if (a.first() as u32) > (b.first() as u32) {
        false
    } else {
        seq_le(a.drop_first(), b.drop_first())
    }
}

/// Decides the lexicographic order on two strings.
fn str_le(a: &str, b: &str) -> (r: bool)
    ensures
        r == seq_le(a@, b@),
{
    let na = a.unicode_len();
    let nb = b.unicode_len();
    let mut i: usize = 0;
    proof {
        assert(a@.skip(0) =~= a@);
        assert(b@.skip(0) =~= b@);
    }
    while i < na && i < nb
        invariant
            i <= na == a@.len(),
            i <= nb == b@.len(),
            seq_le(a@, b@) == seq_le(a@.skip(i as int), b@.skip(i as int)),
            forall|j: int| 0 <= j < i ==> a@[j] == b@[j],
        decreases na - i,
    {
        let ca = a.get_char(i);
        let cb = b.get_char(i);
        proof {
            assert(a@.skip(i as int).first() == a@[i as int]);
            assert(b@.skip(i as int).first() == b@[i as int]);
            assert(a@.skip(i as int).drop_first() =~= a@.skip(i + 1 as int));
            assert(b@.skip(i as int).drop_first() =~= b@.skip(i + 1 as int));
        }
        if (ca as u32) < (cb as u32) {
            return true;
        }
        if (ca as u32) > (cb as u32) {
            return false;
        }
        i += 1;
    }
    proof {
        if i >= na {
            assert(a@.skip(i as int).len() == 0);
        } else {
            assert(b@.skip(i as int).len() == 0);
            assert(a@.skip(i as int).len() > 0);
        }
    }
    na <= nb
}

/// Insertion into an ascending sequence, after any equal entry.
pub open spec fn insert_asc(s: Seq<Seq<char>>, x: Seq<char>) -> Seq<Seq<char>>
    decreases s.len(),
{
    if s.len() == 0 {
        seq![x]
    } else if seq_le(s.first(), x) {
        seq![s.first()] + insert_asc(s.drop_first(), x)
    } else {
        seq![x] + s
    }
}

/// Ascending insertion sort, lexicographic by code point.
pub open spec fn sort_asc(s: Seq<Seq<char>>) -> Seq<Seq<char>>
    decreases s.len(),
{
    if s.len() == 0 {
        Seq::empty()
    } else {
        insert_asc(sort_asc(s.drop_last()), s.last())
    }
}

/// The sequence with each run of equal neighbours reduced to one entry.
pub open spec fn dedup_adjacent(s: Seq<Seq<char>>) -> Seq<Seq<char>>
    decreases s.len(),
{
    if s.len() == 0 {
        Seq::empty()
    } else {
        let d = dedup_adjacent(s.drop_last());
        if d.len() > 0 && d.last() == s.last() {
            d
        } else {
            d.push(s.last())
        }
    }
}

fn sort_strings(input: Vec<String>) -> (r: Vec<String>)
    ensures
        r.deep_view() == sort_asc(input.deep_view()),
{
    let ghost orig = input.deep_view();
    let mut rest = input;
    let mut out: Vec<String> = Vec::new();
    let mut taken: usize = 0;
    proof {
        assert(rest.len() == orig.len());
    }
    while rest.len() > 0
        invariant
            orig.len() <= usize::MAX,
            taken + rest.len() == orig.len(),
            rest.deep_view() == orig.skip(taken as int),
            out.deep_view() == sort_asc(orig.take(taken as int)),
        decreases rest.len(),
    {
        let ghost pre = rest.deep_view();
        let s = rest.remove(0);
        proof {
            assert(s.deep_view() == pre[0]);
            assert(pre[0] == orig.skip(taken as int)[0]);
            assert(rest.deep_view() =~= pre.drop_first());
            assert(pre.drop_first() =~= orig.skip(taken + 1 as int));
        }
        let ghost sofar = out.deep_view();
        let mut j: usize = 0;
        while j < out.len() && str_le(out[j].as_str(), s.as_str())
            invariant
                j <= out@.len(),
                out.deep_view() == sofar,
                forall|i: int| 0 <= i < j ==> seq_le(sofar[i], s@),
            decreases out@.len() - j,
        {
            j += 1;
        }
        out.insert(j, s);
        proof {
            lemma_insert_asc_at(sofar, s@, j as int);
            assert(out.deep_view() =~= sofar.insert(j as int, s@));
            assert(orig.take(taken + 1 as int).drop_last() =~= orig.take(taken as int));
            assert(orig.take(taken + 1 as int).last() == orig[taken as int]);
        }
        taken += 1;
    }
    proof {
        assert(orig.take(taken as int) =~= orig);
    }
    out
}

proof fn lemma_insert_asc_at(s: Seq<Seq<char>>, x: Seq<char>, j: int)
    requires
        0 <= j <= s.len(),
        forall|i: int| 0 <= i < j ==> seq_le(s[i], x),
        j < s.len() ==> !seq_le(s[j], x),
    ensures
        insert_asc(s, x) == s.insert(j, x),
    decreases s.len(),
{
    if s.len() == 0 {
        assert(insert_asc(s, x) =~= s.insert(0, x));
    } else if j == 0 {
        assert(insert_asc(s, x) =~= s.insert(0, x));
    } else {
        assert(seq_le(s[0], x));
        lemma_insert_asc_at(s.drop_first(), x, j - 1);
        assert(insert_asc(s, x) =~= s.insert(j, x));
    }
}

fn dedup_strings(input: Vec<String>) -> (r: Vec<String>)
    ensures
        r.deep_view() == dedup_adjacent(input.deep_view()),
{
    let ghost orig = input.deep_view();
    let mut r: Vec<String> = Vec::new();
    let mut i: usize = 0;
    while i < input.len()
        invariant
            i <= input@.len(),
            input.deep_view() == orig,
            r.deep_view() == dedup_adjacent(orig.take(i as int)),
        decreases input@.len() - i,
    {
        let ghost sofar = r.deep_view();
        proof {
            assert(orig.take(i + 1 as int).drop_last() =~= orig.take(i as int));
            assert(orig.take(i + 1 as int).last() == orig[i as int]);
        }
        let keep: bool = if r.len() == 0 {
            true
        } else {
            !str_eq(r[r.len() - 1].as_str(), input[i].as_str())
        };
        if keep {
            let s = input[i].clone();
            r.push(s);
            proof {
                assert(r.deep_view() =~= sofar.push(orig[i as int]));
            }
        } else {
            proof {
                assert(sofar.last() == orig[i as int]);
            }
        }
        i += 1;
    }
    proof {
        assert(orig.take(input@.len() as int) =~= orig);
    }
    r
}

/// All lines of all groups, in group order.
pub open spec fn all_lines(groups: Seq<ScopeFileView>) -> Seq<Seq<char>>
    decreases groups.len(),
{
    if groups.len() == 0 {
        Seq::empty()
    } else {
        all_lines(groups.drop_last()) + groups.last().lines
    }
}

/// The values of one street's data, grouped by geographic key: each group
/// names a location and lists the values found there.
pub struct StreetFile {
    pub groups: Vec<ScopeFile>,
}

impl StreetFile {
    /// Wraps ready-parsed groups.
    pub fn new(groups: Vec<ScopeFile>) -> (r: StreetFile)
        ensures
            r.groups == groups,
    {
        StreetFile { groups }
    }

    /// Every value of every group, in lexicographic order with duplicates
    /// reduced to one.
    pub fn get_all_values(&self) -> (r: Vec<String>)
        ensures
            r.deep_view() == dedup_adjacent(sort_asc(all_lines(self.groups.deep_view()))),
    {
        let mut flat: Vec<String> = Vec::new();
        let mut i: usize = 0;
        while i < self.groups.len()
            invariant
                i <= self.groups@.len(),
                flat.deep_view() == all_lines(self.groups.deep_view().take(i as int)),
            decreases self.groups@.len() - i,
        {
            let ghost sofar = flat.deep_view();
            let g = &self.groups[i];
            let mut k: usize = 0;
            while k < g.lines.len()
                invariant
                    k <= g.lines@.len(),
                    flat.deep_view() == sofar + g.lines.deep_view().take(k as int),
                decreases g.lines@.len() - k,
            {
                let ghost fsofar = flat.deep_view();
                let s = g.lines[k].clone();
                flat.push(s);
                proof {
                    assert(flat.deep_view() =~= fsofar.push(g.lines.deep_view()[k as int]));
                    assert(fsofar.push(g.lines.deep_view()[k as int]) =~= sofar
                        + g.lines.deep_view().take(k + 1 as int));
                }
                k += 1;
            }
            proof {
                let gv = self.groups.deep_view();
                assert(g.lines.deep_view().take(g.lines@.len() as int) =~= g.lines.deep_view());
                assert(gv.take(i + 1 as int).drop_last() =~= gv.take(i as int));
                assert(gv.take(i + 1 as int).last() == gv[i as int]);
                assert(gv[i as int] == self.groups@[i as int]@);
                assert(gv[i as int].lines == self.groups@[i as int].lines.deep_view());
            }
            i += 1;
        }
        proof {
            assert(self.groups.deep_view().take(self.groups@.len() as int)
                =~= self.groups.deep_view());
        }
        dedup_strings(sort_strings(flat))
    }

    /// The values to match against for a location: the location's own
    /// group when one bears its key, else every value of every group; the
    /// location is passed through only when its group was found.
    pub fn try_get_values_by<T: Location>(&self, location: T) -> (r: (Vec<String>, Option<T>))
        ensures
            scope_named(self.groups.deep_view(), location.key_spec()) matches Some(g) ==> (
            r.0.deep_view() == g.lines && (r.1 matches Some(l) && l == location)),
            scope_named(self.groups.deep_view(), location.key_spec()) is None ==> (r.0.deep_view()
                == dedup_adjacent(sort_asc(all_lines(self.groups.deep_view()))) && r.1 is None),
    {
        let key = location.key();
        match crate::street::find_scope(&self.groups, key.as_str()) {
            Some(i) => {
                let g = &self.groups[i];
                let mut lines: Vec<String> = Vec::new();
                let mut k: usize = 0;
                while k < g.lines.len()
                    invariant
                        k <= g.lines@.len(),
                        lines.deep_view() == g.lines.deep_view().take(k as int),
                    decreases g.lines@.len() - k,
                {
                    let ghost sofar = lines.deep_view();
                    let s = g.lines[k].clone();
                    lines.push(s);
                    proof {
                        assert(lines.deep_view() =~= sofar.push(g.lines.deep_view()[k as int]));
                        assert(lines.deep_view() =~= g.lines.deep_view().take(k + 1 as int));
                    }
                    k += 1;
                }
                proof {
                    assert(g.lines.deep_view().take(g.lines@.len() as int) =~= g.lines.deep_view());
                    assert(self.groups.deep_view()[i as int].lines
                        == self.groups@[i as int].lines.deep_view());
                }
                (lines, Some(location))
            },
            None => (self.get_all_values(), None),
        }
    }
}

/// The outcome of the grouped search: the single best candidate, with the
/// location passed through exactly when its own group was searched.
pub open spec fn find_matches_spec<T: Location>(
    q: Seq<char>,
    location: Option<T>,
    t: u64,
    data_groups: Seq<ScopeFileView>,
) -> (Option<CandidateView>, Option<T>) {
    let all = dedup_adjacent(sort_asc(all_lines(data_groups)));
    match location {
        None => {
            let found = best_of_spec(all, q, t, MatchAlgo::Levenshtein, 1);
            if found.len() > 0 {
                (Some(found[0]), None)
            } else {
                (None, None)
            }
        },
        Some(loc) => match scope_named(data_groups, loc.key_spec()) {
            Some(g) => {
                let found = best_of_spec(g.lines, q, t, MatchAlgo::Levenshtein, 1);
                if found.len() > 0 {
                    (Some(found[0]), Some(loc))
                } else {
                    (None, None)
                }
            },
            None => {
                let found = best_of_spec(all, q, t, MatchAlgo::Levenshtein, 1);
                if found.len() > 0 {
                    (Some(found[0]), None)
                } else {
                    (None, None)
                }
            },
        },
    }
}

/// Searches one street's grouped values for the best candidate to the
/// cleaned street. A location hint narrows the search to its own group
/// when one bears its key; the hint is echoed back exactly when its group
/// was searched and yielded a candidate. No candidate at all is the
/// ordinary empty outcome, not a failure.
pub fn find_matches<T: Location>(street: &Street, location: Option<T>, sens: Option<Sens>, data: &StreetFile) -> (r: (
    Option<Candidate>,
    Option<T>,
))
    requires
        sens matches Some(s) ==> valid_sens(s.0),
    ensures
        ({
            let t = match sens {
                Some(s) => s.0,
                None => DEFAULT_SENS_BITS,
            };
            let expect = find_matches_spec(
                street.value.cleaned@,
                location,
                t,
                data.groups.deep_view(),
            );
            &&& (r.0 matches Some(c) ==> expect.0 == Some(c@))
            &&& (r.0 is None ==> expect.0 is None)
            &&& (r.1 matches Some(l) ==> expect.1 == Some(l))
            &&& (r.1 is None ==> expect.1 is None)
        }),
{
    let t: u64 = match sens {
        Some(s) => s.0,
        None => DEFAULT_SENS_BITS,
    };
    let matcher = match TextMatcher::new(t, 1, MatchAlgo::Levenshtein) {
        Ok(m) => m,
        Err(_) => {
            proof {
                assert(valid_sens(t));
            }
            return (None, None);
        },
    };
    let (values, passed) = match location {
        None => (data.get_all_values(), None),
        Some(loc) => data.try_get_values_by(loc),
    };
    let found = matcher.find_matches_from_str(&values, street.value.cleaned.as_str());
    if found.len() > 0 {
        let ghost fv = found.deep_view();
        let mut found = found;
        let best = found.remove(0);
        proof {
            assert(best@ == fv[0]);
        }
        (Some(best), passed)
    } else {
        (None, None)
    }
}

} // verus!
