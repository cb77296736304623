use vstd::prelude::*;
use vstd::string::*;
use unicode_segmentation::UnicodeSegmentation;
use crate::candidate::{BITS_ONE, Candidate, CandidateView, Error, Sens};
use crate::chars::{chars_of, string_of};
use crate::normalize::{strip_punct, strip_punct_spec};
use crate::rank::{rank_and_keep, rank_spec};
use crate::score::{sim_spec, MatchAlgo};

verus! {

/// The first extended grapheme cluster of a nonempty character sequence.
pub uninterp spec fn grapheme_prefix(s: Seq<char>) -> Seq<char>;

/// Relies on unicode_segmentation's graphemes: the first extended grapheme
/// cluster of the string; an empty string has none.
#[verifier::external_body]
fn first_grapheme(s: &str) -> (r: Option<String>)
    ensures
        match r {
            Some(g) => s@.len() > 0 && g@ == grapheme_prefix(s@),
            None => s@.len() == 0,
        },
{
    s.graphemes(true).next().map(|g| g.to_string())
}

/// Whether a candidate line survives the first-letter filter: both texts
/// begin, and with the same grapheme.
pub open spec fn first_letter_ok(text: Seq<char>, line: Seq<char>) -> bool {
    text.len() > 0 && line.len() > 0 && grapheme_prefix(line) == grapheme_prefix(text)
}

/// Whether a line is kept: it passes the filter when one is asked for, and
/// its stripped form scores strictly above the threshold against the query.
pub open spec fn line_admitted(
    line: Seq<char>,
    text: Seq<char>,
    t: u64,
    algo: MatchAlgo,
    flt: bool,
) -> bool {
    &&& (flt ==> first_letter_ok(text, line))
    &&& sim_spec(algo, text, strip_punct_spec(line)) > t
}

/// The candidates that one pass over the lines yields, in line order: each
/// admitted line with its score and the source tag.
pub open spec fn matches_spec(
    lines: Seq<Seq<char>>,
    text: Seq<char>,
    t: u64,
    algo: MatchAlgo,
    flt: bool,
    tag: Seq<char>,
) -> Seq<CandidateView>
    decreases lines.len(),
{
    if lines.len() == 0 {
        Seq::empty()
    } else {
        let rest = matches_spec(lines.drop_last(), text, t, algo, flt, tag);
        let line = lines.last();
        if line_admitted(line, text, t, algo, flt) {
            rest.push(
                CandidateView {
                    text: line,
                    similarity: sim_spec(algo, text, strip_punct_spec(line)),
                    file_found: tag,
                },
            )
        } else {
            rest
        }
    }
}

/// One pass over joined line sequences splits into the passes over each.
pub proof fn lemma_matches_append(
    a: Seq<Seq<char>>,
    b: Seq<Seq<char>>,
    text: Seq<char>,
    t: u64,
    algo: MatchAlgo,
    flt: bool,
    tag: Seq<char>,
)
    ensures
        matches_spec(a + b, text, t, algo, flt, tag) == matches_spec(a, text, t, algo, flt, tag)
            + matches_spec(b, text, t, algo, flt, tag),
    decreases b.len(),
{
    if b.len() == 0 {
        assert(a + b =~= a);
        assert(matches_spec(a, text, t, algo, flt, tag) + matches_spec(b, text, t, algo, flt, tag)
            =~= matches_spec(a, text, t, algo, flt, tag));
    } else {
        lemma_matches_append(a, b.drop_last(), text, t, algo, flt, tag);
        assert((a + b).drop_last() =~= a + b.drop_last());
        assert((a + b).last() == b.last());
        assert(matches_spec(a + b, text, t, algo, flt, tag) =~= matches_spec(
            a,
            text,
            t,
            algo,
            flt,
            tag,
        ) + matches_spec(b, text, t, algo, flt, tag));
    }
}

/// Tests the first-letter filter on a pair of real strings.
fn passes_filter(text: &str, line: &str) -> (r: bool)
    ensures
        r == first_letter_ok(text@, line@),
{
    let gt = first_grapheme(text);
    let gl = first_grapheme(line);
    match (gt, gl) {
        (Some(a), Some(b)) => a == b,
        _ => false,
    }
}

/// One pass over the lines: scores each line that the filter lets through
/// and collects those strictly above the threshold, tagged with the source.
fn scan_lines(
    lines: &Vec<String>,
    text: &str,
    sens: &Sens,
    algo: &MatchAlgo,
    flt: bool,
    tag: &str,
) -> (r: Vec<Candidate>)
    ensures
        r.deep_view() == matches_spec(lines.deep_view(), text@, sens.0, *algo, flt, tag@),
{
    let mut r: Vec<Candidate> = Vec::new();
    let mut i: usize = 0;
    while i < lines.len()
        invariant
            i <= lines@.len(),
            r.deep_view() == matches_spec(
                lines.deep_view().take(i as int),
                text@,
                sens.0,
                *algo,
                flt,
                tag@,
            ),
        decreases lines@.len() - i,
    {
        let line = &lines[i];
        proof {
            assert(lines.deep_view().take(i + 1 as int).drop_last() =~= lines.deep_view().take(
                i as int,
            ));
            assert(lines.deep_view().take(i + 1 as int).last() == line.deep_view());
        }
        let keep_it: bool = if flt {
            passes_filter(text, line.as_str())
        } else {
            true
        };
        if keep_it {
            let stripped = string_of(&strip_punct(&chars_of(line.as_str())));
            let score = algo.score(text, stripped.as_str());
            if score > sens.0 {
                let ghost sofar = r.deep_view();
                let c = Candidate {
                    text: line.clone(),
                    similarity: score,
                    file_found: tag.to_owned(),
                };
                r.push(c);
                proof {
                    assert(r.deep_view() =~= sofar.push(c@));
                }
            }
        }
        i += 1;
    }
    proof {
        assert(lines.deep_view().take(lines@.len() as int) =~= lines.deep_view());
    }
    r
}

/// A validated admission threshold for the matcher, as a score encoding.
pub struct Sensitivity {
    pub value: u64,
}

impl Sensitivity {
    /// Accepts exactly the encodings of thresholds strictly above zero and
    /// at most one.
    pub fn new(sensitivity: u64) -> (r: Result<Sensitivity, Error>)
        ensures
            crate::candidate::valid_sens(sensitivity) ==> (r matches Ok(s) && s.value
                == sensitivity),
            !crate::candidate::valid_sens(sensitivity) ==> (r matches Err(e)
                && e is InvalidSensitivity),
    {
        if 1 <= sensitivity && sensitivity <= BITS_ONE {
            Ok(Sensitivity { value: sensitivity })
        } else {
            Err(Error::InvalidSensitivity)
        }
    }
}

/// The single-source matcher: a threshold, a keep count and the scoring
/// algorithm it dispatches to.
pub struct TextMatcher {
    pub sensitivity: Sensitivity,
    pub num_to_keep: usize,
    pub algo: MatchAlgo,
}

impl TextMatcher {
    /// A matcher with the given threshold encoding, keep count and scoring
    /// algorithm; an out-of-range threshold is a configuration error.
    pub fn new(sensitivity: u64, num_to_keep: usize, match_algo: MatchAlgo) -> (r: Result<
        TextMatcher,
        Error,
    >)
        ensures
            crate::candidate::valid_sens(sensitivity) ==> (r matches Ok(m) && m.sensitivity.value
                == sensitivity && m.num_to_keep == num_to_keep && m.algo == match_algo),
            !crate::candidate::valid_sens(sensitivity) ==> (r matches Err(e)
                && e is InvalidSensitivity),
    {
        match Sensitivity::new(sensitivity) {
            Ok(s) => Ok(TextMatcher { sensitivity: s, num_to_keep, algo: match_algo }),
            Err(e) => Err(e),
        }
    }

    /// What a search by this matcher returns on the given lines: the lines
    /// admitted by the threshold and the optional first-letter filter,
    /// ranked descending and cut to the keep count.
    pub open spec fn search_spec(
        &self,
        lines: Seq<Seq<char>>,
        text: Seq<char>,
        flt: bool,
        tag: Seq<char>,
    ) -> Seq<CandidateView> {
        rank_spec(
            matches_spec(lines, text, self.sensitivity.value, self.algo, flt, tag),
            self.sensitivity.value,
            self.num_to_keep as nat,
        )
    }

    /// Ranks the candidate strings against the query text; no filter, no
    /// source tag.
    pub fn find_matches_from_str(&self, candidates: &Vec<String>, text: &str) -> (r: Vec<
        Candidate,
    >)
        ensures
            r.deep_view() == self.search_spec(candidates.deep_view(), text@, false, Seq::empty()),
    {
        proof {
            reveal_strlit("");
            assert(""@ =~= Seq::<char>::empty());
        }
        let scanned = scan_lines(candidates, text, &Sens(self.sensitivity.value), &self.algo, false, "");
        rank_and_keep(scanned, &Sens(self.sensitivity.value), self.num_to_keep)
    }

    /// Re-scores ready-made candidates against the query text, keeping each
    /// one's source tag, and ranks the survivors.
    pub fn find_matches_from(&self, candidates: &Vec<Candidate>, text: &str) -> (r: Vec<Candidate>)
        ensures
            r.deep_view() == rank_spec(
                rescore_spec(candidates.deep_view(), text@, self.sensitivity.value, self.algo),
                self.sensitivity.value,
                self.num_to_keep as nat,
            ),
    {
        let mut scanned: Vec<Candidate> = Vec::new();
        let mut i: usize = 0;
        while i < candidates.len()
            invariant
                i <= candidates@.len(),
                scanned.deep_view() == rescore_spec(
                    candidates.deep_view().take(i as int),
                    text@,
                    self.sensitivity.value,
                    self.algo,
                ),
            decreases candidates@.len() - i,
        {
            let c = &candidates[i];
            proof {
                assert(candidates.deep_view().take(i + 1 as int).drop_last()
                    =~= candidates.deep_view().take(i as int));
                assert(candidates.deep_view().take(i + 1 as int).last() == c.deep_view());
            }
            let stripped = string_of(&strip_punct(&chars_of(c.text.as_str())));
            let score = self.algo.score(text, stripped.as_str());
            if score > self.sensitivity.value {
                let ghost sofar = scanned.deep_view();
                let rescored = Candidate {
                    text: c.text.clone(),
                    similarity: score,
                    file_found: c.file_found.clone(),
                };
                scanned.push(rescored);
                proof {
                    assert(scanned.deep_view() =~= sofar.push(rescored@));
                }
            }
            i += 1;
        }
        proof {
            assert(candidates.deep_view().take(candidates@.len() as int)
                =~= candidates.deep_view());
        }
        rank_and_keep(scanned, &Sens(self.sensitivity.value), self.num_to_keep)
    }

    /// Ranks the lines of one named source against the query text, honoring
    /// the optional first-letter filter; candidates carry the source name.
    pub fn find_matches_in_lines(
        &self,
        text: &str,
        lines: &Vec<String>,
        source_name: &str,
        is_first_let_eq: Option<bool>,
    ) -> (r: Vec<Candidate>)
        ensures
            r.deep_view() == self.search_spec(
                lines.deep_view(),
                text@,
                is_first_let_eq == Some(true),
                source_name@,
            ),
    {
        let flt = match is_first_let_eq {
            Some(b) => b,
            None => false,
        };
        let scanned = scan_lines(
            lines,
            text,
            &Sens(self.sensitivity.value),
            &self.algo,
            flt,
            source_name,
        );
        rank_and_keep(scanned, &Sens(self.sensitivity.value), self.num_to_keep)
    }
}

/// The candidates kept when ready-made candidates are scored anew: each one
/// whose stripped text scores strictly above the threshold, with its new
/// score and its old source tag.
pub open spec fn rescore_spec(
    cands: Seq<CandidateView>,
    text: Seq<char>,
    t: u64,
    algo: MatchAlgo,
) -> Seq<CandidateView>
    decreases cands.len(),
{
    if cands.len() == 0 {
        Seq::empty()
    } else {
        let rest = rescore_spec(cands.drop_last(), text, t, algo);
        let c = cands.last();
        let score = sim_spec(algo, text, strip_punct_spec(c.text));
        if score > t {
            rest.push(CandidateView { text: c.text, similarity: score, file_found: c.file_found })
        } else {
            rest
        }
    }
}

} // verus!
