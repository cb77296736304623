use vstd::prelude::*;
use vstd::string::*;
use crate::chars::{chars_of, string_of};
use crate::normalize::{lower_of, lowercase, strip_punct, strip_punct_spec};

verus! {

/// The bit pattern of the similarity value one, the top of the score scale.
pub const BITS_ONE: u64 = 0x3FF0000000000000;

/// The default admission threshold for a directory-wide search.
pub const DEFAULT_SENS_BITS: u64 = 0x3FE3333333333333;

/// The failure taxonomy of the matching pipeline.
#[derive(Debug)]
pub enum Error {
    /// A named source could not be read; the text carries the reason.
    Io(String),
    /// A search that had to yield a candidate found none.
    NotFound,
    /// The address pipeline was handed a street without any digit.
    MissingStreetNumber,
    /// A sensitivity outside the open-closed unit interval was requested.
    InvalidSensitivity,
}

impl Error {
    /// A short display text for the failure, in place of a formatter.
    pub fn describe(&self) -> (r: &'static str)
        ensures
            self is Io ==> r@ == "IoFailure"@,
            self is NotFound ==> r@ == "CandidatesNotFound"@,
            self is MissingStreetNumber ==> r@ == "MissingStreetNumber"@,
            self is InvalidSensitivity ==> r@ == "InvalidSensitivity"@,
    {
        match self {
            Error::Io(_) => "IoFailure",
            Error::NotFound => "CandidatesNotFound",
            Error::MissingStreetNumber => "MissingStreetNumber",
            Error::InvalidSensitivity => "InvalidSensitivity",
        }
    }
}

pub type SimResult = Result<Vec<Candidate>, Error>;

/// A raw string beside its comparable form: lowercased and free of the
/// fixed punctuation set, the space included.
#[derive(Debug, Clone)]
pub struct Text {
    pub init: String,
    pub cleaned: String,
}

impl Text {
    pub fn new(text: String) -> (r: Text)
        ensures
            r.init@ == text@,
            r.cleaned@ == strip_punct_spec(lower_of(text@)),
    {
        let lowered = lowercase(text.as_str());
        let stripped = strip_punct(&chars_of(lowered.as_str()));
        Text { cleaned: string_of(&stripped), init: text }
    }
}

/// Whether a score encoding may serve as a sensitivity: strictly above
/// zero and at most one.
pub open spec fn valid_sens(bits: u64) -> bool {
    1 <= bits <= BITS_ONE
}

/// A validated admission threshold, as a score encoding in (0, 1].
#[derive(Debug, Clone, Copy)]
pub struct Sens(pub u64);

impl Sens {
    /// Accepts exactly the encodings of thresholds strictly above zero and
    /// at most one; anything else is a configuration error.
    pub fn new(sens: u64) -> (r: Result<Sens, Error>)
        ensures
            valid_sens(sens) ==> (r matches Ok(s) && s.0 == sens),
            !valid_sens(sens) ==> (r matches Err(e) && e is InvalidSensitivity),
    {
        if 1 <= sens && sens <= BITS_ONE {
            Ok(Sens(sens))
        } else {
            Err(Error::InvalidSensitivity)
        }
    }
}

impl Default for Sens {
    /// The default directory-search threshold.
    fn default() -> (r: Sens)
        ensures
            r.0 == DEFAULT_SENS_BITS,
    {
        Sens(DEFAULT_SENS_BITS)
    }
}

/// The mathematical content of a candidate: its text, its score encoding
/// and the name of the source it was found in.
pub ghost struct CandidateView {
    pub text: Seq<char>,
    pub similarity: u64,
    pub file_found: Seq<char>,
}

/// A corpus entry scored against a query, tagged with the source it came
/// from; the empty tag means no particular source.
#[derive(Debug, Clone)]
pub struct Candidate {
    pub text: String,
    pub similarity: u64,
    pub file_found: String,
}

impl View for Candidate {
    type V = CandidateView;

    open spec fn view(&self) -> CandidateView {
        CandidateView {
            text: self.text@,
            similarity: self.similarity,
            file_found: self.file_found@,
        }
    }
}

impl DeepView for Candidate {
    type V = CandidateView;

    open spec fn deep_view(&self) -> CandidateView {
        self@
    }
}

impl Candidate {
    /// A fresh, unscored candidate for the given text.
    pub fn from(text: &str) -> (r: Candidate)
        ensures
            r@.text == text@,
            r@.similarity == 0,
            r@.file_found =~= Seq::<char>::empty(),
    {
        Candidate { text: text.to_owned(), similarity: 0, file_found: String::new() }
    }
}

impl PartialEq for Candidate {
    /// Candidates are the same entry when their texts agree; the score and
    /// the source do not enter.
    fn eq(&self, other: &Self) -> bool {
        self.text == other.text
    }
}

impl vstd::std_specs::cmp::PartialEqSpecImpl for Candidate {
    open spec fn obeys_eq_spec() -> bool {
        true
    }

    open spec fn eq_spec(&self, other: &Self) -> bool {
        self.text@ == other.text@
    }
}

} // verus!
