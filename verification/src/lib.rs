//! Fuzzy matching of noisily formatted street addresses against a reference
//! corpus of canonical names: normalization of raw address strings, a closed
//! registry of similarity algorithms, threshold-and-keep ranking, fan-out
//! search across partitioned sources, and a two-tier narrow/broad resolution
//! strategy for Swiss streets.
pub mod candidate;
pub mod chars;
pub mod matcher;
pub mod normalize;
pub mod rank;
pub mod score;
pub mod search;
pub mod street;
pub mod street_sim;

pub use candidate::{Candidate, Error, Sens, SimResult, Text};
pub use matcher::{Sensitivity, TextMatcher};
pub use score::MatchAlgo;
pub use search::ScopeFile;
pub use street::{MatchedStreet, StreetMatcher, SwissStreet};
pub use street_sim::{Location, Place, Plz, Street, StreetFile};
