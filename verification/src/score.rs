use vstd::prelude::*;
use vstd::arithmetic::power2::{pow2, lemma_pow2_adds, lemma_pow2_strictly_increases, lemma2_to64,
    lemma2_to64_rest};
use vstd::arithmetic::div_mod::{lemma_div_is_ordered, lemma_div_multiples_vanish,
    lemma_multiply_divide_lt};
use vstd::string::*;
use crate::candidate::BITS_ONE;

verus! {

// Similarity scores travel as one `u64` encoding per comparison: the IEEE-754
// bit pattern of a double in [0, 1]. On that range the bit pattern rises
// exactly when the value does, so ordering scores and holding them against a
// sensitivity needs nothing beyond integer comparison.

/// The closed set of scoring algorithms; each variant maps to exactly one
/// scoring function.
#[derive(Debug, Clone, PartialEq, Eq, Structural)]
pub enum MatchAlgo {
    Levenshtein,
    DamerauLevenshtein,
    JaroWinkler,
    Jaro,
    SorensenDice,
    Osa,
}

impl Default for MatchAlgo {
    /// The stated default of the registry.
    fn default() -> (r: MatchAlgo)
        ensures
            r == MatchAlgo::Levenshtein,
    {
        MatchAlgo::Levenshtein
    }
}

/// The encoded normalized Levenshtein similarity of two texts.
pub uninterp spec fn levenshtein_sim_bits(a: Seq<char>, b: Seq<char>) -> u64;

/// The encoded normalized Damerau-Levenshtein similarity of two texts.
pub uninterp spec fn damerau_sim_bits(a: Seq<char>, b: Seq<char>) -> u64;

/// The encoded Jaro similarity of two texts.
pub uninterp spec fn jaro_sim_bits(a: Seq<char>, b: Seq<char>) -> u64;

/// The encoded Jaro-Winkler similarity of two texts.
pub uninterp spec fn jaro_winkler_sim_bits(a: Seq<char>, b: Seq<char>) -> u64;

/// The encoded Sorensen-Dice similarity of two texts.
pub uninterp spec fn sorensen_dice_sim_bits(a: Seq<char>, b: Seq<char>) -> u64;

/// The optimal-string-alignment edit distance of two texts.
pub uninterp spec fn osa_dist(a: Seq<char>, b: Seq<char>) -> usize;

/// Relies on strsim::normalized_levenshtein: the Levenshtein distance scaled
/// by the longer input's character count, a value in [0, 1], whose encoding
/// therefore stays at or below the encoding of one.
#[verifier::external_body]
fn levenshtein_sim(a: &str, b: &str) -> (r: u64)
    ensures
        r == levenshtein_sim_bits(a@, b@),
        r <= BITS_ONE,
{
    strsim::normalized_levenshtein(a, b).to_bits()
}

/// Relies on strsim::normalized_damerau_levenshtein: the Damerau-Levenshtein
/// distance scaled by the longer input's character count, a value in [0, 1].
#[verifier::external_body]
fn damerau_sim(a: &str, b: &str) -> (r: u64)
    ensures
        r == damerau_sim_bits(a@, b@),
        r <= BITS_ONE,
{
    strsim::normalized_damerau_levenshtein(a, b).to_bits()
}

/// Relies on strsim::jaro: a similarity in [0, 1].
#[verifier::external_body]
fn jaro_sim(a: &str, b: &str) -> (r: u64)
    ensures
        r == jaro_sim_bits(a@, b@),
        r <= BITS_ONE,
{
    strsim::jaro(a, b).to_bits()
}

/// Relies on strsim::jaro_winkler: the Jaro similarity with a common-prefix
/// boost, still a value in [0, 1].
#[verifier::external_body]
fn jaro_winkler_sim(a: &str, b: &str) -> (r: u64)
    ensures
        r == jaro_winkler_sim_bits(a@, b@),
        r <= BITS_ONE,
{
    strsim::jaro_winkler(a, b).to_bits()
}

/// Relies on strsim::sorensen_dice: the bigram coefficient, a value in [0, 1].
#[verifier::external_body]
fn sorensen_dice_sim(a: &str, b: &str) -> (r: u64)
    ensures
        r == sorensen_dice_sim_bits(a@, b@),
        r <= BITS_ONE,
{
    strsim::sorensen_dice(a, b).to_bits()
}

/// Relies on strsim::osa_distance: the optimal-string-alignment edit
/// distance, a count of edits.
#[verifier::external_body]
fn osa_distance(a: &str, b: &str) -> (r: usize)
    ensures
        r == osa_dist(a@, b@),
{
    strsim::osa_distance(a, b)
}

/// The smallest count of doublings that lifts num to at least den.
pub open spec fn shift_to_reach(num: int, den: int) -> nat
    decreases (if num < den { den - num } else { 0 })
{
    if num <= 0 || num >= den {
        0
    } else {
        1 + shift_to_reach(2 * num, den)
    }
}

proof fn lemma_shift_to_reach(num: int, den: int)
    requires
        0 < num < den,
    ensures
        num * pow2(shift_to_reach(num, den)) >= den,
        num * pow2(shift_to_reach(num, den)) < 2 * den,
        shift_to_reach(num, den) >= 1,
    decreases den - num,
{
    let j = shift_to_reach(num, den);
    if 2 * num >= den {
        assert(j == 1) by {
            assert(shift_to_reach(2 * num, den) == 0);
        }
        assert(pow2(1) == 2) by {
            lemma2_to64();
        }
    } else {
        lemma_shift_to_reach(2 * num, den);
        let jr = shift_to_reach(2 * num, den);
        assert(j == 1 + jr);
        assert(pow2(jr + 1) == 2 * pow2(jr)) by {
            lemma_pow2_adds(1, jr);
            lemma2_to64();
        }
        assert(num * pow2(j) == (2 * num) * pow2(jr)) by (nonlinear_arith)
            requires
                pow2(j) == 2 * pow2(jr),
        ;
    }
}

proof fn lemma_shift_unique(num: int, den: int, j: nat)
    requires
        0 < num < den,
        num * pow2(j) >= den,
        j >= 1,
        num * pow2((j - 1) as nat) < den,
    ensures
        j == shift_to_reach(num, den),
{
    let js = shift_to_reach(num, den);
    lemma_shift_to_reach(num, den);
    if js < j {
        // then js <= j - 1, so num * pow2(js) <= num * pow2(j - 1) < den
        assert(pow2(js) <= pow2((j - 1) as nat)) by {
            if js < j - 1 {
                lemma_pow2_strictly_increases(js, (j - 1) as nat);
            }
        }
        assert(num * pow2(js) <= num * pow2((j - 1) as nat)) by (nonlinear_arith)
            requires
                num > 0,
                pow2(js) <= pow2((j - 1) as nat),
        ;
        assert(false);
    } else if js > j {
        // then num * pow2(j) <= num * pow2(js - 1) < den, against the bound
        assert(pow2(j) <= pow2((js - 1) as nat)) by {
            if j < js - 1 {
                lemma_pow2_strictly_increases(j, (js - 1) as nat);
            }
        }
        assert(num * pow2((js - 1) as nat) < den) by {
            assert(num * pow2(js) < 2 * den);
            assert(pow2(js) == 2 * pow2((js - 1) as nat)) by {
                lemma_pow2_adds(1, (js - 1) as nat);
                lemma2_to64();
            }
            assert(num * pow2(js) == 2 * (num * pow2((js - 1) as nat))) by (nonlinear_arith)
                requires
                    pow2(js) == 2 * pow2((js - 1) as nat),
            ;
        }
        assert(num * pow2(j) <= num * pow2((js - 1) as nat)) by (nonlinear_arith)
            requires
                num > 0,
                pow2(j) <= pow2((js - 1) as nat),
        ;
        assert(false);
    }
}

/// The score encoding of the ratio (m - d) / m, the similarity that the
/// optimal-string-alignment distance d yields on inputs whose longer one
/// holds m characters. Zero stands for no similarity; the fraction's
/// mantissa is rounded toward zero.
pub open spec fn osa_sim_spec(d: int, m: int) -> u64 {
    if m <= 0 || d < 0 || d >= m {
        0u64
    } else if d == 0 {
        BITS_ONE
    } else {
        let num = m - d;
        let j = shift_to_reach(num, m);
        let mant = (num * pow2((j + 52) as nat)) / m;
        (((1023 - j) * pow2(52) + (mant - pow2(52))) as u64)
    }
}

/// Encodes the similarity left by d edits on inputs of longer length m.
pub fn osa_sim(d: usize, m: usize) -> (r: u64)
    ensures
        r == osa_sim_spec(d as int, m as int),
        r <= BITS_ONE,
{
    if m == 0 || d >= m {
        return 0;
    }
    if d == 0 {
        return BITS_ONE;
    }
    let num: u128 = (m - d) as u128;
    let den: u128 = m as u128;
    let mut scaled: u128 = num;
    let mut j: u64 = 0;
    proof {
        assert(pow2(0) == 1) by {
            lemma2_to64();
        }
    }
    while scaled < den
        invariant
            0 < num < den,
            den <= 0xFFFF_FFFF_FFFF_FFFFu128,
            scaled == num * pow2(j as nat),
            0 < scaled < 2 * den,
            j >= 1 ==> num * pow2((j - 1) as nat) < den,
        decreases (if scaled < den { den - scaled } else { 0 }),
    {
        proof {
            assert(pow2((j + 1) as nat) == 2 * pow2(j as nat)) by {
                lemma_pow2_adds(1, j as nat);
                lemma2_to64();
            }
            assert(num * pow2((j + 1) as nat) == 2 * (num * pow2(j as nat))) by (nonlinear_arith)
                requires
                    pow2((j + 1) as nat) == 2 * pow2(j as nat),
            ;
            // j stays small: fewer than 64 doublings reach any u64 denominator
            assert(j < 127) by {
                if j >= 127 {
                    assert(pow2(j as nat) >= pow2(127)) by {
                        if j > 127 {
                            lemma_pow2_strictly_increases(127, j as nat);
                        }
                    }
                    assert(num * pow2(j as nat) >= pow2(127)) by (nonlinear_arith)
                        requires
                            num >= 1,
                            pow2(j as nat) >= pow2(127),
                    ;
                    assert(pow2(127) > 2 * 0xFFFF_FFFF_FFFF_FFFF) by {
                        lemma2_to64_rest();
                        lemma_pow2_adds(64, 63);
                        lemma2_to64();
                        assert(pow2(127) == pow2(64) * pow2(63));
                    }
                }
            }
        }
        scaled = scaled * 2;
        j = j + 1;
    }
    // scaled holds num * 2^j with den <= scaled < 2 * den, so j is the shift
    proof {
        lemma_shift_unique(num as int, den as int, j as nat);
    }
    let wide: u128 = scaled * 0x10_0000_0000_0000u128;
    let mant: u128 = wide / den;
    proof {
        assert(pow2(52) == 0x10_0000_0000_0000) by {
            lemma2_to64_rest();
        }
        assert(pow2(53) == 0x20_0000_0000_0000) by {
            lemma2_to64_rest();
        }
        lemma_pow2_adds(j as nat, 52);
        assert(wide == num * pow2((j + 52) as nat)) by (nonlinear_arith)
            requires
                scaled == num * pow2(j as nat),
                wide == scaled * pow2(52),
                pow2((j + 52) as nat) == pow2(j as nat) * pow2(52),
        ;
        // den * 2^52 <= wide < den * 2^53 bounds the mantissa
        assert(den * pow2(52) <= wide) by (nonlinear_arith)
            requires
                den <= scaled,
                wide == scaled * pow2(52),
                pow2(52) > 0,
        ;
        assert(wide < den * pow2(53)) by (nonlinear_arith)
            requires
                scaled < 2 * den,
                wide == scaled * pow2(52),
                pow2(53) == 2 * pow2(52),
                pow2(52) > 0,
        ;
        assert(mant >= pow2(52)) by {
            lemma_div_multiples_vanish(pow2(52) as int, den as int);
            lemma_div_is_ordered((den * pow2(52)) as int, wide as int, den as int);
        }
        assert(mant < pow2(53)) by {
            lemma_multiply_divide_lt(wide as int, den as int, pow2(53) as int);
        }
        // the loop ran at least once, so the exponent stays below 1023
        assert(j >= 1);
        assert(j <= 64) by {
            if j >= 65 {
                assert(pow2((j - 1) as nat) >= pow2(64)) by {
                    if j - 1 > 64 {
                        lemma_pow2_strictly_increases(64, (j - 1) as nat);
                    }
                }
                assert(num * pow2((j - 1) as nat) >= pow2(64)) by (nonlinear_arith)
                    requires
                        num >= 1,
                        pow2((j - 1) as nat) >= pow2(64),
                ;
                assert(pow2(64) == 0x1_0000_0000_0000_0000) by {
                    lemma2_to64_rest();
                }
            }
        }
    }
    let e: u64 = 1023 - j;
    let r: u64 = e * 0x10_0000_0000_0000u64 + ((mant as u64) - 0x10_0000_0000_0000u64);
    proof {
        assert(e * 0x10_0000_0000_0000u64 <= 1022 * 0x10_0000_0000_0000) by (nonlinear_arith)
            requires
                e <= 1022,
        ;
        assert(r < BITS_ONE);
    }
    r
}

/// The longer of the two lengths.
pub open spec fn max_len(a: Seq<char>, b: Seq<char>) -> int {
    if a.len() >= b.len() {
        a.len() as int
    } else {
        b.len() as int
    }
}

/// The encoded similarity that the chosen algorithm assigns to a pair of
/// texts.
pub open spec fn sim_spec(algo: MatchAlgo, a: Seq<char>, b: Seq<char>) -> u64 {
    match algo {
        MatchAlgo::Levenshtein => levenshtein_sim_bits(a, b),
        MatchAlgo::DamerauLevenshtein => damerau_sim_bits(a, b),
        MatchAlgo::JaroWinkler => jaro_winkler_sim_bits(a, b),
        MatchAlgo::Jaro => jaro_sim_bits(a, b),
        MatchAlgo::SorensenDice => sorensen_dice_sim_bits(a, b),
        MatchAlgo::Osa => osa_sim_spec(osa_dist(a, b) as int, max_len(a, b)),
    }
}

impl MatchAlgo {
    /// Scores the pair of texts with this algorithm; the score never tops
    /// the encoding of one.
    pub fn score(&self, a: &str, b: &str) -> (r: u64)
        ensures
            r == sim_spec(*self, a@, b@),
            r <= BITS_ONE,
    {
        match self {
            MatchAlgo::Levenshtein => levenshtein_sim(a, b),
            MatchAlgo::DamerauLevenshtein => damerau_sim(a, b),
            MatchAlgo::JaroWinkler => jaro_winkler_sim(a, b),
            MatchAlgo::Jaro => jaro_sim(a, b),
            MatchAlgo::SorensenDice => sorensen_dice_sim(a, b),
            MatchAlgo::Osa => {
                let d = osa_distance(a, b);
                let la = a.unicode_len();
                let lb = b.unicode_len();
                let m = if la >= lb {
                    la
                } else {
                    lb
                };
                osa_sim(d, m)
            },
        }
    }
}

} // verus!
