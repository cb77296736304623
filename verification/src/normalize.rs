use vstd::prelude::*;
use crate::chars::{is_digit, is_letter, is_punct, is_sep, is_space, is_word_char, digit_x,
    letter_x, punct_x, sep_x, space_x, word_char_x, chars_of, string_of};

verus! {

/// The Unicode-lowercased form of a character sequence. What it is on given
/// characters is left to the library that folds case.
pub uninterp spec fn lower_of(s: Seq<char>) -> Seq<char>;

/// Relies on str::to_lowercase: the result depends on the characters alone,
/// and an empty string stays empty.
#[verifier::external_body]
pub fn lowercase(s: &str) -> (r: String)
    ensures
        r@ == lower_of(s@),
        s@.len() == 0 ==> r@.len() == 0,
{
    s.to_lowercase()
}

/// The sequence with every punctuation character removed.
pub open spec fn strip_punct_spec(s: Seq<char>) -> Seq<char>
    decreases s.len(),
{
    if s.len() == 0 {
        Seq::empty()
    } else if is_punct(s.last()) {
        strip_punct_spec(s.drop_last())
    } else {
        strip_punct_spec(s.drop_last()).push(s.last())
    }
}

pub fn strip_punct(v: &Vec<char>) -> (r: Vec<char>)
    ensures
        r@ == strip_punct_spec(v@),
{
    let mut r: Vec<char> = Vec::new();
    let mut i: usize = 0;
    while i < v.len()
        invariant
            i <= v@.len(),
            r@ == strip_punct_spec(v@.subrange(0, i as int)),
        decreases v@.len() - i,
    {
        let c = v[i];
        assert(v@.subrange(0, i + 1 as int).drop_last() =~= v@.subrange(0, i as int));
        assert(v@.subrange(0, i + 1 as int).last() == v@[i as int]);
        if !punct_x(c) {
            r.push(c);
        }
        i += 1;
    }
    assert(v@.subrange(0, v@.len() as int) =~= v@);
    r
}

/// How many leading characters are whitespace.
pub open spec fn ws_prefix_len(s: Seq<char>) -> nat
    decreases s.len(),
{
    if s.len() == 0 || !is_space(s.first()) {
        0
    } else {
        1 + ws_prefix_len(s.drop_first())
    }
}

/// How many trailing characters are whitespace.
pub open spec fn ws_suffix_len(s: Seq<char>) -> nat
    decreases s.len(),
{
    if s.len() == 0 || !is_space(s.last()) {
        0
    } else {
        1 + ws_suffix_len(s.drop_last())
    }
}

/// How many leading characters are digits.
pub open spec fn digit_prefix_len(s: Seq<char>) -> nat
    decreases s.len(),
{
    if s.len() == 0 || !is_digit(s.first()) {
        0
    } else {
        1 + digit_prefix_len(s.drop_first())
    }
}

/// How many leading characters are not whitespace.
pub open spec fn token_prefix_len(s: Seq<char>) -> nat
    decreases s.len(),
{
    if s.len() == 0 || is_space(s.first()) {
        0
    } else {
        1 + token_prefix_len(s.drop_first())
    }
}

proof fn lemma_ws_prefix(s: Seq<char>, l: int)
    requires
        0 <= l <= s.len(),
        forall|i: int| 0 <= i < l ==> is_space(s[i]),
        l < s.len() ==> !is_space(s[l]),
    ensures
        ws_prefix_len(s) == l,
    decreases s.len(),
{
    if s.len() == 0 {
    } else if l == 0 {
    } else {
        lemma_ws_prefix(s.drop_first(), l - 1);
    }
}

proof fn lemma_ws_suffix(s: Seq<char>, l: int)
    requires
        0 <= l <= s.len(),
        forall|i: int| s.len() - l <= i < s.len() ==> is_space(s[i]),
        l < s.len() ==> !is_space(s[s.len() - l - 1]),
    ensures
        ws_suffix_len(s) == l,
    decreases s.len(),
{
    if s.len() == 0 {
    } else if l == 0 {
    } else {
        lemma_ws_suffix(s.drop_last(), l - 1);
    }
}

proof fn lemma_digit_prefix(s: Seq<char>, l: int)
    requires
        0 <= l <= s.len(),
        forall|i: int| 0 <= i < l ==> is_digit(s[i]),
        l < s.len() ==> !is_digit(s[l]),
    ensures
        digit_prefix_len(s) == l,
    decreases s.len(),
{
    if s.len() == 0 {
    } else if l == 0 {
    } else {
        lemma_digit_prefix(s.drop_first(), l - 1);
    }
}

proof fn lemma_token_prefix(s: Seq<char>, l: int)
    requires
        0 <= l <= s.len(),
        forall|i: int| 0 <= i < l ==> !is_space(s[i]),
        l < s.len() ==> is_space(s[l]),
    ensures
        token_prefix_len(s) == l,
    decreases s.len(),
{
    if s.len() == 0 {
    } else if l == 0 {
    } else {
        lemma_token_prefix(s.drop_first(), l - 1);
    }
}

/// Whitespace trimmed from both ends.
pub open spec fn trim_spec(s: Seq<char>) -> Seq<char> {
    let rest = s.skip(ws_prefix_len(s) as int);
    rest.take(rest.len() - ws_suffix_len(rest))
}

pub fn trim_chars(v: &Vec<char>) -> (r: Vec<char>)
    ensures
        r@ == trim_spec(v@),
{
    let n = v.len();
    let mut lo: usize = 0;
    while lo < n && space_x(v[lo])
        invariant
            lo <= n == v@.len(),
            forall|i: int| 0 <= i < lo ==> is_space(v@[i]),
        decreases n - lo,
    {
        lo += 1;
    }
    proof {
        lemma_ws_prefix(v@, lo as int);
    }
    let mut hi: usize = n;
    while hi > lo && space_x(v[hi - 1])
        invariant
            lo <= hi <= n == v@.len(),
            forall|i: int| hi <= i < n ==> is_space(v@[i]),
        decreases hi,
    {
        hi -= 1;
    }
    proof {
        let rest = v@.skip(lo as int);
        assert(forall|i: int| 0 <= i < rest.len() ==> rest[i] == v@[lo + i]);
        lemma_ws_suffix(rest, n - hi);
    }
    let mut r: Vec<char> = Vec::new();
    let mut i: usize = lo;
    while i < hi
        invariant
            lo <= i <= hi <= n == v@.len(),
            r@ == v@.subrange(lo as int, i as int),
        decreases hi - i,
    {
        let c = v[i];
        r.push(c);
        assert(r@ =~= v@.subrange(lo as int, i + 1 as int));
        i += 1;
    }
    proof {
        assert(r@ =~= trim_spec(v@));
    }
    r
}

/// Whether some character is a digit.
pub open spec fn has_digit(s: Seq<char>) -> bool {
    exists|i: int| 0 <= i < s.len() && is_digit(s[i])
}

/// Whether the text holds a street number: any digit counts.
pub fn contains_digit(v: &Vec<char>) -> (r: bool)
    ensures
        r == has_digit(v@),
{
    let mut i: usize = 0;
    while i < v.len()
        invariant
            i <= v@.len(),
            forall|j: int| 0 <= j < i ==> !is_digit(v@[j]),
        decreases v@.len() - i,
    {
        if digit_x(v[i]) {
            return true;
        }
        i += 1;
    }
    false
}

/// A leading house-number token: digits, an optional comma, whitespace and
/// then at least one more character.
pub open spec fn leads_with_digits(s: Seq<char>) -> bool {
    let d = digit_prefix_len(s) as int;
    let j = if d < s.len() && s[d] == ',' {
        d + 1
    } else {
        d
    };
    d >= 1 && j < s.len() && is_space(s[j]) && j + 1 < s.len()
}

/// A leading letter-and-number token such as a wing or staircase mark:
/// one word character, digits, an optional comma and whitespace.
pub open spec fn leads_with_word_digits(s: Seq<char>) -> bool {
    if s.len() == 0 || !is_word_char(s[0]) {
        false
    } else {
        let d = digit_prefix_len(s.skip(1)) as int;
        let j = if 1 + d < s.len() && s[1 + d] == ',' {
            2 + d
        } else {
            1 + d
        };
        d >= 1 && j < s.len() && is_space(s[j])
    }
}

/// Whether the string begins with a street number to rotate to the end.
pub open spec fn starts_with_number_spec(s: Seq<char>) -> bool {
    leads_with_digits(s) || leads_with_word_digits(s)
}

/// Counts the digits running from `start`.
fn digit_run_from(v: &Vec<char>, start: usize) -> (r: usize)
    requires
        start <= v@.len(),
    ensures
        r == digit_prefix_len(v@.skip(start as int)),
        start + r <= v@.len(),
{
    let mut i: usize = start;
    while i < v.len() && digit_x(v[i])
        invariant
            start <= i <= v@.len(),
            forall|j: int| start <= j < i ==> is_digit(v@[j]),
        decreases v@.len() - i,
    {
        i += 1;
    }
    proof {
        let rest = v@.skip(start as int);
        assert(forall|j: int| 0 <= j < rest.len() ==> rest[j] == v@[start + j]);
        lemma_digit_prefix(rest, i - start);
    }
    i - start
}

/// Whether the string begins with a street number, in either accepted shape.
pub fn starts_with_number(v: &Vec<char>) -> (r: bool)
    ensures
        r == starts_with_number_spec(v@),
{
    let n = v.len();
    proof {
        assert(v@.skip(0) =~= v@);
    }
    let d0 = digit_run_from(v, 0);
    let first = if d0 >= 1 {
        let j = if d0 < n && v[d0] == ',' {
            d0 + 1
        } else {
            d0
        };
        j < n && space_x(v[j]) && j + 1 < n
    } else {
        false
    };
    if first {
        return true;
    }
    if n == 0 || !word_char_x(v[0]) {
        return false;
    }
    let d1 = digit_run_from(v, 1);
    if d1 < 1 {
        return false;
    }
    let j = if 1 + d1 < n && v[1 + d1] == ',' {
        2 + d1
    } else {
        1 + d1
    };
    j < n && space_x(v[j])
}

/// The leading token rotated to the back: the rest of the string, a single
/// space, then the token; applies only when the string leads with a number.
pub open spec fn rotate_spec(s: Seq<char>) -> Seq<char> {
    if !starts_with_number_spec(s) {
        s
    } else {
        let k = token_prefix_len(s) as int;
        let r0 = k + ws_prefix_len(s.skip(k)) as int;
        s.skip(r0) + seq![' '] + s.take(k)
    }
}

/// Moves a leading street-number token behind the street name.
pub fn rotate(v: Vec<char>) -> (r: Vec<char>)
    ensures
        r@ == rotate_spec(v@),
{
    if !starts_with_number(&v) {
        return v;
    }
    let n = v.len();
    let mut k: usize = 0;
    while k < n && !space_x(v[k])
        invariant
            k <= n == v@.len(),
            forall|i: int| 0 <= i < k ==> !is_space(v@[i]),
        decreases n - k,
    {
        k += 1;
    }
    proof {
        lemma_token_prefix(v@, k as int);
    }
    let mut r0: usize = k;
    while r0 < n && space_x(v[r0])
        invariant
            k <= r0 <= n == v@.len(),
            forall|i: int| k <= i < r0 ==> is_space(v@[i]),
        decreases n - r0,
    {
        r0 += 1;
    }
    proof {
        let rest = v@.skip(k as int);
        assert(forall|i: int| 0 <= i < rest.len() ==> rest[i] == v@[k + i]);
        lemma_ws_prefix(rest, r0 - k as int);
    }
    let mut r: Vec<char> = Vec::new();
    let mut i: usize = r0;
    while i < n
        invariant
            r0 <= i <= n == v@.len(),
            r@ == v@.subrange(r0 as int, i as int),
        decreases n - i,
    {
        let c = v[i];
        r.push(c);
        assert(r@ =~= v@.subrange(r0 as int, i + 1 as int));
        i += 1;
    }
    r.push(' ');
    let ghost mid = r@;
    let mut i2: usize = 0;
    while i2 < k
        invariant
            i2 <= k <= v@.len(),
            r@ == mid + v@.subrange(0, i2 as int),
        decreases k - i2,
    {
        let c = v[i2];
        r.push(c);
        assert(r@ =~= mid + v@.subrange(0, i2 + 1 as int));
        i2 += 1;
    }
    proof {
        assert(r@ =~= rotate_spec(v@));
    }
    r
}

/// Whether the string ends in whitespace, digits, whitespace and one letter:
/// the trailing single-letter house mark that truncation must spare.
pub open spec fn keeps_trailing_letter(s: Seq<char>) -> bool {
    s.len() >= 3 && is_letter(s.last()) && is_space(s[s.len() - 2]) && exists|j: int|
        0 <= j <= s.len() - 3 && is_space(s[j]) && (forall|i: int|
            j < i < s.len() - 2 ==> is_digit(s[i]))
}

/// Detects the trailing house-letter shape.
pub fn ends_with_house_letter(v: &Vec<char>) -> (r: bool)
    ensures
        r == keeps_trailing_letter(v@),
{
    let n = v.len();
    if n < 3 {
        return false;
    }
    if !letter_x(v[n - 1]) || !space_x(v[n - 2]) {
        return false;
    }
    let mut i: usize = n - 3;
    let mut stopped: bool = false;
    while !stopped && digit_x(v[i])
        invariant
            n == v@.len() >= 3,
            i <= n - 3,
            !stopped ==> forall|t: int| i < t < n - 2 ==> is_digit(v@[t]),
            stopped ==> i == 0 && forall|t: int| 0 <= t < n - 2 ==> is_digit(v@[t]),
        decreases i + (if stopped { 0int } else { 1int }),
    {
        if i == 0 {
            stopped = true;
        } else {
            i -= 1;
        }
    }
    if stopped {
        // every character before the final pair is a digit, so no whitespace
        // can open the pattern
        proof {
            assert forall|j: int| 0 <= j <= n - 3 implies !(is_space(v@[j]) && (forall|t: int|
                j < t < n - 2 ==> is_digit(v@[t]))) by {
                assert(is_digit(v@[j]));
            }
        }
        return false;
    }
    let found = space_x(v[i]);
    proof {
        if found {
            assert(is_space(v@[i as int]) && (forall|t: int|
                i < t < n - 2 ==> is_digit(v@[t])));
        } else {
            // v[i] is neither space nor digit, so no j can satisfy the shape:
            // a j below i would need v[i] to be a digit, j itself must be a space
            assert forall|j: int| 0 <= j <= n - 3 implies !(is_space(v@[j]) && (forall|t: int|
                j < t < n - 2 ==> is_digit(v@[t]))) by {
                if j < i {
                    assert(!is_digit(v@[i as int]));
                } else if j == i {
                } else {
                    assert(is_digit(v@[j]));
                }
            }
        }
    }
    found
}

/// Where a multi-unit tail may be cut at whitespace position i: the end of
/// the kept prefix, at the separator that follows the house number.
pub open spec fn tail_match_at(s: Seq<char>, i: int) -> Option<int> {
    let k = digit_prefix_len(s.skip(i + 1)) as int;
    let p = i + 1 + k;
    if p >= s.len() {
        None
    } else if is_space(s[p]) {
        if p + 2 < s.len() && is_letter(s[p + 1]) && is_sep(s[p + 2]) {
            Some(p + 2)
        } else if p + 1 < s.len() && is_sep(s[p + 1]) {
            Some(p + 1)
        } else {
            Some(p)
        }
    } else if is_letter(s[p]) && p + 1 < s.len() && is_sep(s[p + 1]) {
        Some(p + 1)
    } else if is_sep(s[p]) {
        Some(p)
    } else {
        None
    }
}

/// The first whitespace position whose tail shapes a multi-unit suffix, and
/// the cut it yields.
pub open spec fn find_trunc(s: Seq<char>, i: int) -> Option<int>
    decreases (if i < s.len() { s.len() - i } else { 0 })
{
    if i < 0 || i >= s.len() {
        None
    } else if is_space(s[i]) && tail_match_at(s, i) is Some {
        tail_match_at(s, i)
    } else {
        find_trunc(s, i + 1)
    }
}

fn tail_match(v: &Vec<char>, i: usize) -> (r: Option<usize>)
    requires
        i < v@.len(),
    ensures
        match r {
            Some(e) => tail_match_at(v@, i as int) == Some(e as int) && e <= v@.len(),
            None => tail_match_at(v@, i as int) is None,
        },
{
    let n = v.len();
    let k = digit_run_from(v, i + 1);
    let p = i + 1 + k;
    if p >= n {
        None
    } else if space_x(v[p]) {
        if n - p > 2 && letter_x(v[p + 1]) && sep_x(v[p + 2]) {
            Some(p + 2)
        } else if n - p > 1 && sep_x(v[p + 1]) {
            Some(p + 1)
        } else {
            Some(p)
        }
    } else if letter_x(v[p]) && n - p > 1 && sep_x(v[p + 1]) {
        Some(p + 1)
    } else if sep_x(v[p]) {
        Some(p)
    } else {
        None
    }
}

/// The prefix kept after cutting a multi-unit tail, the separator dropped;
/// the string stays whole when no cut is found or the trailing house-letter
/// shape spares it.
pub open spec fn truncate_spec(s: Seq<char>) -> Seq<char> {
    match find_trunc(s, 0) {
        Some(e) => if keeps_trailing_letter(s) {
            s
        } else {
            s.take(e)
        },
        None => s,
    }
}

/// Cuts a trailing list of further house numbers off the street.
pub fn truncate_units(v: Vec<char>) -> (r: Vec<char>)
    ensures
        r@ == truncate_spec(v@),
{
    let n = v.len();
    let mut i: usize = 0;
    let mut cut: Option<usize> = None;
    while i < n && cut.is_none()
        invariant
            i <= n == v@.len(),
            match cut {
                None => find_trunc(v@, 0) == find_trunc(v@, i as int),
                Some(e) => find_trunc(v@, 0) == Some(e as int) && e <= n,
            },
        decreases n - i + (if cut is None { 1int } else { 0 }),
    {
        if space_x(v[i]) {
            let m = tail_match(&v, i);
            if let Some(e) = m {
                cut = Some(e);
            } else {
                i += 1;
            }
        } else {
            i += 1;
        }
    }
    match cut {
        None => {
            assert(find_trunc(v@, 0) is None);
            v
        },
        Some(e) => {
            assert(find_trunc(v@, 0) == Some(e as int));
            if ends_with_house_letter(&v) {
                v
            } else {
                let mut r: Vec<char> = Vec::new();
                let mut t: usize = 0;
                while t < e
                    invariant
                        t <= e <= v@.len(),
                        r@ == v@.subrange(0, t as int),
                    decreases e - t,
                {
                    let c = v[t];
                    r.push(c);
                    assert(r@ =~= v@.subrange(0, t + 1 as int));
                    t += 1;
                }
                assert(r@ =~= v@.take(e as int));
                r
            }
        },
    }
}

/// The full street-cleaning pipeline over characters: trim, fold case,
/// rotate a leading number, cut a multi-unit tail, trim again.
pub open spec fn clean_chars_spec(s: Seq<char>) -> Seq<char> {
    trim_spec(truncate_spec(rotate_spec(lower_of(trim_spec(s)))))
}

/// Cleans a raw street string into its canonical spaced form: trimmed,
/// lowercased, the leading house number rotated to the back, any multi-unit
/// tail cut at its separator.
pub fn clean_street(s: &str) -> (r: String)
    ensures
        r@ == clean_chars_spec(s@),
{
    let trimmed = trim_chars(&chars_of(s));
    let lowered = lowercase(string_of(&trimmed).as_str());
    let rotated = rotate(chars_of(lowered.as_str()));
    let cut = truncate_units(rotated);
    let done = trim_chars(&cut);
    string_of(&done)
}

} // verus!
