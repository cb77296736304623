use vstd::prelude::*;
use crate::candidate::{Candidate, CandidateView, Error, Sens, SimResult};

verus! {

/// Scores never rise along the sequence.
pub open spec fn sorted_desc(s: Seq<CandidateView>) -> bool {
    forall|i: int, j: int| 0 <= i < j < s.len() ==> s[i].similarity >= s[j].similarity
}

/// Every score lies strictly above the threshold.
pub open spec fn all_above(s: Seq<CandidateView>, t: u64) -> bool {
    forall|i: int| 0 <= i < s.len() ==> s[i].similarity > t
}

/// Insertion into a descending sequence, after any entry of equal score,
/// so that earlier-seen entries win ties.
pub open spec fn insert_desc(s: Seq<CandidateView>, c: CandidateView) -> Seq<CandidateView>
    decreases s.len(),
{
    if s.len() == 0 {
        seq![c]
    } else if s.first().similarity >= c.similarity {
        seq![s.first()] + insert_desc(s.drop_first(), c)
    } else {
        seq![c] + s
    }
}

/// Stable descending sort by score: entries are inserted in their original
/// order, each behind the entries of equal score already placed.
pub open spec fn sort_desc(s: Seq<CandidateView>) -> Seq<CandidateView>
    decreases s.len(),
{
    if s.len() == 0 {
        Seq::empty()
    } else {
        insert_desc(sort_desc(s.drop_last()), s.last())
    }
}

/// The subsequence of entries whose score lies strictly above the threshold,
/// in their original order.
pub open spec fn filter_above(s: Seq<CandidateView>, t: u64) -> Seq<CandidateView>
    decreases s.len(),
{
    if s.len() == 0 {
        Seq::empty()
    } else if s.last().similarity > t {
        filter_above(s.drop_last(), t).push(s.last())
    } else {
        filter_above(s.drop_last(), t)
    }
}

/// At most the first k entries.
pub open spec fn keep_k(s: Seq<CandidateView>, k: nat) -> Seq<CandidateView> {
    if s.len() <= k {
        s
    } else {
        s.take(k as int)
    }
}

/// What threshold-and-keep ranking returns: the entries strictly above the
/// threshold, sorted descending with first-seen tie order, cut to k.
pub open spec fn rank_spec(s: Seq<CandidateView>, t: u64, k: nat) -> Seq<CandidateView> {
    keep_k(sort_desc(filter_above(s, t)), k)
}

proof fn lemma_insert_len(s: Seq<CandidateView>, c: CandidateView)
    ensures
        insert_desc(s, c).len() == s.len() + 1,
    decreases s.len(),
{
    if s.len() > 0 && s.first().similarity >= c.similarity {
        lemma_insert_len(s.drop_first(), c);
    }
}

proof fn lemma_insert_sorted(s: Seq<CandidateView>, c: CandidateView)
    requires
        sorted_desc(s),
    ensures
        sorted_desc(insert_desc(s, c)),
    decreases s.len(),
{
    if s.len() == 0 {
    } else if s.first().similarity >= c.similarity {
        assert(sorted_desc(s.drop_first()));
        lemma_insert_sorted(s.drop_first(), c);
        lemma_insert_len(s.drop_first(), c);
        let r = seq![s.first()] + insert_desc(s.drop_first(), c);
        let ri = insert_desc(s.drop_first(), c);
        assert forall|i: int, j: int| 0 <= i < j < r.len() implies r[i].similarity
            >= r[j].similarity by {
            if i == 0 {
                // the head dominates everything inserted behind it
                assert(r[j] == ri[j - 1]);
                lemma_insert_members(s.drop_first(), c, j - 1);
            } else {
                assert(r[i] == ri[i - 1] && r[j] == ri[j - 1]);
            }
        }
    } else {
    }
}

/// Each entry of the inserted sequence is the new entry or one of the old.
proof fn lemma_insert_members(s: Seq<CandidateView>, c: CandidateView, i: int)
    requires
        0 <= i < insert_desc(s, c).len(),
    ensures
        insert_desc(s, c)[i] == c || exists|j: int| 0 <= j < s.len() && insert_desc(s, c)[i]
            == s[j],
    decreases s.len(),
{
    lemma_insert_len(s, c);
    if s.len() == 0 {
    } else if s.first().similarity >= c.similarity {
        if i == 0 {
            assert(insert_desc(s, c)[0] == s[0]);
        } else {
            lemma_insert_members(s.drop_first(), c, i - 1);
            assert(insert_desc(s, c)[i] == insert_desc(s.drop_first(), c)[i - 1]);
            if insert_desc(s.drop_first(), c)[i - 1] != c {
                let j = choose|j: int|
                    0 <= j < s.drop_first().len() && insert_desc(s.drop_first(), c)[i - 1]
                        == s.drop_first()[j];
                assert(s.drop_first()[j] == s[j + 1]);
            }
        }
    } else {
        if i > 0 {
            assert(insert_desc(s, c)[i] == s[i - 1]);
        }
    }
}

proof fn lemma_sort_len(s: Seq<CandidateView>)
    ensures
        sort_desc(s).len() == s.len(),
    decreases s.len(),
{
    if s.len() > 0 {
        lemma_sort_len(s.drop_last());
        lemma_insert_len(sort_desc(s.drop_last()), s.last());
    }
}

pub proof fn lemma_sort_sorted(s: Seq<CandidateView>)
    ensures
        sorted_desc(sort_desc(s)),
    decreases s.len(),
{
    if s.len() > 0 {
        lemma_sort_sorted(s.drop_last());
        lemma_insert_sorted(sort_desc(s.drop_last()), s.last());
    }
}

/// Each entry of the sorted sequence is an entry of the original.
proof fn lemma_sort_members(s: Seq<CandidateView>, i: int)
    requires
        0 <= i < sort_desc(s).len(),
    ensures
        exists|j: int| 0 <= j < s.len() && sort_desc(s)[i] == s[j],
    decreases s.len(),
{
    if s.len() > 0 {
        lemma_insert_members(sort_desc(s.drop_last()), s.last(), i);
        if sort_desc(s)[i] != s.last() {
            let j = choose|j: int|
                0 <= j < sort_desc(s.drop_last()).len() && sort_desc(s)[i] == sort_desc(
                    s.drop_last(),
                )[j];
            lemma_sort_members(s.drop_last(), j);
            let j2 = choose|j2: int|
                0 <= j2 < s.drop_last().len() && sort_desc(s.drop_last())[j] == s.drop_last()[j2];
            assert(s.drop_last()[j2] == s[j2]);
        } else {
            assert(sort_desc(s)[i] == s[s.len() - 1]);
        }
    }
}

pub proof fn lemma_filter_all_above(s: Seq<CandidateView>, t: u64)
    ensures
        all_above(filter_above(s, t), t),
    decreases s.len(),
{
    if s.len() > 0 {
        lemma_filter_all_above(s.drop_last(), t);
    }
}

proof fn lemma_sort_all_above(s: Seq<CandidateView>, t: u64)
    requires
        all_above(s, t),
    ensures
        all_above(sort_desc(s), t),
{
    lemma_sort_len(s);
    assert forall|i: int| 0 <= i < sort_desc(s).len() implies sort_desc(s)[i].similarity > t by {
        lemma_sort_members(s, i);
    }
}

/// Filtering a sequence already strictly above the threshold changes nothing.
proof fn lemma_filter_id(s: Seq<CandidateView>, t: u64)
    requires
        all_above(s, t),
    ensures
        filter_above(s, t) == s,
    decreases s.len(),
{
    if s.len() > 0 {
        assert(all_above(s.drop_last(), t));
        lemma_filter_id(s.drop_last(), t);
        assert(filter_above(s, t) =~= s);
    } else {
        assert(filter_above(s, t) =~= s);
    }
}

/// Inserting an entry that no present entry scores below appends it.
proof fn lemma_insert_at_end(s: Seq<CandidateView>, c: CandidateView)
    requires
        forall|i: int| 0 <= i < s.len() ==> s[i].similarity >= c.similarity,
    ensures
        insert_desc(s, c) == s.push(c),
    decreases s.len(),
{
    if s.len() == 0 {
        assert(insert_desc(s, c) =~= s.push(c));
    } else {
        lemma_insert_at_end(s.drop_first(), c);
        assert(insert_desc(s, c) =~= s.push(c));
    }
}

/// Sorting a sequence already sorted descending changes nothing.
proof fn lemma_sort_of_sorted_id(s: Seq<CandidateView>)
    requires
        sorted_desc(s),
    ensures
        sort_desc(s) == s,
    decreases s.len(),
{
    if s.len() > 0 {
        assert(sorted_desc(s.drop_last()));
        lemma_sort_of_sorted_id(s.drop_last());
        lemma_insert_at_end(s.drop_last(), s.last());
        assert(sort_desc(s) =~= s);
    } else {
        assert(sort_desc(s) =~= s);
    }
}

/// Threshold-and-keep ranking is idempotent: ranking its own result with
/// the same threshold and the same keep count returns it unchanged.
pub proof fn lemma_rank_idempotent(s: Seq<CandidateView>, t: u64, k: nat)
    ensures
        rank_spec(rank_spec(s, t, k), t, k) == rank_spec(s, t, k),
{
    let f = filter_above(s, t);
    let so = sort_desc(f);
    let r = keep_k(so, k);
    lemma_filter_all_above(s, t);
    lemma_sort_all_above(f, t);
    lemma_sort_sorted(f);
    assert(all_above(r, t)) by {
        assert(forall|i: int| 0 <= i < r.len() ==> r[i] == so[i]);
    }
    assert(sorted_desc(r)) by {
        assert(forall|i: int| 0 <= i < r.len() ==> r[i] == so[i]);
    }
    lemma_filter_id(r, t);
    lemma_sort_of_sorted_id(r);
    assert(keep_k(r, k) == r);
}

/// Each entry of the filtered sequence is an entry of the original.
pub proof fn lemma_filter_members(s: Seq<CandidateView>, t: u64, i: int)
    requires
        0 <= i < filter_above(s, t).len(),
    ensures
        exists|j: int| 0 <= j < s.len() && filter_above(s, t)[i] == s[j],
    decreases s.len(),
{
    if s.len() > 0 {
        let sub = filter_above(s.drop_last(), t);
        if s.last().similarity > t && i == filter_above(s, t).len() - 1 {
            assert(filter_above(s, t)[i] == s[s.len() - 1]);
        } else {
            assert(filter_above(s, t)[i] == sub[i]);
            lemma_filter_members(s.drop_last(), t, i);
            let j = choose|j: int| 0 <= j < s.drop_last().len() && sub[i] == s.drop_last()[j];
            assert(s.drop_last()[j] == s[j]);
        }
    }
}

/// Ranking invents nothing: each entry of the ranked result is an entry of
/// the input.
pub proof fn lemma_rank_members(s: Seq<CandidateView>, t: u64, k: nat, i: int)
    requires
        0 <= i < rank_spec(s, t, k).len(),
    ensures
        exists|j: int| 0 <= j < s.len() && rank_spec(s, t, k)[i] == s[j],
{
    let f = filter_above(s, t);
    let so = sort_desc(f);
    assert(rank_spec(s, t, k)[i] == so[i]);
    lemma_sort_members(f, i);
    let j = choose|j: int| 0 <= j < f.len() && so[i] == f[j];
    lemma_filter_members(s, t, j);
}

/// Admission is monotone in the threshold: every candidate admitted at a
/// stricter threshold is admitted at any looser one.
pub proof fn lemma_admission_monotone(s: Seq<CandidateView>, strict: u64, loose: u64)
    requires
        loose <= strict,
    ensures
        forall|c: CandidateView| #[trigger] filter_above(s, strict).contains(c) ==> filter_above(
            s,
            loose,
        ).contains(c),
    decreases s.len(),
{
    if s.len() > 0 {
        lemma_admission_monotone(s.drop_last(), strict, loose);
        let fstrict_sub = filter_above(s.drop_last(), strict);
        let floose_sub = filter_above(s.drop_last(), loose);
        let floose = filter_above(s, loose);
        assert forall|c: CandidateView| #[trigger] filter_above(s, strict).contains(c) implies floose.contains(
            c,
        ) by {
            let fstrict = filter_above(s, strict);
            let i = choose|i: int| 0 <= i < fstrict.len() && fstrict[i] == c;
            if s.last().similarity > strict && i == fstrict.len() - 1 {
                assert(c == s.last());
                assert(floose == floose_sub.push(s.last()));
                assert(floose[floose.len() - 1] == c);
            } else {
                assert(fstrict_sub[i] == c);
                assert(fstrict_sub.contains(c));
                assert(floose_sub.contains(c));
                let j = choose|j: int| 0 <= j < floose_sub.len() && floose_sub[j] == c;
                assert(floose[j] == c);
            }
        }
    }
}

/// The position where stable descending insertion puts an entry: behind
/// every entry scoring at least as much, before the first scoring less.
proof fn lemma_insert_at(s: Seq<CandidateView>, c: CandidateView, j: int)
    requires
        0 <= j <= s.len(),
        forall|i: int| 0 <= i < j ==> s[i].similarity >= c.similarity,
        j < s.len() ==> s[j].similarity < c.similarity,
    ensures
        insert_desc(s, c) == s.insert(j, c),
    decreases s.len(),
{
    if s.len() == 0 {
        assert(insert_desc(s, c) =~= s.insert(0, c));
    } else if j == 0 {
        assert(insert_desc(s, c) =~= s.insert(0, c));
    } else {
        assert(s[0].similarity >= c.similarity);
        lemma_insert_at(s.drop_first(), c, j - 1);
        assert(insert_desc(s, c) =~= s.insert(j, c));
    }
}

/// How many entries score strictly above the value.
pub open spec fn count_above(s: Seq<CandidateView>, v: u64) -> nat {
    filter_above(s, v).len()
}

/// How many entries score exactly the value.
pub open spec fn count_eq(s: Seq<CandidateView>, v: u64) -> nat
    decreases s.len(),
{
    if s.len() == 0 {
        0
    } else {
        count_eq(s.drop_last(), v) + (if s.last().similarity == v {
            1nat
        } else {
            0nat
        })
    }
}

/// No two entries share a score.
pub open spec fn distinct_sims(s: Seq<CandidateView>) -> bool {
    forall|i: int, j: int| 0 <= i < j < s.len() ==> s[i].similarity != s[j].similarity
}

/// Filtering splits over joined sequences.
pub proof fn lemma_filter_append(a: Seq<CandidateView>, b: Seq<CandidateView>, t: u64)
    ensures
        filter_above(a + b, t) == filter_above(a, t) + filter_above(b, t),
    decreases b.len(),
{
    if b.len() == 0 {
        assert(a + b =~= a);
        assert(filter_above(a, t) + filter_above(b, t) =~= filter_above(a, t));
    } else {
        lemma_filter_append(a, b.drop_last(), t);
        assert((a + b).drop_last() =~= a + b.drop_last());
        assert((a + b).last() == b.last());
        assert(filter_above(a + b, t) =~= filter_above(a, t) + filter_above(b, t));
    }
}

/// Exact-score counting splits over joined sequences.
pub proof fn lemma_count_eq_append(a: Seq<CandidateView>, b: Seq<CandidateView>, v: u64)
    ensures
        count_eq(a + b, v) == count_eq(a, v) + count_eq(b, v),
    decreases b.len(),
{
    if b.len() == 0 {
        assert(a + b =~= a);
    } else {
        lemma_count_eq_append(a, b.drop_last(), v);
        assert((a + b).drop_last() =~= a + b.drop_last());
        assert((a + b).last() == b.last());
    }
}

/// Insertion adds one to the count exactly when the new entry clears the
/// value.
proof fn lemma_count_insert(s: Seq<CandidateView>, c: CandidateView, v: u64)
    ensures
        count_above(insert_desc(s, c), v) == count_above(s, v) + (if c.similarity > v {
            1nat
        } else {
            0nat
        }),
    decreases s.len(),
{
    if s.len() == 0 {
        assert(insert_desc(s, c) == seq![c]);
        assert(filter_above(seq![c], v).len() == (if c.similarity > v {
            1nat
        } else {
            0nat
        })) by {
            assert(seq![c].drop_last() =~= Seq::<CandidateView>::empty());
            assert(filter_above(Seq::<CandidateView>::empty(), v) =~= Seq::<CandidateView>::empty());
            assert(seq![c].last() == c);
        }
        assert(count_above(s, v) == 0);
    } else if s.first().similarity >= c.similarity {
        lemma_count_insert(s.drop_first(), c, v);
        assert(insert_desc(s, c) == seq![s.first()] + insert_desc(s.drop_first(), c));
        lemma_filter_append(seq![s.first()], insert_desc(s.drop_first(), c), v);
        lemma_filter_append(seq![s.first()], s.drop_first(), v);
        assert(seq![s.first()] + s.drop_first() =~= s);
    } else {
        assert(insert_desc(s, c) == seq![c] + s);
        lemma_filter_append(seq![c], s, v);
        assert(filter_above(seq![c], v).len() == (if c.similarity > v {
            1nat
        } else {
            0nat
        })) by {
            assert(seq![c].drop_last() =~= Seq::<CandidateView>::empty());
            assert(filter_above(Seq::<CandidateView>::empty(), v) =~= Seq::<CandidateView>::empty());
            assert(seq![c].last() == c);
        }
    }
}

proof fn lemma_count_eq_insert(s: Seq<CandidateView>, c: CandidateView, v: u64)
    ensures
        count_eq(insert_desc(s, c), v) == count_eq(s, v) + (if c.similarity == v {
            1nat
        } else {
            0nat
        }),
    decreases s.len(),
{
    if s.len() == 0 {
        assert(insert_desc(s, c) == seq![c]);
        assert(seq![c].drop_last() =~= Seq::<CandidateView>::empty());
        assert(count_eq(Seq::<CandidateView>::empty(), v) == 0);
        assert(seq![c].last() == c);
    } else if s.first().similarity >= c.similarity {
        lemma_count_eq_insert(s.drop_first(), c, v);
        assert(insert_desc(s, c) == seq![s.first()] + insert_desc(s.drop_first(), c));
        lemma_count_eq_append(seq![s.first()], insert_desc(s.drop_first(), c), v);
        lemma_count_eq_append(seq![s.first()], s.drop_first(), v);
        assert(seq![s.first()] + s.drop_first() =~= s);
    } else {
        assert(insert_desc(s, c) == seq![c] + s);
        lemma_count_eq_append(seq![c], s, v);
        assert(seq![c].drop_last() =~= Seq::<CandidateView>::empty());
        assert(count_eq(Seq::<CandidateView>::empty(), v) == 0);
        assert(seq![c].last() == c);
    }
}

/// Sorting changes no count.
proof fn lemma_count_sort(s: Seq<CandidateView>, v: u64)
    ensures
        count_above(sort_desc(s), v) == count_above(s, v),
    decreases s.len(),
{
    if s.len() > 0 {
        lemma_count_sort(s.drop_last(), v);
        lemma_count_insert(sort_desc(s.drop_last()), s.last(), v);
    }
}

proof fn lemma_count_eq_sort(s: Seq<CandidateView>, v: u64)
    ensures
        count_eq(sort_desc(s), v) == count_eq(s, v),
    decreases s.len(),
{
    if s.len() > 0 {
        lemma_count_eq_sort(s.drop_last(), v);
        lemma_count_eq_insert(sort_desc(s.drop_last()), s.last(), v);
    }
}

/// A prefix counts no more than the whole.
proof fn lemma_count_take(s: Seq<CandidateView>, k: int, v: u64)
    requires
        0 <= k <= s.len(),
    ensures
        count_above(s.take(k), v) <= count_above(s, v),
{
    assert(s.take(k) + s.skip(k) =~= s);
    lemma_filter_append(s.take(k), s.skip(k), v);
}

proof fn lemma_count_eq_take(s: Seq<CandidateView>, k: int, v: u64)
    requires
        0 <= k <= s.len(),
    ensures
        count_eq(s.take(k), v) <= count_eq(s, v),
{
    assert(s.take(k) + s.skip(k) =~= s);
    lemma_count_eq_append(s.take(k), s.skip(k), v);
}

/// Thresholding drops nothing that a higher bar would keep: above a value
/// at least the threshold, the filtered sequence counts like the original.
proof fn lemma_count_filter(s: Seq<CandidateView>, t: u64, v: u64)
    ensures
        count_above(filter_above(s, t), v) <= count_above(s, v),
        v >= t ==> count_above(filter_above(s, t), v) == count_above(s, v),
    decreases s.len(),
{
    if s.len() > 0 {
        lemma_count_filter(s.drop_last(), t, v);
        if s.last().similarity > t {
            assert(filter_above(s, t).drop_last() =~= filter_above(s.drop_last(), t));
            assert(filter_above(s, t).last() == s.last());
        }
    }
}

proof fn lemma_count_eq_filter(s: Seq<CandidateView>, t: u64, v: u64)
    ensures
        count_eq(filter_above(s, t), v) <= count_eq(s, v),
    decreases s.len(),
{
    if s.len() > 0 {
        lemma_count_eq_filter(s.drop_last(), t, v);
        if s.last().similarity > t {
            assert(filter_above(s, t).drop_last() =~= filter_above(s.drop_last(), t));
            assert(filter_above(s, t).last() == s.last());
        }
    }
}

/// Some entry carries every counted score.
proof fn lemma_count_eq_pos(s: Seq<CandidateView>, v: u64)
    requires
        count_eq(s, v) >= 1,
    ensures
        exists|i: int| 0 <= i < s.len() && s[i].similarity == v,
    decreases s.len(),
{
    if s.len() > 0 {
        if s.last().similarity == v {
            assert(s[s.len() - 1].similarity == v);
        } else {
            lemma_count_eq_pos(s.drop_last(), v);
            let i = choose|i: int| 0 <= i < s.drop_last().len() && s.drop_last()[i].similarity == v;
            assert(s[i].similarity == v);
        }
    }
}

/// An entry's score is counted at least once.
proof fn lemma_count_eq_at_least_one(s: Seq<CandidateView>, i: int)
    requires
        0 <= i < s.len(),
    ensures
        count_eq(s, s[i].similarity) >= 1,
    decreases s.len(),
{
    if i == s.len() - 1 {
    } else {
        lemma_count_eq_at_least_one(s.drop_last(), i);
        assert(s.drop_last()[i] == s[i]);
    }
}

/// Two entries of one score are counted at least twice.
proof fn lemma_count_eq_at_least_two(s: Seq<CandidateView>, i: int, j: int)
    requires
        0 <= i < j < s.len(),
        s[i].similarity == s[j].similarity,
    ensures
        count_eq(s, s[i].similarity) >= 2,
    decreases s.len(),
{
    if j == s.len() - 1 {
        lemma_count_eq_at_least_one(s.drop_last(), i);
        assert(s.drop_last()[i] == s[i]);
    } else {
        lemma_count_eq_at_least_two(s.drop_last(), i, j);
        assert(s.drop_last()[i] == s[i]);
    }
}

/// Scores are pairwise distinct exactly when no score is counted twice.
pub proof fn lemma_count_eq_distinct(s: Seq<CandidateView>)
    requires
        forall|v: u64| count_eq(s, v) <= 1,
    ensures
        distinct_sims(s),
{
    assert forall|i: int, j: int| 0 <= i < j < s.len() implies s[i].similarity
        != s[j].similarity by {
        if s[i].similarity == s[j].similarity {
            lemma_count_eq_at_least_two(s, i, j);
        }
    }
}

pub proof fn lemma_distinct_count_eq(s: Seq<CandidateView>, v: u64)
    requires
        distinct_sims(s),
    ensures
        count_eq(s, v) <= 1,
    decreases s.len(),
{
    if s.len() > 0 {
        assert(distinct_sims(s.drop_last())) by {
            assert(forall|i: int|
                0 <= i < s.drop_last().len() ==> s.drop_last()[i] == s[i]);
        }
        lemma_distinct_count_eq(s.drop_last(), v);
        if s.last().similarity == v && count_eq(s.drop_last(), v) >= 1 {
            lemma_count_eq_pos(s.drop_last(), v);
            let i = choose|i: int| 0 <= i < s.drop_last().len() && s.drop_last()[i].similarity == v;
            assert(s[i].similarity == s[s.len() - 1].similarity);
        }
    }
}

/// Every entry above the threshold stands in the filtered sequence.
proof fn lemma_filter_complete(s: Seq<CandidateView>, t: u64, i: int)
    requires
        0 <= i < s.len(),
        s[i].similarity > t,
    ensures
        exists|j: int| 0 <= j < filter_above(s, t).len() && filter_above(s, t)[j] == s[i],
    decreases s.len(),
{
    if i == s.len() - 1 {
        let f = filter_above(s, t);
        assert(f[f.len() - 1] == s[i]);
    } else {
        lemma_filter_complete(s.drop_last(), t, i);
        assert(s.drop_last()[i] == s[i]);
        let f = filter_above(s.drop_last(), t);
        let j = choose|j: int| 0 <= j < f.len() && f[j] == s[i];
        if s.last().similarity > t {
            assert(filter_above(s, t)[j] == s[i]);
        } else {
            assert(filter_above(s, t)[j] == s[i]);
        }
    }
}

/// Every entry survives insertion.
proof fn lemma_insert_complete(s: Seq<CandidateView>, c: CandidateView, i: int)
    requires
        0 <= i < s.len(),
    ensures
        exists|j: int| 0 <= j < insert_desc(s, c).len() && insert_desc(s, c)[j] == s[i],
    decreases s.len(),
{
    lemma_insert_len(s, c);
    if s.len() == 0 {
    } else if s.first().similarity >= c.similarity {
        if i == 0 {
            assert(insert_desc(s, c)[0] == s[0]);
        } else {
            lemma_insert_complete(s.drop_first(), c, i - 1);
            let j = choose|j: int|
                0 <= j < insert_desc(s.drop_first(), c).len() && insert_desc(s.drop_first(), c)[j]
                    == s.drop_first()[i - 1];
            assert(insert_desc(s, c)[j + 1] == s[i]);
        }
    } else {
        assert(insert_desc(s, c)[i + 1] == s[i]);
    }
}

/// The inserted entry stands in the result.
proof fn lemma_insert_holds(s: Seq<CandidateView>, c: CandidateView)
    ensures
        exists|j: int| 0 <= j < insert_desc(s, c).len() && insert_desc(s, c)[j] == c,
    decreases s.len(),
{
    lemma_insert_len(s, c);
    if s.len() == 0 {
        assert(insert_desc(s, c)[0] == c);
    } else if s.first().similarity >= c.similarity {
        lemma_insert_holds(s.drop_first(), c);
        let j = choose|j: int|
            0 <= j < insert_desc(s.drop_first(), c).len() && insert_desc(s.drop_first(), c)[j] == c;
        assert(insert_desc(s, c)[j + 1] == c);
    } else {
        assert(insert_desc(s, c)[0] == c);
    }
}

/// Every entry survives sorting.
proof fn lemma_sort_complete(s: Seq<CandidateView>, i: int)
    requires
        0 <= i < s.len(),
    ensures
        exists|j: int| 0 <= j < sort_desc(s).len() && sort_desc(s)[j] == s[i],
    decreases s.len(),
{
    if i == s.len() - 1 {
        lemma_insert_holds(sort_desc(s.drop_last()), s.last());
        assert(sort_desc(s) == insert_desc(sort_desc(s.drop_last()), s.last()));
        assert(s.last() == s[i]);
    } else {
        lemma_sort_complete(s.drop_last(), i);
        assert(s.drop_last()[i] == s[i]);
        let j = choose|j: int|
            0 <= j < sort_desc(s.drop_last()).len() && sort_desc(s.drop_last())[j] == s[i];
        lemma_insert_complete(sort_desc(s.drop_last()), s.last(), j);
        let j2 = choose|j2: int|
            0 <= j2 < insert_desc(sort_desc(s.drop_last()), s.last()).len() && insert_desc(
                sort_desc(s.drop_last()),
                s.last(),
            )[j2] == sort_desc(s.drop_last())[j];
        assert(sort_desc(s)[j2] == s[i]);
    }
}

/// Under the stated prefix shape the filter is exactly that prefix.
proof fn lemma_filter_prefix(s: Seq<CandidateView>, v: u64, m: int)
    requires
        0 <= m <= s.len(),
        forall|j: int| 0 <= j < m ==> s[j].similarity > v,
        forall|j: int| m <= j < s.len() ==> !(s[j].similarity > v),
    ensures
        filter_above(s, v) == s.take(m),
    decreases s.len(),
{
    if s.len() == 0 {
        assert(filter_above(s, v) =~= s.take(m));
    } else if m == s.len() {
        lemma_filter_prefix(s.drop_last(), v, m - 1);
        assert(filter_above(s, v) =~= s.take(m));
    } else {
        lemma_filter_prefix(s.drop_last(), v, m);
        assert(filter_above(s, v) =~= s.take(m));
    }
}

/// In a descending sequence of pairwise distinct scores, an entry's
/// position is exactly how many entries score above it.
proof fn lemma_sorted_index_count(s: Seq<CandidateView>, i: int)
    requires
        sorted_desc(s),
        distinct_sims(s),
        0 <= i < s.len(),
    ensures
        count_above(s, s[i].similarity) == i,
{
    assert forall|j: int| 0 <= j < i implies s[j].similarity > s[i].similarity by {
        assert(s[j].similarity >= s[i].similarity);
    }
    lemma_filter_prefix(s, s[i].similarity, i);
}

/// Distinctness carries over to the filtered sequence.
proof fn lemma_distinct_filter(s: Seq<CandidateView>, t: u64)
    requires
        distinct_sims(s),
    ensures
        distinct_sims(filter_above(s, t)),
{
    assert forall|v: u64| count_eq(filter_above(s, t), v) <= 1 by {
        lemma_count_eq_filter(s, t, v);
        lemma_distinct_count_eq(s, v);
    }
    lemma_count_eq_distinct(filter_above(s, t));
}

/// Distinctness carries over to the sorted sequence.
proof fn lemma_distinct_sort(s: Seq<CandidateView>)
    requires
        distinct_sims(s),
    ensures
        distinct_sims(sort_desc(s)),
{
    assert forall|v: u64| count_eq(sort_desc(s), v) <= 1 by {
        lemma_count_eq_sort(s, v);
        lemma_distinct_count_eq(s, v);
    }
    lemma_count_eq_distinct(sort_desc(s));
}

/// Ranking loses nothing that fits: when scores are pairwise distinct, an
/// entry above the threshold with fewer than `keep` entries scoring above
/// it stands in the ranked result.
pub proof fn lemma_rank_complete(s: Seq<CandidateView>, t: u64, k: nat, i: int)
    requires
        distinct_sims(s),
        0 <= i < s.len(),
        s[i].similarity > t,
        count_above(s, s[i].similarity) < k,
    ensures
        exists|j: int| 0 <= j < rank_spec(s, t, k).len() && rank_spec(s, t, k)[j] == s[i],
{
    let x = s[i];
    let f = filter_above(s, t);
    let so = sort_desc(f);
    lemma_filter_complete(s, t, i);
    let a0 = choose|a0: int| 0 <= a0 < f.len() && f[a0] == x;
    lemma_sort_complete(f, a0);
    let a = choose|a: int| 0 <= a < so.len() && so[a] == f[a0];
    lemma_distinct_filter(s, t);
    lemma_distinct_sort(f);
    lemma_sort_sorted(f);
    lemma_sorted_index_count(so, a);
    lemma_count_sort(f, x.similarity);
    lemma_count_filter(s, t, x.similarity);
    assert(a == count_above(s, x.similarity));
    lemma_sort_len(f);
    assert(rank_spec(s, t, k)[a] == x);
}

/// Raising the bar can only shrink the count.
pub proof fn lemma_count_anti_monotone(s: Seq<CandidateView>, v1: u64, v2: u64)
    requires
        v1 <= v2,
    ensures
        count_above(s, v2) <= count_above(s, v1),
    decreases s.len(),
{
    if s.len() > 0 {
        lemma_count_anti_monotone(s.drop_last(), v1, v2);
    }
}

/// Removing one entry lowers the count by that entry's own contribution.
proof fn lemma_count_remove(s: Seq<CandidateView>, p: int, v: u64)
    requires
        0 <= p < s.len(),
    ensures
        count_above(s.remove(p), v) + (if s[p].similarity > v {
            1nat
        } else {
            0nat
        }) == count_above(s, v),
{
    assert(s =~= s.take(p) + s.skip(p));
    lemma_filter_append(s.take(p), s.skip(p), v);
    assert(s.skip(p) =~= seq![s[p]] + s.skip(p + 1));
    lemma_filter_append(seq![s[p]], s.skip(p + 1), v);
    assert(filter_above(seq![s[p]], v).len() == (if s[p].similarity > v {
        1nat
    } else {
        0nat
    })) by {
        assert(seq![s[p]].drop_last() =~= Seq::<CandidateView>::empty());
        assert(filter_above(Seq::<CandidateView>::empty(), v) =~= Seq::<CandidateView>::empty());
        assert(seq![s[p]].last() == s[p]);
    }
    assert(s.remove(p) =~= s.take(p) + s.skip(p + 1));
    lemma_filter_append(s.take(p), s.skip(p + 1), v);
}

/// A family of entries with pairwise distinct scores, each above the bar
/// and each present in a sequence, keeps that sequence's count at the bar
/// at least as large as the family.
pub proof fn lemma_distinct_members_count(
    a: Seq<CandidateView>,
    b: Seq<CandidateView>,
    v: u64,
)
    requires
        distinct_sims(a),
        forall|l: int| 0 <= l < a.len() ==> a[l].similarity > v,
        forall|l: int|
            0 <= l < a.len() ==> exists|q: int| 0 <= q < b.len() && b[q] == #[trigger] a[l],
    ensures
        count_above(b, v) >= a.len(),
    decreases a.len(),
{
    if a.len() > 0 {
        let x = a.last();
        assert(exists|q: int| 0 <= q < b.len() && b[q] == x) by {
            assert(a[a.len() - 1] == x);
        }
        let q = choose|q: int| 0 <= q < b.len() && b[q] == x;
        lemma_count_remove(b, q, v);
        let b2 = b.remove(q);
        let a2 = a.drop_last();
        assert(distinct_sims(a2)) by {
            assert(forall|l: int| 0 <= l < a2.len() ==> a2[l] == a[l]);
        }
        assert forall|l: int|
            0 <= l < a2.len() implies exists|q2: int| 0 <= q2 < b2.len() && b2[q2] == #[trigger] a2[l] by {
            assert(a2[l] == a[l]);
            let ql = choose|ql: int| 0 <= ql < b.len() && b[ql] == a[l];
            // the removed entry scores like the last of the family, so the
            // witness cannot be it
            assert(ql != q) by {
                if ql == q {
                    assert(a[l].similarity == x.similarity);
                    assert(a[l].similarity != a[a.len() - 1].similarity);
                }
            }
            if ql < q {
                assert(b2[ql] == b[ql]);
            } else {
                assert(b2[ql - 1] == b[ql]);
            }
        }
        lemma_distinct_members_count(a2, b2, v);
    }
}

/// The ranked result's length: the keep count, unless fewer entries clear
/// the threshold.
pub proof fn lemma_rank_len(s: Seq<CandidateView>, t: u64, k: nat)
    ensures
        rank_spec(s, t, k).len() == (if count_above(s, t) <= k {
            count_above(s, t)
        } else {
            k
        }),
{
    lemma_sort_len(filter_above(s, t));
}

/// Distinctness carries over to the ranked result.
pub proof fn lemma_distinct_rank(s: Seq<CandidateView>, t: u64, k: nat)
    requires
        distinct_sims(s),
    ensures
        distinct_sims(rank_spec(s, t, k)),
{
    assert forall|v: u64| count_eq(rank_spec(s, t, k), v) <= 1 by {
        lemma_count_rank(s, t, k, v);
        lemma_distinct_count_eq(s, v);
    }
    lemma_count_eq_distinct(rank_spec(s, t, k));
}

/// What standing at position i of a ranked result means when scores are
/// pairwise distinct: the entry clears the threshold, exactly i entries of
/// the input score above it, the position fits the keep count, and the
/// entry comes from the input.
pub proof fn lemma_rank_entry(s: Seq<CandidateView>, t: u64, k: nat, i: int)
    requires
        distinct_sims(s),
        0 <= i < rank_spec(s, t, k).len(),
    ensures
        rank_spec(s, t, k)[i].similarity > t,
        count_above(s, rank_spec(s, t, k)[i].similarity) == i,
        i < k,
        exists|w: int| 0 <= w < s.len() && rank_spec(s, t, k)[i] == s[w],
{
    let f = filter_above(s, t);
    let so = sort_desc(f);
    let r = rank_spec(s, t, k);
    lemma_sort_len(f);
    assert(r[i] == so[i]);
    lemma_filter_all_above(s, t);
    lemma_sort_all_above(f, t);
    assert(so[i].similarity > t);
    lemma_distinct_filter(s, t);
    lemma_distinct_sort(f);
    lemma_sort_sorted(f);
    lemma_sorted_index_count(so, i);
    lemma_count_sort(f, so[i].similarity);
    lemma_count_filter(s, t, so[i].similarity);
    lemma_rank_members(s, t, k, i);
}

/// Counting within a ranked result never tops counting within its input.
pub proof fn lemma_count_rank(s: Seq<CandidateView>, t: u64, k: nat, v: u64)
    ensures
        count_above(rank_spec(s, t, k), v) <= count_above(s, v),
        count_eq(rank_spec(s, t, k), v) <= count_eq(s, v),
{
    let f = filter_above(s, t);
    let so = sort_desc(f);
    lemma_sort_len(f);
    let r = rank_spec(s, t, k);
    if so.len() <= k {
        assert(r == so);
    } else {
        assert(r == so.take(k as int));
        lemma_count_take(so, k as int, v);
        lemma_count_eq_take(so, k as int, v);
    }
    lemma_count_sort(f, v);
    lemma_count_eq_sort(f, v);
    lemma_count_filter(s, t, v);
    lemma_count_eq_filter(s, t, v);
}

impl Candidate {
    /// An exact copy, field for field.
    pub fn duplicate(&self) -> (r: Candidate)
        ensures
            r@ == self@,
    {
        Candidate {
            text: self.text.clone(),
            similarity: self.similarity,
            file_found: self.file_found.clone(),
        }
    }
}

/// Stable descending sort of the candidates by score; ties keep their
/// first-seen order.
pub fn sort_candidates(input: Vec<Candidate>) -> (r: Vec<Candidate>)
    ensures
        r.deep_view() == sort_desc(input.deep_view()),
{
    let ghost orig = input.deep_view();
    let mut rest = input;
    let mut out: Vec<Candidate> = Vec::new();
    let mut taken: usize = 0;
    proof {
        assert(rest.len() == orig.len());
    }
    while rest.len() > 0
        invariant
            orig.len() <= usize::MAX,
            taken + rest.len() == orig.len(),
            rest.deep_view() == orig.skip(taken as int),
            out.deep_view() == sort_desc(orig.take(taken as int)),
        decreases rest.len(),
    {
        let ghost pre = rest.deep_view();
        let c = rest.remove(0);
        proof {
            assert(c.deep_view() == pre[0]);
            assert(pre[0] == orig.skip(taken as int)[0]);
            assert(rest.deep_view() =~= pre.drop_first());
            assert(pre.drop_first() =~= orig.skip(taken + 1 as int));
        }
        let ghost sofar = out.deep_view();
        let mut j: usize = 0;
        while j < out.len() && out[j].similarity >= c.similarity
            invariant
                j <= out@.len(),
                out.deep_view() == sofar,
                forall|i: int| 0 <= i < j ==> sofar[i].similarity >= c@.similarity,
            decreases out@.len() - j,
        {
            j += 1;
        }
        out.insert(j, c);
        proof {
            lemma_insert_at(sofar, c@, j as int);
            assert(out.deep_view() =~= sofar.insert(j as int, c@));
            assert(orig.take(taken + 1 as int).drop_last() =~= orig.take(taken as int));
            assert(orig.take(taken + 1 as int).last() == orig[taken as int]);
        }
        taken += 1;
    }
    proof {
        assert(orig.take(taken as int) =~= orig);
    }
    out
}

/// Threshold-and-keep ranking: keeps the candidates scoring strictly above
/// the sensitivity, sorts them descending with first-seen tie order, and
/// returns at most `keep` of them. A keep count of zero always yields the
/// empty sequence; this primitive itself never fails.
pub fn rank_and_keep(candidates: Vec<Candidate>, sens: &Sens, keep: usize) -> (r: Vec<Candidate>)
    ensures
        r.deep_view() == rank_spec(candidates.deep_view(), sens.0, keep as nat),
        r@.len() <= keep,
        keep == 0 ==> r@.len() == 0,
{
    let ghost orig = candidates.deep_view();
    let mut rest = candidates;
    let mut kept: Vec<Candidate> = Vec::new();
    let mut taken: usize = 0;
    proof {
        assert(rest.len() == orig.len());
    }
    while rest.len() > 0
        invariant
            orig.len() <= usize::MAX,
            taken + rest.len() == orig.len(),
            rest.deep_view() == orig.skip(taken as int),
            kept.deep_view() == filter_above(orig.take(taken as int), sens.0),
        decreases rest.len(),
    {
        let ghost pre = rest.deep_view();
        let ghost sofar = kept.deep_view();
        let c = rest.remove(0);
        proof {
            assert(c.deep_view() == pre[0]);
            assert(pre[0] == orig.skip(taken as int)[0]);
            assert(rest.deep_view() =~= pre.drop_first());
            assert(pre.drop_first() =~= orig.skip(taken + 1 as int));
            assert(orig.take(taken + 1 as int).drop_last() =~= orig.take(taken as int));
            assert(orig.take(taken + 1 as int).last() == orig[taken as int]);
        }
        if c.similarity > sens.0 {
            kept.push(c);
            proof {
                assert(kept.deep_view() =~= sofar.push(c@));
            }
        }
        taken += 1;
    }
    proof {
        assert(orig.take(taken as int) =~= orig);
    }
    let mut sorted = sort_candidates(kept);
    proof {
        lemma_sort_len(filter_above(orig, sens.0));
    }
    sorted.truncate(keep);
    proof {
        let so = sort_desc(filter_above(orig, sens.0));
        if so.len() > keep {
            assert(sorted.deep_view() =~= keep_k(so, keep as nat));
        } else {
            assert(sorted.deep_view() =~= keep_k(so, keep as nat));
        }
    }
    sorted
}

/// Sorts in place, descending and stable, and hands back a copy of the top
/// `num_to_keep`; an empty input is the one failure, `NotFound`.
pub fn try_sort_and_keep(values: &mut Vec<Candidate>, num_to_keep: usize) -> (r: SimResult)
    ensures
        old(values)@.len() == 0 ==> (r matches Err(e) && e is NotFound) && final(values)@
            == old(values)@,
        old(values)@.len() > 0 ==> final(values).deep_view() == sort_desc(old(values).deep_view())
            && (r matches Ok(v) && v.deep_view() == keep_k(
            sort_desc(old(values).deep_view()),
            num_to_keep as nat,
        )),
{
    if values.len() == 0 {
        return Err(Error::NotFound);
    }
    let mut owned: Vec<Candidate> = Vec::new();
    core::mem::swap(&mut owned, values);
    let sorted = sort_candidates(owned);
    *values = sorted;
    proof {
        lemma_sort_len(old(values).deep_view());
    }
    let mut res: Vec<Candidate> = Vec::new();
    let stop: usize = if num_to_keep < values.len() {
        num_to_keep
    } else {
        values.len()
    };
    let mut i: usize = 0;
    while i < stop
        invariant
            i <= stop,
            stop == if num_to_keep < values@.len() {
                num_to_keep as int
            } else {
                values@.len() as int
            },
            values.deep_view() == sort_desc(old(values).deep_view()),
            res.deep_view() == values.deep_view().take(i as int),
        decreases stop - i,
    {
        let ghost sofar = res.deep_view();
        let c = values[i].duplicate();
        res.push(c);
        proof {
            assert(res.deep_view() =~= sofar.push(c@));
            assert(sofar.push(c@) =~= values.deep_view().take(i + 1 as int));
        }
        i += 1;
    }
    proof {
        assert(res.deep_view() =~= keep_k(values.deep_view(), num_to_keep as nat));
    }
    Ok(res)
}

} // verus!
