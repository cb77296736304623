use vstd::prelude::*;
use crate::candidate::{valid_sens, Candidate, CandidateView, Error, Sens};
use crate::matcher::{matches_spec, TextMatcher};
use crate::rank::{rank_and_keep, rank_spec};
use crate::score::MatchAlgo;

verus! {

// The corpus-wide search splits its input into independent parts, ranks each
// part alone, and merges the parts by ranking their union again. The
// functions here are the pure core of that fan-out/fan-in: a caller may run
// the parts in any order, or in parallel, and hand the per-part results back
// for the merge.

/// One named reference source held in memory: its lines are the candidate
/// texts.
pub struct ScopeFile {
    pub name: String,
    pub lines: Vec<String>,
}

/// The mathematical content of a source: its name and its lines.
pub ghost struct ScopeFileView {
    pub name: Seq<char>,
    pub lines: Seq<Seq<char>>,
}

impl View for ScopeFile {
    type V = ScopeFileView;

    open spec fn view(&self) -> ScopeFileView {
        ScopeFileView { name: self.name@, lines: self.lines.deep_view() }
    }
}

impl DeepView for ScopeFile {
    type V = ScopeFileView;

    open spec fn deep_view(&self) -> ScopeFileView {
        self@
    }
}

/// Contiguous chunks of the given size, in order; the last may be shorter.
pub open spec fn chunks_of(lines: Seq<Seq<char>>, cs: int) -> Seq<Seq<Seq<char>>>
    decreases lines.len() when cs >= 1
{
    if cs < 1 || lines.len() == 0 {
        Seq::empty()
    } else if lines.len() <= cs {
        seq![lines]
    } else {
        seq![lines.take(cs)] + chunks_of(lines.skip(cs), cs)
    }
}

/// All chunks joined back together, in order.
pub open spec fn flatten_chunks(chunks: Seq<Seq<Seq<char>>>) -> Seq<Seq<char>>
    decreases chunks.len(),
{
    if chunks.len() == 0 {
        Seq::empty()
    } else {
        flatten_chunks(chunks.drop_last()) + chunks.last()
    }
}

/// Splitting into chunks loses no line and keeps their order.
pub proof fn lemma_chunks_flatten(lines: Seq<Seq<char>>, cs: int)
    requires
        cs >= 1,
    ensures
        flatten_chunks(chunks_of(lines, cs)) == lines,
    decreases lines.len(),
{
    if lines.len() == 0 {
        assert(flatten_chunks(chunks_of(lines, cs)) =~= lines);
    } else if lines.len() <= cs {
        let c = chunks_of(lines, cs);
        assert(c == seq![lines]);
        assert(c.drop_last() =~= Seq::<Seq<Seq<char>>>::empty());
        assert(c.last() == lines);
        assert(flatten_chunks(c.drop_last()) =~= Seq::<Seq<char>>::empty());
        assert(flatten_chunks(c) =~= lines);
    } else {
        lemma_chunks_flatten(lines.skip(cs), cs);
        let c = chunks_of(lines, cs);
        let rest = chunks_of(lines.skip(cs), cs);
        assert(c == seq![lines.take(cs)] + rest);
        lemma_flatten_prepend(lines.take(cs), rest);
        assert(flatten_chunks(c) == lines.take(cs) + flatten_chunks(rest));
        assert(flatten_chunks(c) =~= lines.take(cs) + lines.skip(cs));
        assert(lines.take(cs) + lines.skip(cs) =~= lines);
    }
}

/// Flattening after putting one chunk in front prepends that chunk.
proof fn lemma_flatten_prepend(head: Seq<Seq<char>>, chunks: Seq<Seq<Seq<char>>>)
    ensures
        flatten_chunks(seq![head] + chunks) == head + flatten_chunks(chunks),
    decreases chunks.len(),
{
    if chunks.len() == 0 {
        assert(seq![head] + chunks =~= seq![head]);
        assert(seq![head].drop_last() =~= Seq::<Seq<Seq<char>>>::empty());
        assert(seq![head].last() == head);
        assert(flatten_chunks(Seq::<Seq<Seq<char>>>::empty()) =~= Seq::<Seq<char>>::empty());
        assert(flatten_chunks(seq![head] + chunks) =~= head + flatten_chunks(chunks));
    } else {
        lemma_flatten_prepend(head, chunks.drop_last());
        assert((seq![head] + chunks).drop_last() =~= seq![head] + chunks.drop_last());
        assert((seq![head] + chunks).last() == chunks.last());
        assert(flatten_chunks(seq![head] + chunks) =~= head + flatten_chunks(chunks));
    }
}

/// The chunk size the partitioner uses for the given worker count.
pub open spec fn chunk_size_spec(total: int, parts: int) -> int {
    total / parts + 1
}

/// Splits the lines into contiguous chunks, one batch of work per worker;
/// nothing is lost and nothing is reordered.
pub fn partition_lines(lines: Vec<String>, parts: usize) -> (r: Vec<Vec<String>>)
    requires
        parts >= 1,
        lines@.len() < usize::MAX,
    ensures
        r.deep_view() == chunks_of(
            lines.deep_view(),
            chunk_size_spec(lines.deep_view().len() as int, parts as int),
        ),
        flatten_chunks(r.deep_view()) == lines.deep_view(),
{
    let ghost orig = lines.deep_view();
    let total = lines.len();
    let cs: usize = total / parts + 1;
    let ghost gcs = chunk_size_spec(orig.len() as int, parts as int);
    proof {
        assert(cs == gcs);
    }
    let mut rest = lines;
    let mut r: Vec<Vec<String>> = Vec::new();
    let mut done: usize = 0;
    proof {
        assert(rest.len() == orig.len());
    }
    while rest.len() > 0
        invariant
            cs >= 1,
            cs == gcs,
            orig.len() <= usize::MAX,
            done + rest.len() == orig.len(),
            rest.deep_view() == orig.skip(done as int),
            r.deep_view() + chunks_of(rest.deep_view(), cs as int) =~= chunks_of(
                orig,
                cs as int,
            ),
        decreases rest.len(),
    {
        let take_n: usize = if rest.len() <= cs {
            rest.len()
        } else {
            cs
        };
        let ghost pre = rest.deep_view();
        let ghost rsofar = r.deep_view();
        let mut chunk: Vec<String> = Vec::new();
        let mut t: usize = 0;
        while t < take_n
            invariant
                t <= take_n <= rest@.len(),
                chunk.deep_view() == rest.deep_view().take(t as int),
                rest.deep_view() == pre,
            decreases take_n - t,
        {
            let ghost csofar = chunk.deep_view();
            let s = rest[t].clone();
            chunk.push(s);
            proof {
                assert(chunk.deep_view() =~= csofar.push(rest@[t as int].deep_view()));
                assert(chunk.deep_view() =~= rest.deep_view().take(t + 1 as int));
            }
            t += 1;
        }
        // drop the copied prefix from the remainder
        let mut t2: usize = 0;
        while t2 < take_n
            invariant
                t2 <= take_n,
                take_n <= pre.len(),
                rest.deep_view() == pre.skip(t2 as int),
            decreases take_n - t2,
        {
            let ghost rpre = rest.deep_view();
            let _ = rest.remove(0);
            proof {
                assert(rest.deep_view() =~= rpre.drop_first());
                assert(rpre.drop_first() =~= pre.skip(t2 + 1 as int));
            }
            t2 += 1;
        }
        r.push(chunk);
        proof {
            assert(r.deep_view() =~= rsofar.push(pre.take(take_n as int)));
            if pre.len() <= cs {
                assert(chunks_of(pre, cs as int) == seq![pre]);
                assert(pre.take(take_n as int) =~= pre);
                assert(rest.deep_view() =~= Seq::<Seq<char>>::empty());
                assert(chunks_of(rest.deep_view(), cs as int) =~= Seq::<Seq<Seq<char>>>::empty());
                assert(rsofar.push(pre) =~= rsofar + seq![pre]);
                assert(r.deep_view() + chunks_of(rest.deep_view(), cs as int) =~= chunks_of(
                    orig,
                    cs as int,
                ));
            } else {
                assert(chunks_of(pre, cs as int) == seq![pre.take(cs as int)] + chunks_of(
                    pre.skip(cs as int),
                    cs as int,
                ));
                assert(rest.deep_view() =~= pre.skip(cs as int));
                assert(rsofar.push(pre.take(take_n as int)) =~= rsofar + seq![pre.take(cs as int)]);
                assert(r.deep_view() + chunks_of(rest.deep_view(), cs as int) =~= chunks_of(
                    orig,
                    cs as int,
                ));
            }
        }
        done += take_n;
        proof {
            assert(rest.deep_view() =~= orig.skip(done as int));
        }
    }
    proof {
        assert(chunks_of(rest.deep_view(), cs as int) =~= Seq::<Seq<Seq<char>>>::empty());
        assert(r.deep_view() =~= chunks_of(orig, cs as int));
        lemma_chunks_flatten(orig, cs as int);
    }
    r
}

/// All per-part result sequences joined in part order.
pub open spec fn concat_results(parts: Seq<Seq<CandidateView>>) -> Seq<CandidateView>
    decreases parts.len(),
{
    if parts.len() == 0 {
        Seq::empty()
    } else {
        concat_results(parts.drop_last()) + parts.last()
    }
}

/// Merges per-part ranked results: their union ranked anew and cut to the
/// keep count. This is the fan-in step; it does not depend on the order in
/// which parts were produced beyond their given order at ties.
pub fn merge_ranked(parts: Vec<Vec<Candidate>>, sens: &Sens, keep: usize) -> (r: Vec<Candidate>)
    ensures
        r.deep_view() == rank_spec(concat_results(parts.deep_view()), sens.0, keep as nat),
{
    let ghost orig = parts.deep_view();
    let mut rest = parts;
    let mut merged: Vec<Candidate> = Vec::new();
    let mut taken: usize = 0;
    proof {
        assert(rest.len() == orig.len());
    }
    while rest.len() > 0
        invariant
            orig.len() <= usize::MAX,
            taken + rest.len() == orig.len(),
            rest.deep_view() == orig.skip(taken as int),
            merged.deep_view() == concat_results(orig.take(taken as int)),
        decreases rest.len(),
    {
        let ghost pre = rest.deep_view();
        let ghost msofar = merged.deep_view();
        let mut part = rest.remove(0);
        proof {
            assert(part.deep_view() == pre[0]);
            assert(pre[0] == orig.skip(taken as int)[0]);
            assert(rest.deep_view() =~= pre.drop_first());
            assert(pre.drop_first() =~= orig.skip(taken + 1 as int));
        }
        merged.append(&mut part);
        proof {
            assert(merged.deep_view() =~= msofar + orig[taken as int]);
            assert(orig.take(taken + 1 as int).drop_last() =~= orig.take(taken as int));
            assert(orig.take(taken + 1 as int).last() == orig[taken as int]);
        }
        taken += 1;
    }
    proof {
        assert(orig.take(taken as int) =~= orig);
    }
    rank_and_keep(merged, sens, keep)
}

/// The per-chunk ranked results of a partitioned single-source search, in
/// chunk order: each chunk's admitted lines, ranked and cut to the keep
/// count on their own.
pub open spec fn chunk_results_spec(
    chunks: Seq<Seq<Seq<char>>>,
    text: Seq<char>,
    t: u64,
    algo: MatchAlgo,
    tag: Seq<char>,
    keep: nat,
) -> Seq<Seq<CandidateView>>
    decreases chunks.len(),
{
    if chunks.len() == 0 {
        Seq::empty()
    } else {
        chunk_results_spec(chunks.drop_last(), text, t, algo, tag, keep).push(
            rank_spec(matches_spec(chunks.last(), text, t, algo, false, tag), t, keep),
        )
    }
}

/// A partitioned search over the chunks of one named source: every chunk is
/// scanned and ranked alone, the per-chunk results are merged and ranked
/// again. An out-of-range sensitivity is a configuration error.
pub fn cfind_matches_in_chunks(
    sens: u64,
    num_to_keep: usize,
    text: &str,
    chunks: &Vec<Vec<String>>,
    source_name: &str,
    match_algo: MatchAlgo,
) -> (r: Result<Vec<Candidate>, Error>)
    ensures
        valid_sens(sens) ==> (r matches Ok(v) && v.deep_view() == rank_spec(
            concat_results(
                chunk_results_spec(
                    chunks_views(chunks.deep_view()),
                    text@,
                    sens,
                    match_algo,
                    source_name@,
                    num_to_keep as nat,
                ),
            ),
            sens,
            num_to_keep as nat,
        )),
        !valid_sens(sens) ==> (r matches Err(e) && e is InvalidSensitivity),
{
    let matcher = match TextMatcher::new(sens, num_to_keep, match_algo) {
        Ok(m) => m,
        Err(e) => {
            return Err(e);
        },
    };
    let mut parts: Vec<Vec<Candidate>> = Vec::new();
    let mut i: usize = 0;
    while i < chunks.len()
        invariant
            i <= chunks@.len(),
            matcher.sensitivity.value == sens,
            matcher.num_to_keep == num_to_keep,
            matcher.algo == match_algo,
            parts.deep_view() == chunk_results_spec(
                chunks_views(chunks.deep_view()).take(i as int),
                text@,
                sens,
                match_algo,
                source_name@,
                num_to_keep as nat,
            ),
        decreases chunks@.len() - i,
    {
        let ghost psofar = parts.deep_view();
        let part = matcher.find_matches_in_lines(text, &chunks[i], source_name, None);
        parts.push(part);
        proof {
            let cv = chunks_views(chunks.deep_view());
            assert(cv.take(i + 1 as int).drop_last() =~= cv.take(i as int));
            assert(cv.take(i + 1 as int).last() == cv[i as int]);
            assert(cv[i as int] == chunks@[i as int].deep_view());
            assert(parts.deep_view() =~= psofar.push(part.deep_view()));
        }
        i += 1;
    }
    proof {
        let cv = chunks_views(chunks.deep_view());
        assert(cv.take(chunks@.len() as int) =~= cv);
    }
    Ok(merge_ranked(parts, &Sens(sens), num_to_keep))
}

/// The chunk views that a vector of line vectors denotes.
pub open spec fn chunks_views(chunks: Seq<Seq<Seq<char>>>) -> Seq<Seq<Seq<char>>> {
    chunks
}

/// The per-chunk admitted matches, before any local ranking.
pub open spec fn chunk_matches(
    chunks: Seq<Seq<Seq<char>>>,
    text: Seq<char>,
    t: u64,
    algo: MatchAlgo,
    tag: Seq<char>,
) -> Seq<Seq<CandidateView>>
    decreases chunks.len(),
{
    if chunks.len() == 0 {
        Seq::empty()
    } else {
        chunk_matches(chunks.drop_last(), text, t, algo, tag).push(
            matches_spec(chunks.last(), text, t, algo, false, tag),
        )
    }
}

/// Scanning the joined chunks admits exactly what scanning each chunk
/// admits, in chunk order.
pub proof fn lemma_flatten_matches(
    chunks: Seq<Seq<Seq<char>>>,
    text: Seq<char>,
    t: u64,
    algo: MatchAlgo,
    tag: Seq<char>,
)
    ensures
        matches_spec(flatten_chunks(chunks), text, t, algo, false, tag) == concat_results(
            chunk_matches(chunks, text, t, algo, tag),
        ),
    decreases chunks.len(),
{
    if chunks.len() == 0 {
        assert(matches_spec(flatten_chunks(chunks), text, t, algo, false, tag) =~= concat_results(
            chunk_matches(chunks, text, t, algo, tag),
        ));
    } else {
        lemma_flatten_matches(chunks.drop_last(), text, t, algo, tag);
        crate::matcher::lemma_matches_append(
            flatten_chunks(chunks.drop_last()),
            chunks.last(),
            text,
            t,
            algo,
            false,
            tag,
        );
        let cm = chunk_matches(chunks, text, t, algo, tag);
        assert(cm.drop_last() =~= chunk_matches(chunks.drop_last(), text, t, algo, tag));
        assert(cm.last() == matches_spec(chunks.last(), text, t, algo, false, tag));
    }
}

/// Each entry of the joined parts is an entry of some part.
proof fn lemma_concat_members(parts: Seq<Seq<CandidateView>>, i: int)
    requires
        0 <= i < concat_results(parts).len(),
    ensures
        exists|p: int, j: int|
            0 <= p < parts.len() && 0 <= j < parts[p].len() && concat_results(parts)[i]
                == parts[p][j],
    decreases parts.len(),
{
    if parts.len() > 0 {
        let sub = concat_results(parts.drop_last());
        if i < sub.len() {
            lemma_concat_members(parts.drop_last(), i);
            let (p, j) = choose|p: int, j: int|
                0 <= p < parts.drop_last().len() && 0 <= j < parts.drop_last()[p].len() && sub[i]
                    == parts.drop_last()[p][j];
            assert(parts.drop_last()[p] == parts[p]);
            assert(concat_results(parts)[i] == parts[p][j]);
        } else {
            let p = parts.len() - 1;
            let j = i - sub.len();
            assert(concat_results(parts)[i] == parts[p][j]);
        }
    }
}

/// A candidate is an admitted match of some given lines.
pub open spec fn is_match_of(
    c: CandidateView,
    lines: Seq<Seq<char>>,
    text: Seq<char>,
    t: u64,
    algo: MatchAlgo,
    tag: Seq<char>,
) -> bool {
    exists|j: int|
        0 <= j < matches_spec(lines, text, t, algo, false, tag).len() && matches_spec(
            lines,
            text,
            t,
            algo,
            false,
            tag,
        )[j] == c
}

/// The partitioned search invents nothing: every candidate that the merge
/// of per-chunk rankings returns is an admitted match of the joined lines,
/// however the lines were split.
pub proof fn lemma_partition_sound(
    chunks: Seq<Seq<Seq<char>>>,
    text: Seq<char>,
    t: u64,
    algo: MatchAlgo,
    tag: Seq<char>,
    keep: nat,
    i: int,
)
    requires
        0 <= i < rank_spec(
            concat_results(chunk_results_spec(chunks, text, t, algo, tag, keep)),
            t,
            keep,
        ).len(),
    ensures
        is_match_of(
            rank_spec(concat_results(chunk_results_spec(chunks, text, t, algo, tag, keep)), t, keep)[i],
            flatten_chunks(chunks),
            text,
            t,
            algo,
            tag,
        ),
{
    let parts = chunk_results_spec(chunks, text, t, algo, tag, keep);
    let merged = concat_results(parts);
    let c = rank_spec(merged, t, keep)[i];
    crate::rank::lemma_rank_members(merged, t, keep, i);
    let m = choose|m: int| 0 <= m < merged.len() && rank_spec(merged, t, keep)[i] == merged[m];
    lemma_concat_members(parts, m);
    let (p, j) = choose|p: int, j: int|
        0 <= p < parts.len() && 0 <= j < parts[p].len() && merged[m] == parts[p][j];
    lemma_chunk_results_len(chunks, text, t, algo, tag, keep);
    lemma_chunk_matches_len(chunks, text, t, algo, tag);
    lemma_chunk_results_part(chunks, text, t, algo, tag, keep, p);
    crate::rank::lemma_rank_members(
        matches_spec(chunks[p], text, t, algo, false, tag),
        t,
        keep,
        j,
    );
    let q = choose|q: int|
        0 <= q < matches_spec(chunks[p], text, t, algo, false, tag).len() && parts[p][j]
            == matches_spec(chunks[p], text, t, algo, false, tag)[q];
    lemma_flatten_matches(chunks, text, t, algo, tag);
    let cm = chunk_matches(chunks, text, t, algo, tag);
    lemma_chunk_matches_part(chunks, text, t, algo, tag, p);
    lemma_concat_holds(cm, p, q);
}

proof fn lemma_chunk_results_len(
    chunks: Seq<Seq<Seq<char>>>,
    text: Seq<char>,
    t: u64,
    algo: MatchAlgo,
    tag: Seq<char>,
    keep: nat,
)
    ensures
        chunk_results_spec(chunks, text, t, algo, tag, keep).len() == chunks.len(),
    decreases chunks.len(),
{
    if chunks.len() > 0 {
        lemma_chunk_results_len(chunks.drop_last(), text, t, algo, tag, keep);
    }
}

proof fn lemma_chunk_matches_len(
    chunks: Seq<Seq<Seq<char>>>,
    text: Seq<char>,
    t: u64,
    algo: MatchAlgo,
    tag: Seq<char>,
)
    ensures
        chunk_matches(chunks, text, t, algo, tag).len() == chunks.len(),
    decreases chunks.len(),
{
    if chunks.len() > 0 {
        lemma_chunk_matches_len(chunks.drop_last(), text, t, algo, tag);
    }
}

/// The p-th per-chunk ranking ranks the p-th chunk's matches.
proof fn lemma_chunk_results_part(
    chunks: Seq<Seq<Seq<char>>>,
    text: Seq<char>,
    t: u64,
    algo: MatchAlgo,
    tag: Seq<char>,
    keep: nat,
    p: int,
)
    requires
        0 <= p < chunks.len(),
    ensures
        chunk_results_spec(chunks, text, t, algo, tag, keep)[p] == rank_spec(
            matches_spec(chunks[p], text, t, algo, false, tag),
            t,
            keep,
        ),
    decreases chunks.len(),
{
    lemma_chunk_results_len(chunks, text, t, algo, tag, keep);
    lemma_chunk_results_len(chunks.drop_last(), text, t, algo, tag, keep);
    if p == chunks.len() - 1 {
    } else {
        lemma_chunk_results_part(chunks.drop_last(), text, t, algo, tag, keep, p);
        assert(chunks.drop_last()[p] == chunks[p]);
    }
}

/// The p-th per-chunk match sequence scans the p-th chunk.
proof fn lemma_chunk_matches_part(
    chunks: Seq<Seq<Seq<char>>>,
    text: Seq<char>,
    t: u64,
    algo: MatchAlgo,
    tag: Seq<char>,
    p: int,
)
    requires
        0 <= p < chunks.len(),
    ensures
        chunk_matches(chunks, text, t, algo, tag)[p] == matches_spec(
            chunks[p],
            text,
            t,
            algo,
            false,
            tag,
        ),
    decreases chunks.len(),
{
    lemma_chunk_matches_len(chunks, text, t, algo, tag);
    lemma_chunk_matches_len(chunks.drop_last(), text, t, algo, tag);
    if p == chunks.len() - 1 {
    } else {
        lemma_chunk_matches_part(chunks.drop_last(), text, t, algo, tag, p);
        assert(chunks.drop_last()[p] == chunks[p]);
    }
}

/// An entry of one part stands in the joined parts.
proof fn lemma_concat_holds(parts: Seq<Seq<CandidateView>>, p: int, j: int)
    requires
        0 <= p < parts.len(),
        0 <= j < parts[p].len(),
    ensures
        exists|i: int|
            0 <= i < concat_results(parts).len() && concat_results(parts)[i] == parts[p][j],
    decreases parts.len(),
{
    if p == parts.len() - 1 {
        let i = concat_results(parts.drop_last()).len() + j;
        assert(concat_results(parts)[i] == parts[p][j]);
    } else {
        lemma_concat_holds(parts.drop_last(), p, j);
        let i = choose|i: int|
            0 <= i < concat_results(parts.drop_last()).len() && concat_results(parts.drop_last())[i]
                == parts.drop_last()[p][j];
        assert(concat_results(parts)[i] == parts[p][j]);
    }
}

/// A part counts no more than the joined parts.
proof fn lemma_count_concat_part(parts: Seq<Seq<CandidateView>>, p: int, v: u64)
    requires
        0 <= p < parts.len(),
    ensures
        crate::rank::count_above(parts[p], v) <= crate::rank::count_above(
            concat_results(parts),
            v,
        ),
        crate::rank::count_eq(parts[p], v) <= crate::rank::count_eq(concat_results(parts), v),
    decreases parts.len(),
{
    crate::rank::lemma_filter_append(concat_results(parts.drop_last()), parts.last(), v);
    crate::rank::lemma_count_eq_append(concat_results(parts.drop_last()), parts.last(), v);
    if p < parts.len() - 1 {
        lemma_count_concat_part(parts.drop_last(), p, v);
        assert(parts.drop_last()[p] == parts[p]);
    }
}

/// Joined parts count no more than joined parts that each count at least
/// as much.
proof fn lemma_count_concat_mono(a: Seq<Seq<CandidateView>>, b: Seq<Seq<CandidateView>>, v: u64)
    requires
        a.len() == b.len(),
        forall|p: int|
            0 <= p < a.len() ==> crate::rank::count_above(a[p], v) <= crate::rank::count_above(
                b[p],
                v,
            ) && crate::rank::count_eq(a[p], v) <= crate::rank::count_eq(b[p], v),
    ensures
        crate::rank::count_above(concat_results(a), v) <= crate::rank::count_above(
            concat_results(b),
            v,
        ),
        crate::rank::count_eq(concat_results(a), v) <= crate::rank::count_eq(
            concat_results(b),
            v,
        ),
    decreases a.len(),
{
    if a.len() > 0 {
        assert(forall|p: int| 0 <= p < a.drop_last().len() ==> a.drop_last()[p] == a[p]);
        assert(forall|p: int| 0 <= p < b.drop_last().len() ==> b.drop_last()[p] == b[p]);
        lemma_count_concat_mono(a.drop_last(), b.drop_last(), v);
        crate::rank::lemma_filter_append(concat_results(a.drop_last()), a.last(), v);
        crate::rank::lemma_filter_append(concat_results(b.drop_last()), b.last(), v);
        crate::rank::lemma_count_eq_append(concat_results(a.drop_last()), a.last(), v);
        crate::rank::lemma_count_eq_append(concat_results(b.drop_last()), b.last(), v);
        assert(a.last() == a[a.len() - 1]);
        assert(b.last() == b[b.len() - 1]);
    }
}

/// The per-chunk rankings count no more than the per-chunk matches.
proof fn lemma_chunk_counts(
    chunks: Seq<Seq<Seq<char>>>,
    text: Seq<char>,
    t: u64,
    algo: MatchAlgo,
    tag: Seq<char>,
    keep: nat,
    v: u64,
)
    ensures
        crate::rank::count_above(
            concat_results(chunk_results_spec(chunks, text, t, algo, tag, keep)),
            v,
        ) <= crate::rank::count_above(concat_results(chunk_matches(chunks, text, t, algo, tag)), v),
        crate::rank::count_eq(
            concat_results(chunk_results_spec(chunks, text, t, algo, tag, keep)),
            v,
        ) <= crate::rank::count_eq(concat_results(chunk_matches(chunks, text, t, algo, tag)), v),
{
    let parts = chunk_results_spec(chunks, text, t, algo, tag, keep);
    let mats = chunk_matches(chunks, text, t, algo, tag);
    lemma_chunk_results_len(chunks, text, t, algo, tag, keep);
    lemma_chunk_matches_len(chunks, text, t, algo, tag);
    assert forall|p: int|
        0 <= p < parts.len() implies crate::rank::count_above(parts[p], v)
        <= crate::rank::count_above(mats[p], v) && crate::rank::count_eq(parts[p], v)
        <= crate::rank::count_eq(mats[p], v) by {
        lemma_chunk_results_part(chunks, text, t, algo, tag, keep, p);
        lemma_chunk_matches_part(chunks, text, t, algo, tag, p);
        crate::rank::lemma_count_rank(mats[p], t, keep, v);
    }
    lemma_count_concat_mono(parts, mats, v);
}

/// The merge of per-chunk rankings inherits pairwise distinct scores from
/// the joined matches.
proof fn lemma_merged_distinct(
    chunks: Seq<Seq<Seq<char>>>,
    text: Seq<char>,
    t: u64,
    algo: MatchAlgo,
    tag: Seq<char>,
    keep: nat,
)
    requires
        crate::rank::distinct_sims(matches_spec(flatten_chunks(chunks), text, t, algo, false, tag)),
    ensures
        crate::rank::distinct_sims(
            concat_results(chunk_results_spec(chunks, text, t, algo, tag, keep)),
        ),
{
    let whole = matches_spec(flatten_chunks(chunks), text, t, algo, false, tag);
    let merged = concat_results(chunk_results_spec(chunks, text, t, algo, tag, keep));
    lemma_flatten_matches(chunks, text, t, algo, tag);
    assert forall|v: u64| crate::rank::count_eq(merged, v) <= 1 by {
        lemma_chunk_counts(chunks, text, t, algo, tag, keep, v);
        crate::rank::lemma_distinct_count_eq(whole, v);
    }
    crate::rank::lemma_count_eq_distinct(merged);
}

/// An admitted match of the joined lines that clears the threshold with
/// fewer than `keep` matches scoring above it stands in the merge of the
/// per-chunk rankings.
proof fn lemma_partition_holds_match(
    chunks: Seq<Seq<Seq<char>>>,
    text: Seq<char>,
    t: u64,
    algo: MatchAlgo,
    tag: Seq<char>,
    keep: nat,
    w: int,
)
    requires
        crate::rank::distinct_sims(matches_spec(flatten_chunks(chunks), text, t, algo, false, tag)),
        0 <= w < matches_spec(flatten_chunks(chunks), text, t, algo, false, tag).len(),
        matches_spec(flatten_chunks(chunks), text, t, algo, false, tag)[w].similarity > t,
        crate::rank::count_above(
            matches_spec(flatten_chunks(chunks), text, t, algo, false, tag),
            matches_spec(flatten_chunks(chunks), text, t, algo, false, tag)[w].similarity,
        ) < keep,
    ensures
        exists|mi: int|
            0 <= mi < concat_results(chunk_results_spec(chunks, text, t, algo, tag, keep)).len()
                && concat_results(chunk_results_spec(chunks, text, t, algo, tag, keep))[mi]
                == matches_spec(flatten_chunks(chunks), text, t, algo, false, tag)[w],
{
    let whole = matches_spec(flatten_chunks(chunks), text, t, algo, false, tag);
    let x = whole[w];
    lemma_flatten_matches(chunks, text, t, algo, tag);
    let mats = chunk_matches(chunks, text, t, algo, tag);
    lemma_chunk_matches_len(chunks, text, t, algo, tag);
    lemma_concat_members(mats, w);
    let (p, j) = choose|p: int, j: int|
        0 <= p < mats.len() && 0 <= j < mats[p].len() && concat_results(mats)[w] == mats[p][j];
    lemma_chunk_matches_part(chunks, text, t, algo, tag, p);
    let mp = mats[p];
    lemma_count_concat_part(mats, p, x.similarity);
    assert(crate::rank::count_above(mp, x.similarity) < keep);
    assert(crate::rank::distinct_sims(mp)) by {
        assert forall|v: u64| crate::rank::count_eq(mp, v) <= 1 by {
            lemma_count_concat_part(mats, p, v);
            crate::rank::lemma_distinct_count_eq(whole, v);
        }
        crate::rank::lemma_count_eq_distinct(mp);
    }
    crate::rank::lemma_rank_complete(mp, t, keep, j);
    let j1 = choose|j1: int|
        0 <= j1 < rank_spec(mp, t, keep).len() && rank_spec(mp, t, keep)[j1] == mp[j];
    let parts = chunk_results_spec(chunks, text, t, algo, tag, keep);
    lemma_chunk_results_len(chunks, text, t, algo, tag, keep);
    lemma_chunk_results_part(chunks, text, t, algo, tag, keep, p);
    lemma_concat_holds(parts, p, j1);
}

/// Partitioning does not change the search result: when no two admitted
/// matches of the joined lines share a score, the merge of the per-chunk
/// rankings, ranked again, is exactly the direct ranking of the joined
/// lines, whatever the split into chunks was.
pub proof fn lemma_partition_invariant(
    chunks: Seq<Seq<Seq<char>>>,
    text: Seq<char>,
    t: u64,
    algo: MatchAlgo,
    tag: Seq<char>,
    keep: nat,
)
    requires
        crate::rank::distinct_sims(matches_spec(flatten_chunks(chunks), text, t, algo, false, tag)),
    ensures
        rank_spec(
            concat_results(chunk_results_spec(chunks, text, t, algo, tag, keep)),
            t,
            keep,
        ) == rank_spec(matches_spec(flatten_chunks(chunks), text, t, algo, false, tag), t, keep),
{
    let whole = matches_spec(flatten_chunks(chunks), text, t, algo, false, tag);
    let merged = concat_results(chunk_results_spec(chunks, text, t, algo, tag, keep));
    let rw = rank_spec(whole, t, keep);
    let rm = rank_spec(merged, t, keep);
    lemma_merged_distinct(chunks, text, t, algo, tag, keep);
    crate::rank::lemma_distinct_rank(whole, t, keep);
    crate::rank::lemma_rank_len(whole, t, keep);
    crate::rank::lemma_rank_len(merged, t, keep);
    lemma_chunk_counts(chunks, text, t, algo, tag, keep, t);
    lemma_flatten_matches(chunks, text, t, algo, tag);
    // every entry of the direct ranking stands in the merge
    assert forall|l: int| 0 <= l < rw.len() implies exists|mi: int|
        0 <= mi < merged.len() && merged[mi] == #[trigger] rw[l] by {
        crate::rank::lemma_rank_entry(whole, t, keep, l);
        let w = choose|w: int| 0 <= w < whole.len() && rw[l] == whole[w];
        lemma_partition_holds_match(chunks, text, t, algo, tag, keep, w);
    }
    // so the merge's count at the threshold reaches the direct length
    assert forall|l: int| 0 <= l < rw.len() implies #[trigger] rw[l].similarity > t by {
        crate::rank::lemma_rank_entry(whole, t, keep, l);
    }
    crate::rank::lemma_distinct_members_count(rw, merged, t);
    assert(rm.len() == rw.len());
    // and entry for entry the two rankings agree
    assert forall|i: int| 0 <= i < rw.len() implies rm[i] == rw[i] by {
        crate::rank::lemma_rank_entry(whole, t, keep, i);
        let x = rw[i];
        let w = choose|w: int| 0 <= w < whole.len() && rw[i] == whole[w];
        // the i entries ranked before x all score above x and stand in the
        // merge, so at least i merge entries score above x
        let before = rw.take(i);
        assert(crate::rank::distinct_sims(before)) by {
            assert(forall|l: int| 0 <= l < before.len() ==> before[l] == rw[l]);
        }
        assert forall|l: int| 0 <= l < before.len() implies #[trigger] before[l].similarity
            > x.similarity by {
            crate::rank::lemma_rank_entry(whole, t, keep, l);
            if before[l].similarity <= x.similarity {
                crate::rank::lemma_count_anti_monotone(whole, before[l].similarity, x.similarity);
            }
        }
        assert forall|l: int| 0 <= l < before.len() implies exists|mi: int|
            0 <= mi < merged.len() && merged[mi] == #[trigger] before[l] by {
            crate::rank::lemma_rank_entry(whole, t, keep, l);
            let wl = choose|wl: int| 0 <= wl < whole.len() && rw[l] == whole[wl];
            lemma_partition_holds_match(chunks, text, t, algo, tag, keep, wl);
            assert(before[l] == rw[l]);
        }
        crate::rank::lemma_distinct_members_count(before, merged, x.similarity);
        // while the merge, a selection from the corpus, cannot score above
        // x more often than the corpus does
        lemma_chunk_counts(chunks, text, t, algo, tag, keep, x.similarity);
        assert(crate::rank::count_above(merged, x.similarity) == i);
        // x itself stands in the merge, and lands at the same position
        lemma_partition_holds_match(chunks, text, t, algo, tag, keep, w);
        let mi = choose|mi: int| 0 <= mi < merged.len() && merged[mi] == x;
        crate::rank::lemma_rank_complete(merged, t, keep, mi);
        let j = choose|j: int| 0 <= j < rm.len() && rm[j] == merged[mi];
        crate::rank::lemma_rank_entry(merged, t, keep, j);
        assert(j == i);
    }
    assert(rm =~= rw);
}

/// Splitting into a single part changes nothing: merging the one part's
/// ranking and ranking it again returns exactly the direct ranking of the
/// lines.
pub proof fn lemma_single_partition_exact(
    lines: Seq<Seq<char>>,
    text: Seq<char>,
    t: u64,
    algo: MatchAlgo,
    tag: Seq<char>,
    keep: nat,
)
    ensures
        rank_spec(
            concat_results(chunk_results_spec(seq![lines], text, t, algo, tag, keep)),
            t,
            keep,
        ) == rank_spec(matches_spec(lines, text, t, algo, false, tag), t, keep),
{
    let m = matches_spec(lines, text, t, algo, false, tag);
    let parts = chunk_results_spec(seq![lines], text, t, algo, tag, keep);
    assert(chunk_results_spec(Seq::<Seq<Seq<char>>>::empty(), text, t, algo, tag, keep)
        =~= Seq::<Seq<CandidateView>>::empty());
    assert(seq![lines].drop_last() =~= Seq::<Seq<Seq<char>>>::empty());
    assert(seq![lines].last() == lines);
    assert(parts =~= seq![rank_spec(m, t, keep)]);
    assert(concat_results(Seq::<Seq<CandidateView>>::empty()) =~= Seq::<CandidateView>::empty());
    assert(seq![rank_spec(m, t, keep)].drop_last() =~= Seq::<Seq<CandidateView>>::empty());
    assert(concat_results(parts) =~= rank_spec(m, t, keep));
    crate::rank::lemma_rank_idempotent(m, t, keep);
}

/// The per-source ranked results of a directory-wide search, in source
/// order: each source's admitted lines, ranked and cut on their own, every
/// candidate tagged with its source's name.
pub open spec fn source_results_spec(
    sources: Seq<ScopeFileView>,
    text: Seq<char>,
    t: u64,
    algo: MatchAlgo,
    flt: bool,
    keep: nat,
) -> Seq<Seq<CandidateView>>
    decreases sources.len(),
{
    if sources.len() == 0 {
        Seq::empty()
    } else {
        source_results_spec(sources.drop_last(), text, t, algo, flt, keep).push(
            rank_spec(
                matches_spec(sources.last().lines, text, t, algo, flt, sources.last().name),
                t,
                keep,
            ),
        )
    }
}

/// A search across every source of a directory held in memory: each source
/// is scanned and ranked alone, the per-source results are merged and
/// ranked again. An out-of-range sensitivity is a configuration error.
pub fn find_matches_in_sources(
    sens: u64,
    num_to_keep: usize,
    text: &str,
    sources: &Vec<ScopeFile>,
    is_first_let_eq: Option<bool>,
    match_algo: MatchAlgo,
) -> (r: Result<Vec<Candidate>, Error>)
    ensures
        valid_sens(sens) ==> (r matches Ok(v) && v.deep_view() == rank_spec(
            concat_results(
                source_results_spec(
                    sources.deep_view(),
                    text@,
                    sens,
                    match_algo,
                    is_first_let_eq == Some(true),
                    num_to_keep as nat,
                ),
            ),
            sens,
            num_to_keep as nat,
        )),
        !valid_sens(sens) ==> (r matches Err(e) && e is InvalidSensitivity),
{
    let matcher = match TextMatcher::new(sens, num_to_keep, match_algo) {
        Ok(m) => m,
        Err(e) => {
            return Err(e);
        },
    };
    let ghost flt = is_first_let_eq == Some(true);
    let mut parts: Vec<Vec<Candidate>> = Vec::new();
    let mut i: usize = 0;
    while i < sources.len()
        invariant
            i <= sources@.len(),
            matcher.sensitivity.value == sens,
            matcher.num_to_keep == num_to_keep,
            matcher.algo == match_algo,
            flt == (is_first_let_eq == Some(true)),
            parts.deep_view() == source_results_spec(
                sources.deep_view().take(i as int),
                text@,
                sens,
                match_algo,
                flt,
                num_to_keep as nat,
            ),
        decreases sources@.len() - i,
    {
        let ghost psofar = parts.deep_view();
        let src = &sources[i];
        let part = matcher.find_matches_in_lines(
            text,
            &src.lines,
            src.name.as_str(),
            is_first_let_eq,
        );
        parts.push(part);
        proof {
            let sv = sources.deep_view();
            assert(sv.take(i + 1 as int).drop_last() =~= sv.take(i as int));
            assert(sv.take(i + 1 as int).last() == sv[i as int]);
            assert(sv[i as int] == sources@[i as int].deep_view());
            assert(sv[i as int].lines == sources@[i as int].lines.deep_view());
            assert(sv[i as int].name == sources@[i as int].name@);
            assert(part.deep_view() == rank_spec(
                matches_spec(sv[i as int].lines, text@, sens, match_algo, flt, sv[i as int].name),
                sens,
                num_to_keep as nat,
            ));
            assert(parts.deep_view() =~= psofar.push(part.deep_view()));
        }
        i += 1;
    }
    proof {
        assert(sources.deep_view().take(sources@.len() as int) =~= sources.deep_view());
    }
    Ok(merge_ranked(parts, &Sens(sens), num_to_keep))
}

} // verus!
