use scoped_threadpool::Pool;

use vstd::prelude::*;

use crate::common::{label_if, with_round, LabelSet};
use crate::graph::{csr_rows, edge_list, neighbors, rows_in_range, vertex_count, Graph};
use crate::lexbfs::{
    is_lexbfs_ordering, is_selection, is_update, lemma_label_bounds, lemma_top_rank_selects,
    rank_le, LexBfsState,
};
use crate::pes::{
    candidate, candidate_marks, chordality, clique_size_matches, count_inside,
    count_marked_between, inside_ones, is_perfect_elimination, lemma_count_inside_bound,
    lemma_count_inside_sum, lemma_elimination_check_strategy_invariant, step_ok, valid_scheme,
};
use crate::reduce::{
    chunk_ranges, chunk_top, is_chunking, lemma_chunks_partition, lemma_rank_le_total,
    lemma_sum_chunks, lemma_sum_permutation, lemma_sum_range_bound, lemma_top_of, seq_sum,
    sum_between, top_of,
};

verus! {

#[verifier::external_type_specification]
#[verifier::external_body]
pub struct ExPool(Pool);

/// Relies on `Pool::thread_count`: the number of threads the pool was built
/// with, which `Pool::new` asserts is at least one.
#[verifier::external_body]
fn thread_count(pool: &Pool) -> (r: u32)
    ensures
        r >= 1,
{
    pool.thread_count()
}

/// Relies on `Pool::scoped` and `Scope::execute`, with an unbounded channel
/// of crossbeam: one job per range runs `f` on it and sends the result,
/// `scoped` returns once every job has finished, and the receiver then hands
/// back each value sent exactly once, in the order of arrival.
#[verifier::external_body]
fn pool_map<U: Send, F: Fn(usize, usize) -> U + Sync>(
    pool: &mut Pool,
    ranges: &Vec<(usize, usize)>,
    f: F,
) -> (r: Vec<U>)
    requires
        forall|k: int| 0 <= k < ranges@.len() ==> f.requires(((#[trigger] ranges@[k]).0, ranges@[k].1)),
    ensures
        exists|vals: Seq<U>|
            r@.to_multiset() == vals.to_multiset() && vals.len() == ranges@.len() && forall|k: int|
                0 <= k < ranges@.len() ==> f.ensures((ranges@[k].0, ranges@[k].1), #[trigger] vals[k]),
{
    let (sender, receiver) = crossbeam::channel::unbounded();
    let f = &f;
    pool.scoped(|scope| {
        for &(lo, hi) in ranges.iter() {
            let sender = sender.clone();
            scope.execute(move || sender.send(f(lo, hi)).unwrap());
        }
    });
    drop(sender);
    receiver.iter().collect()
}

/// Relies on `Pool::scoped` and `Scope::execute`, with `chunks_mut`: the
/// label sets are cut into chunks of `size`, each job owns one chunk and runs
/// `label_if` once on each set of it with the mark at the same index, and
/// `scoped` returns once every job has finished.
#[verifier::external_body]
fn pool_label(pool: &mut Pool, sets: &mut Vec<LabelSet>, marks: &Vec<bool>, size: usize, round: usize)
    requires
        size > 0,
        old(sets)@.len() == marks@.len(),
        forall|v: int| 0 <= v < old(sets)@.len() ==> (#[trigger] old(sets)@[v]).wf(),
        forall|v: int, k: int|
            0 <= v < old(sets)@.len() && marks@[v] && 0 <= k < old(sets)@[v]@.len()
                ==> #[trigger] old(sets)@[v]@[k] >= round,
    ensures
        final(sets)@.len() == old(sets)@.len(),
        forall|v: int| 0 <= v < old(sets)@.len() ==> (#[trigger] final(sets)@[v]).wf(),
        forall|v: int|
            0 <= v < old(sets)@.len() ==> (#[trigger] final(sets)@[v])@ == if marks@[v] {
                with_round(old(sets)@[v]@, round)
            } else {
                old(sets)@[v]@
            },
{
    pool.scoped(|scope| {
        for (chunk, part) in sets.chunks_mut(size).zip(marks.chunks(size)) {
            scope.execute(move || {
                chunk.iter_mut().zip(part).for_each(|(s, m)| label_if(s, *m, round))
            });
        }
    });
}

/// The unnumbered vertices of `lo..hi`: the work of one
/// worker in the filter phase of a selection.
pub fn unnumbered_between(numbered: &Vec<bool>, lo: usize, hi: usize) -> (r: Vec<usize>)
    requires
        lo <= hi <= numbered@.len(),
    ensures
        forall|x: usize| #[trigger] r@.contains(x) <==> lo <= x < hi && !numbered@[x as int],
{
    let mut r: Vec<usize> = Vec::new();
    let mut i: usize = lo;
    while i < hi
        invariant
            lo <= i <= hi <= numbered@.len(),
            forall|x: usize| #[trigger] r@.contains(x) <==> lo <= x < i && !numbered@[x as int],
        decreases hi - i,
    {
        if !numbered[i] {
            proof {
                vstd::seq_lib::lemma_seq_contains_after_push(r@, i, i);
            }
            let ghost before = r@;
            r.push(i);
            assert forall|x: usize| #[trigger] r@.contains(x) <==> lo <= x < i + 1
                && !numbered@[x as int] by {
                vstd::seq_lib::lemma_seq_contains_after_push(before, i, x);
            }
        }
        i = i + 1;
    }
    r
}

/// The entries of all `parts`, one part after another.
fn concat_parts(parts: &Vec<Vec<usize>>) -> (r: Vec<usize>)
    ensures
        forall|x: usize|
            #[trigger] r@.contains(x) <==> exists|j: int|
                0 <= j < parts@.len() && (#[trigger] parts@[j])@.contains(x),
{
    let mut r: Vec<usize> = Vec::new();
    let mut j: usize = 0;
    while j < parts.len()
        invariant
            j <= parts@.len(),
            forall|x: usize|
                #[trigger] r@.contains(x) <==> exists|i: int|
                    0 <= i < j && (#[trigger] parts@[i])@.contains(x),
        decreases parts@.len() - j,
    {
        let part = &parts[j];
        let ghost start = r@;
        let mut i: usize = 0;
        while i < part.len()
            invariant
                j < parts@.len(),
                part == parts@[j as int],
                i <= part@.len(),
                forall|x: usize|
                    #[trigger] r@.contains(x) <==> start.contains(x) || part@.subrange(
                        0,
                        i as int,
                    ).contains(x),
            decreases part@.len() - i,
        {
            let ghost before = r@;
            r.push(part[i]);
            assert forall|x: usize|
                #[trigger] r@.contains(x) <==> start.contains(x) || part@.subrange(
                    0,
                    i + 1,
                ).contains(x) by {
                vstd::seq_lib::lemma_seq_contains_after_push(before, part@[i as int], x);
                if part@.subrange(0, i + 1).contains(x) && x != part@[i as int] {
                    let t = choose|t: int| 0 <= t < i + 1 && #[trigger] part@.subrange(0, i + 1)[t] == x;
                    assert(part@.subrange(0, i as int)[t] == x);
                }
                if part@.subrange(0, i as int).contains(x) {
                    let t = choose|t: int| 0 <= t < i && #[trigger] part@.subrange(0, i as int)[t] == x;
                    assert(part@.subrange(0, i + 1)[t] == x);
                }
                if x == part@[i as int] {
                    assert(part@.subrange(0, i + 1)[i as int] == x);
                }
            }
            i = i + 1;
        }
        assert(part@.subrange(0, part@.len() as int) =~= part@);
        assert forall|x: usize|
            #[trigger] r@.contains(x) <==> exists|i: int|
                0 <= i < j + 1 && (#[trigger] parts@[i])@.contains(x) by {
            if r@.contains(x) && !start.contains(x) {
                assert(parts@[j as int]@.contains(x));
            }
        }
        j = j + 1;
    }
    r
}

/// The highest-ranked entry of `cands`, reduced on the pool in rounds: each
/// round cuts the entries into chunks of at least two, the workers report the
/// highest-ranked entry of their chunk, and the reports form the next
/// round's entries, until one is left.
pub fn pool_top(pool: &mut Pool, sets: &Vec<LabelSet>, numbered: &Vec<bool>, cands: Vec<usize>) -> (r: usize)
    requires
        cands@.len() >= 1,
        sets@.len() == numbered@.len(),
        forall|k: int| 0 <= k < cands@.len() ==> (#[trigger] cands@[k] as int) < sets@.len(),
    ensures
        r == top_of(sets@, numbered@, cands@),
{
    let ghost t = top_of(sets@, numbered@, cands@);
    proof {
        lemma_top_of(sets@, numbered@, cands@);
    }
    let mut res = cands;
    while res.len() != 1
        invariant
            res@.len() >= 1,
            sets@.len() == numbered@.len(),
            forall|k: int| 0 <= k < res@.len() ==> (#[trigger] res@[k] as int) < sets@.len(),
            forall|k: int| 0 <= k < res@.len() ==> cands@.contains(#[trigger] res@[k]),
            res@.contains(t),
            cands@.contains(t),
            forall|k: int|
                0 <= k < cands@.len() ==> #[trigger] rank_le(sets@, numbered@, cands@[k] as int, t as int),
        decreases res@.len(),
    {
        let p = thread_count(pool) as usize;
        let size = if res.len() / p > 2 {
            res.len() / p
        } else {
            2
        };
        let ranges = chunk_ranges(res.len(), size);
        let top_in = |lo: usize, hi: usize| -> (x: usize)
            requires
                lo < hi <= res@.len(),
            ensures
                x == top_of(sets@, numbered@, res@.subrange(lo as int, hi as int)),
            { chunk_top(sets, numbered, &res, lo, hi) };
        let tops = pool_map(pool, &ranges, top_in);
        proof {
            let vals = choose|vals: Seq<usize>|
                tops@.to_multiset() == #[trigger] vals.to_multiset() && vals.len() == ranges@.len()
                    && forall|k: int|
                    0 <= k < ranges@.len() ==> top_in.ensures(
                        (ranges@[k].0, ranges@[k].1),
                        #[trigger] vals[k],
                    );
            assert forall|k: int| 0 <= k < ranges@.len() implies #[trigger] vals[k] == top_of(
                sets@,
                numbered@,
                res@.subrange(ranges@[k].0 as int, ranges@[k].1 as int),
            ) by {
                assert(top_in.ensures((ranges@[k].0, ranges@[k].1), vals[k]));
            }
            lemma_top_round(sets@, numbered@, cands@, t, res@, ranges@, size as int, vals, tops@);
        }
        res = tops;
    }
    res[0]
}

/// One round of the maximum reduction keeps the overall top among the
/// entries, keeps only entries of the starting candidates, and leaves one
/// entry per chunk.
proof fn lemma_top_round(
    sets: Seq<LabelSet>,
    numbered: Seq<bool>,
    cands: Seq<usize>,
    t: usize,
    res: Seq<usize>,
    ranges: Seq<(usize, usize)>,
    size: int,
    vals: Seq<usize>,
    tops: Seq<usize>,
)
    requires
        sets.len() == numbered.len(),
        forall|k: int| 0 <= k < res.len() ==> (#[trigger] res[k] as int) < sets.len(),
        forall|k: int| 0 <= k < res.len() ==> cands.contains(#[trigger] res[k]),
        res.contains(t),
        forall|k: int|
            0 <= k < cands.len() ==> #[trigger] rank_le(sets, numbered, cands[k] as int, t as int),
        is_chunking(ranges, res.len() as int, size),
        vals.len() == ranges.len(),
        forall|k: int|
            0 <= k < ranges.len() ==> #[trigger] vals[k] == top_of(
                sets,
                numbered,
                res.subrange(ranges[k].0 as int, ranges[k].1 as int),
            ),
        tops.to_multiset() == vals.to_multiset(),
    ensures
        tops.len() == ranges.len(),
        tops.contains(t),
        forall|k: int|
            0 <= k < tops.len() ==> cands.contains(#[trigger] tops[k]) && (tops[k] as int)
                < sets.len(),
{
    let n = res.len() as int;
    assert forall|k: int| 0 <= k < ranges.len() implies {
        &&& res.subrange(ranges[k].0 as int, ranges[k].1 as int).contains(
            #[trigger] vals[k],
        )
        &&& forall|i: int|
            ranges[k].0 <= i < ranges[k].1 ==> rank_le(
                sets,
                numbered,
                #[trigger] res[i] as int,
                vals[k] as int,
            )
    } by {
        let chunk = res.subrange(ranges[k].0 as int, ranges[k].1 as int);
        assert(ranges[k].0 < ranges[k].1 <= n) by {
            if k < ranges.len() - 1 {
                crate::reduce::lemma_chunks_ordered(ranges, n, size, k, ranges.len() - 1);
            }
        }
        lemma_top_of(sets, numbered, chunk);
        assert forall|i: int| ranges[k].0 <= i < ranges[k].1 implies rank_le(
            sets,
            numbered,
            #[trigger] res[i] as int,
            vals[k] as int,
        ) by {
            assert(chunk[i - ranges[k].0] == res[i]);
        }
    }
    let j = choose|j: int| 0 <= j < n && res[j] == t;
    lemma_chunks_partition(ranges, n, size, j);
    let k0 = choose|k: int| 0 <= k < ranges.len() && (#[trigger] ranges[k]).0 <= j < ranges[k].1;
    let y = vals[k0];
    let chunk0 = res.subrange(ranges[k0].0 as int, ranges[k0].1 as int);
    assert(chunk0.contains(y));
    let i0 = choose|i: int| 0 <= i < chunk0.len() && chunk0[i] == y;
    assert(res[ranges[k0].0 + i0] == y);
    assert(cands.contains(y));
    let c0 = choose|c: int| 0 <= c < cands.len() && cands[c] == y;
    assert(rank_le(sets, numbered, y as int, t as int));
    assert(rank_le(sets, numbered, res[j] as int, y as int));
    lemma_rank_le_total(sets, numbered, y as int, t as int);
    assert(vals.contains(t));
    vstd::seq_lib::to_multiset_contains(vals, t);
    vstd::seq_lib::to_multiset_contains(tops, t);
    assert(tops.contains(t));
    assert forall|k: int| 0 <= k < tops.len() implies cands.contains(#[trigger] tops[k])
        && (tops[k] as int) < sets.len() by {
        let x = tops[k];
        assert(tops.contains(x));
        vstd::seq_lib::to_multiset_contains(tops, x);
        vstd::seq_lib::to_multiset_contains(vals, x);
        assert(vals.contains(x));
        let kk = choose|kk: int| 0 <= kk < vals.len() && vals[kk] == x;
        let ch = res.subrange(ranges[kk].0 as int, ranges[kk].1 as int);
        assert(ch.contains(x));
        let ii = choose|ii: int| 0 <= ii < ch.len() && ch[ii] == x;
        assert(res[ranges[kk].0 + ii] == x);
    }
    vstd::seq_lib::to_multiset_len(tops);
    vstd::seq_lib::to_multiset_len(vals);
}

/// The filter phase of a selection leaves exactly the unnumbered vertices
/// among the survivors.
proof fn lemma_survivors(
    numbered: Seq<bool>,
    ranges: Seq<(usize, usize)>,
    size: int,
    vals: Seq<Vec<usize>>,
    parts: Seq<Vec<usize>>,
    cands: Seq<usize>,
)
    requires
        is_chunking(ranges, numbered.len() as int, size),
        vals.len() == ranges.len(),
        forall|k: int, x: usize|
            0 <= k < ranges.len() ==> (#[trigger] vals[k]@.contains(x) <==> ranges[k].0 <= x
                < ranges[k].1 && !numbered[x as int]),
        parts.to_multiset() == vals.to_multiset(),
        forall|x: usize|
            #[trigger] cands.contains(x) <==> exists|j: int|
                0 <= j < parts.len() && (#[trigger] parts[j])@.contains(x),
    ensures
        forall|x: usize| #[trigger] cands.contains(x) <==> x < numbered.len() && !numbered[x as int],
{
    assert forall|x: usize| #[trigger] cands.contains(x) implies x < numbered.len()
        && !numbered[x as int] by {
        let j = choose|j: int| 0 <= j < parts.len() && (#[trigger] parts[j])@.contains(x);
        assert(parts.contains(parts[j]));
        vstd::seq_lib::to_multiset_contains(parts, parts[j]);
        vstd::seq_lib::to_multiset_contains(vals, parts[j]);
        let k = choose|k: int| 0 <= k < vals.len() && vals[k] == parts[j];
        assert(vals[k]@.contains(x));
    }
    assert forall|x: usize| x < numbered.len() && !numbered[x as int] implies #[trigger] cands.contains(x) by {
        lemma_chunks_partition(ranges, numbered.len() as int, size, x as int);
        let k = choose|k: int| 0 <= k < ranges.len() && (#[trigger] ranges[k]).0 <= x < ranges[k].1;
        assert(vals[k]@.contains(x));
        assert(vals.contains(vals[k]));
        vstd::seq_lib::to_multiset_contains(vals, vals[k]);
        vstd::seq_lib::to_multiset_contains(parts, vals[k]);
        let j = choose|j: int| 0 <= j < parts.len() && parts[j] == vals[k];
        assert(parts[j]@.contains(x));
    }
}

/// Selects the highest-ranked unnumbered vertex on the pool: in a filter
/// phase each worker reports the unnumbered vertices of its chunk, and the
/// maximum reduction then runs over the survivors.
pub fn select2(pool: &mut Pool, sets: &Vec<LabelSet>, numbered: &Vec<bool>) -> (r: usize)
    requires
        sets@.len() == numbered@.len(),
        exists|v: int| 0 <= v < numbered@.len() && !numbered@[v],
    ensures
        is_selection(sets@, numbered@, r as int),
{
    let n = sets.len();
    let p = thread_count(pool) as usize;
    let size = if n == 0 {
        1
    } else {
        (n - 1) / p + 1
    };
    let ranges = chunk_ranges(n, size);
    let survivors_in = |lo: usize, hi: usize| -> (v: Vec<usize>)
        requires
            lo <= hi <= numbered@.len(),
        ensures
            forall|x: usize| #[trigger] v@.contains(x) <==> lo <= x < hi && !numbered@[x as int],
        { unnumbered_between(numbered, lo, hi) };
    let parts = pool_map(pool, &ranges, survivors_in);
    let cands = concat_parts(&parts);
    proof {
        let vals = choose|vals: Seq<Vec<usize>>|
            parts@.to_multiset() == #[trigger] vals.to_multiset() && vals.len() == ranges@.len()
                && forall|k: int|
                0 <= k < ranges@.len() ==> survivors_in.ensures(
                    (ranges@[k].0, ranges@[k].1),
                    #[trigger] vals[k],
                );
        assert forall|k: int, x: usize| 0 <= k < ranges@.len() implies (#[trigger] vals[k]@.contains(
            x,
        ) <==> ranges@[k].0 <= x < ranges@[k].1 && !numbered@[x as int]) by {
            assert(survivors_in.ensures((ranges@[k].0, ranges@[k].1), vals[k]));
        }
        lemma_survivors(numbered@, ranges@, size as int, vals, parts@, cands@);
        let w = choose|w: int| 0 <= w < numbered@.len() && !numbered@[w];
        assert(cands@.contains(w as usize));
        assert forall|k: int| 0 <= k < cands@.len() implies (#[trigger] cands@[k] as int) < sets@.len() by {
            assert(cands@.contains(cands@[k]));
        }
    }
    let ghost c = cands@;
    let u = pool_top(pool, sets, numbered, cands);
    proof {
        lemma_top_of(sets@, numbered@, c);
        assert(!numbered@[u as int]);
        assert forall|v: int| 0 <= v < sets@.len() implies #[trigger] rank_le(
            sets@,
            numbered@,
            v,
            u as int,
        ) by {
            if !numbered@[v] {
                assert(c.contains(v as usize));
                let k = choose|k: int| 0 <= k < c.len() && c[k] == v as usize;
                assert(rank_le(sets@, numbered@, c[k] as int, u as int));
            }
        }
        lemma_top_rank_selects(sets@, numbered@, u as int);
    }
    u
}

/// The sum of `values`, reduced on the pool in rounds: each round cuts the
/// entries into chunks of at least two, the workers report the sum of their
/// chunk, and the reports form the next round's entries, until one is left.
pub fn pool_sum(pool: &mut Pool, values: Vec<usize>) -> (r: usize)
    requires
        values@.len() >= 1,
        seq_sum(values@) <= usize::MAX,
    ensures
        r == seq_sum(values@),
{
    let ghost total = seq_sum(values@);
    let mut res = values;
    while res.len() != 1
        invariant
            res@.len() >= 1,
            seq_sum(res@) == total,
            total <= usize::MAX,
        decreases res@.len(),
    {
        let p = thread_count(pool) as usize;
        let size = if res.len() / p > 2 {
            res.len() / p
        } else {
            2
        };
        let ranges = chunk_ranges(res.len(), size);
        let sum_in = |lo: usize, hi: usize| -> (x: usize)
            requires
                lo <= hi <= res@.len(),
                seq_sum(res@) <= usize::MAX,
            ensures
                x == seq_sum(res@.subrange(lo as int, hi as int)),
            { sum_between(&res, lo, hi) };
        let sums = pool_map(pool, &ranges, sum_in);
        proof {
            let vals = choose|vals: Seq<usize>|
                sums@.to_multiset() == #[trigger] vals.to_multiset() && vals.len() == ranges@.len()
                    && forall|k: int|
                    0 <= k < ranges@.len() ==> sum_in.ensures(
                        (ranges@[k].0, ranges@[k].1),
                        #[trigger] vals[k],
                    );
            let chunk_sums = Seq::new(
                ranges@.len(),
                |k: int| seq_sum(res@.subrange(ranges@[k].0 as int, ranges@[k].1 as int)) as usize,
            );
            assert forall|k: int| 0 <= k < ranges@.len() implies #[trigger] vals[k] == chunk_sums[k] by {
                assert(sum_in.ensures((ranges@[k].0, ranges@[k].1), vals[k]));
            }
            assert(vals =~= chunk_sums);
            lemma_sum_chunks(res@, ranges@, size as int);
            lemma_sum_permutation(sums@, vals);
            vstd::seq_lib::to_multiset_len(sums@);
            vstd::seq_lib::to_multiset_len(vals);
        }
        res = sums;
    }
    assert(res@.drop_last() =~= Seq::<usize>::empty());
    assert(seq_sum(res@) == seq_sum(res@.drop_last()) + res@.last());
    assert(seq_sum(Seq::<usize>::empty()) == 0);
    res[0]
}

/// Counts the edges with both endpoints marked on the pool: each worker
/// counts the matching entries of its chunk of `edges`, the counts are
/// summed by the sum reduction, and the total is halved since each edge is
/// stored in the rows of both endpoints.
pub fn filter_reduce_edge_count(pool: &mut Pool, edges: &Vec<(u32, u32)>, marks: &Vec<bool>) -> (r: usize)
    ensures
        r == count_inside(edges@, marks@) / 2,
        r <= usize::MAX / 2,
{
    let p = thread_count(pool) as usize;
    let size = if edges.len() == 0 {
        1
    } else {
        (edges.len() - 1) / p + 1
    };
    let ranges = chunk_ranges(edges.len(), size);
    let count_in = |lo: usize, hi: usize| -> (c: usize)
        requires
            lo <= hi <= edges@.len(),
        ensures
            c == count_inside(edges@.subrange(lo as int, hi as int), marks@),
        { count_marked_between(edges.as_slice(), marks, lo, hi) };
    let counts = pool_map(pool, &ranges, count_in);
    let ghost ones = inside_ones(edges@, marks@);
    proof {
        let vals = choose|vals: Seq<usize>|
            counts@.to_multiset() == #[trigger] vals.to_multiset() && vals.len() == ranges@.len()
                && forall|k: int|
                0 <= k < ranges@.len() ==> count_in.ensures(
                    (ranges@[k].0, ranges@[k].1),
                    #[trigger] vals[k],
                );
        lemma_count_inside_sum(edges@, marks@);
        lemma_count_inside_bound(edges@, marks@);
        let chunk_sums = Seq::new(
            ranges@.len(),
            |k: int| seq_sum(ones.subrange(ranges@[k].0 as int, ranges@[k].1 as int)) as usize,
        );
        assert forall|k: int| 0 <= k < ranges@.len() implies #[trigger] vals[k] == chunk_sums[k] by {
            let lo = ranges@[k].0 as int;
            let hi = ranges@[k].1 as int;
            assert(count_in.ensures((ranges@[k].0, ranges@[k].1), vals[k]));
            lemma_count_inside_sum(edges@.subrange(lo, hi), marks@);
            assert(inside_ones(edges@.subrange(lo, hi), marks@) =~= ones.subrange(lo, hi));
            lemma_sum_range_bound(ones, lo, hi);
        }
        assert(vals =~= chunk_sums);
        lemma_sum_chunks(ones, ranges@, size as int);
        lemma_sum_permutation(counts@, vals);
        vstd::seq_lib::to_multiset_len(counts@);
        vstd::seq_lib::to_multiset_len(vals);
        if counts@.len() == 0 {
            assert(edges@.len() == 0);
            assert(edges@ =~= Seq::<(u32, u32)>::empty());
        }
    }
    if counts.len() == 0 {
        return 0;
    }
    let total = pool_sum(pool, counts);
    total / 2
}

/// Computes the LexBFS elimination ordering of `graph` on `pool`: each
/// selection is the filter and maximum reduction of `select2`, and each
/// label update cuts the label sets into one chunk per thread.
pub fn naive_lex_bfs(pool: &mut Pool, graph: &Graph) -> (r: Vec<i32>)
    requires
        csr_rows(*graph).len() <= i32::MAX,
    ensures
        is_lexbfs_ordering(csr_rows(*graph), r@),
{
    let n = vertex_count(graph);
    let ghost rows = csr_rows(*graph);
    let mut st = LexBfsState::new(n);
    assert(st.inv(rows));
    while st.round > 0
        invariant
            rows == csr_rows(*graph),
            n == rows.len(),
            st.inv(rows),
        decreases st.round,
    {
        proof {
            st.lemma_some_unnumbered(rows);
        }
        let u = select2(pool, &st.sets, &st.numbered);
        let ghost before = st;
        st.number(u);
        let nbrs = neighbors(graph, u as u32);
        let (marks, _) = candidate(nbrs, &st.numbered);
        proof {
            assert forall|v: int, k: int|
                0 <= v < n && marks@[v] && 0 <= k < st.sets@[v]@.len()
                    implies #[trigger] st.sets@[v]@[k] >= st.round by {
                lemma_label_bounds(rows, before.output@, v, before.round - 1);
            }
        }
        let p = thread_count(pool) as usize;
        pool_label(pool, &mut st.sets, &marks, (n - 1) / p + 1, st.round);
        proof {
            assert(is_update(before.sets@, st.sets@, st.numbered@, rows[u as int], st.round));
            LexBfsState::lemma_round(rows, before, st, u as int);
        }
    }
    proof {
        st.lemma_done(rows);
    }
    st.output
}

/// Replays `scheme` on `graph` like the serial verifier, counting the edges
/// inside each candidate clique on `pool`.
pub fn is_pes(pool: &mut Pool, scheme: &[i32], graph: &Graph) -> (r: bool)
    requires
        csr_rows(*graph).len() <= i32::MAX,
        valid_scheme(csr_rows(*graph), scheme@),
    ensures
        r == is_perfect_elimination(csr_rows(*graph), scheme@),
{
    let n = vertex_count(graph);
    let ghost rows = csr_rows(*graph);
    let edges = edge_list(graph);
    let mut eliminated = vec![false; n];
    let mut k: usize = 0;
    assert(eliminated@ =~= Seq::new(n as nat, |v: int| scheme@.subrange(0, 0).contains(v as i32)));
    while k < scheme.len()
        invariant
            rows == csr_rows(*graph),
            n == rows.len(),
            n <= i32::MAX,
            valid_scheme(rows, scheme@),
            rows_in_range(rows),
            edges@ == crate::graph::edge_entries(rows),
            k <= scheme@.len(),
            eliminated@ == Seq::new(n as nat, |v: int| scheme@.subrange(0, k as int).contains(v as i32)),
            forall|j: int| 0 <= j < k ==> #[trigger] step_ok(rows, scheme@, j),
        decreases scheme@.len() - k,
    {
        let v = scheme[k] as usize;
        crate::pes::eliminate(&mut eliminated, scheme, k);
        let nbrs = neighbors(graph, v as u32);
        let (marks, size) = candidate(nbrs, &eliminated);
        assert(marks@ =~= candidate_marks(rows, scheme@, k as int));
        let count = filter_reduce_edge_count(pool, &edges, &marks);
        if !clique_size_matches(count, size) {
            assert(!step_ok(rows, scheme@, k as int));
            return false;
        }
        k = k + 1;
    }
    true
}

/// Whether `graph` is chordal, with the LexBFS and the verifier both run on
/// `pool`.
pub fn is_chordal(pool: &mut Pool, graph: &Graph) -> (r: bool)
    requires
        csr_rows(*graph).len() <= i32::MAX,
    ensures
        r == chordality(csr_rows(*graph)),
{
    let scheme = naive_lex_bfs(pool, graph);
    proof {
        lemma_elimination_check_strategy_invariant(csr_rows(*graph), scheme@, scheme@);
    }
    is_pes(pool, scheme.as_slice(), graph)
}

} // verus!
