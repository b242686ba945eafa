use vstd::prelude::*;

use crate::common::LabelSet;
use crate::lexbfs::{lemma_cand_le_total, lemma_cand_le_transitive, rank_cmp, rank_le};

verus! {

/// `ranges` cuts `0..len` into non-empty contiguous chunks of at most `size`
/// indices each, in order; all but the last hold exactly `size`.
pub open spec fn is_chunking(ranges: Seq<(usize, usize)>, len: int, size: int) -> bool {
    &&& (ranges.len() == 0) == (len == 0)
    &&& ranges.len() > 0 ==> ranges[0].0 == 0 && ranges.last().1 == len
    &&& forall|k: int|
        0 <= k < ranges.len() ==> (#[trigger] ranges[k]).0 < ranges[k].1 && ranges[k].1
            - ranges[k].0 <= size && ranges[k].1 <= len
    &&& forall|k: int| 0 <= k < ranges.len() - 1 ==> (#[trigger] ranges[k]).1 == ranges[k + 1].0
    &&& forall|k: int| 0 <= k < ranges.len() - 1 ==> (#[trigger] ranges[k]).1 - ranges[k].0 == size
}

/// Splits `0..len` into contiguous chunks of `size` indices, the last one
/// possibly shorter.
pub fn chunk_ranges(len: usize, size: usize) -> (r: Vec<(usize, usize)>)
    requires
        size > 0,
    ensures
        is_chunking(r@, len as int, size as int),
        size >= 2 && len >= 2 ==> r@.len() < len,
        r@.len() <= len,
{
    let mut r: Vec<(usize, usize)> = Vec::new();
    let mut lo: usize = 0;
    while lo < len
        invariant
            lo <= len,
            size > 0,
            (r@.len() == 0) == (lo == 0),
            r@.len() > 0 ==> r@[0].0 == 0 && r@.last().1 == lo,
            forall|k: int|
                0 <= k < r@.len() ==> (#[trigger] r@[k]).0 < r@[k].1 && r@[k].1 - r@[k].0 <= size
                    && r@[k].1 <= lo,
            forall|k: int| 0 <= k < r@.len() - 1 ==> (#[trigger] r@[k]).1 == r@[k + 1].0,
            forall|k: int| 0 <= k < r@.len() - 1 ==> (#[trigger] r@[k]).1 - r@[k].0 == size,
            lo < len && r@.len() > 0 ==> r@.last().1 - r@.last().0 == size,
            r@.len() <= lo,
            r@.len() > 0 ==> lo >= (r@.len() - 1) * size + 1,
            lo < len ==> lo == r@.len() * size,
        decreases len - lo,
    {
        let hi = if len - lo > size {
            lo + size
        } else {
            len
        };
        let ghost m = r@.len();
        r.push((lo, hi));
        assert((m + 1) * size == m * size + size) by (nonlinear_arith);
        lo = hi;
    }
    if size >= 2 && len >= 2 {
        let ghost m = r@.len() as int;
        assert((m - 1) * size >= (m - 1) * 2) by (nonlinear_arith)
            requires
                size >= 2,
                m >= 1,
        ;
    }
    r
}

/// Every index of `0..len` lies in exactly one chunk of a chunking: the
/// chunks handed to different workers never share an index.
pub proof fn lemma_chunks_partition(ranges: Seq<(usize, usize)>, len: int, size: int, j: int)
    requires
        is_chunking(ranges, len, size),
        0 <= j < len,
    ensures
        exists|k: int| 0 <= k < ranges.len() && (#[trigger] ranges[k]).0 <= j < ranges[k].1,
        forall|k1: int, k2: int|
            0 <= k1 < ranges.len() && 0 <= k2 < ranges.len() && (#[trigger] ranges[k1]).0 <= j
                < ranges[k1].1 && (#[trigger] ranges[k2]).0 <= j < ranges[k2].1 ==> k1 == k2,
{
    lemma_chunk_cover(ranges, len, size, j, 0);
    assert forall|k1: int, k2: int|
        0 <= k1 < ranges.len() && 0 <= k2 < ranges.len() && (#[trigger] ranges[k1]).0 <= j
            < ranges[k1].1 && (#[trigger] ranges[k2]).0 <= j < ranges[k2].1 implies k1 == k2 by {
        if k1 < k2 {
            lemma_chunks_ordered(ranges, len, size, k1, k2);
        } else if k2 < k1 {
            lemma_chunks_ordered(ranges, len, size, k2, k1);
        }
    }
}

proof fn lemma_chunk_cover(ranges: Seq<(usize, usize)>, len: int, size: int, j: int, k: int)
    requires
        is_chunking(ranges, len, size),
        0 <= j < len,
        0 <= k < ranges.len(),
        ranges[k].0 <= j,
    ensures
        exists|t: int| 0 <= t < ranges.len() && (#[trigger] ranges[t]).0 <= j < ranges[t].1,
    decreases ranges.len() - k,
{
    if j >= ranges[k].1 {
        assert(k < ranges.len() - 1);
        lemma_chunk_cover(ranges, len, size, j, k + 1);
    }
}

/// A later chunk starts where or after an earlier one ends.
pub proof fn lemma_chunks_ordered(ranges: Seq<(usize, usize)>, len: int, size: int, k1: int, k2: int)
    requires
        is_chunking(ranges, len, size),
        0 <= k1 < k2 < ranges.len(),
    ensures
        ranges[k1].1 <= ranges[k2].0,
    decreases k2 - k1,
{
    if k1 + 1 < k2 {
        lemma_chunks_ordered(ranges, len, size, k1 + 1, k2);
    }
}

/// The highest-ranked vertex of a non-empty sequence of vertices, found by a
/// scan that keeps the later of two equally ranked entries.
pub open spec fn top_of(sets: Seq<LabelSet>, numbered: Seq<bool>, s: Seq<usize>) -> usize
    decreases s.len(),
{
    if s.len() <= 1 {
        s[0]
    } else {
        let a = top_of(sets, numbered, s.drop_last());
        if rank_le(sets, numbered, s.last() as int, a as int) {
            a
        } else {
            s.last()
        }
    }
}

/// The scan's result is an entry of the sequence that ranks at least as
/// high as every entry.
pub proof fn lemma_top_of(sets: Seq<LabelSet>, numbered: Seq<bool>, s: Seq<usize>)
    requires
        s.len() >= 1,
        sets.len() == numbered.len(),
        forall|k: int| 0 <= k < s.len() ==> (#[trigger] s[k] as int) < sets.len(),
    ensures
        s.contains(top_of(sets, numbered, s)),
        forall|k: int|
            0 <= k < s.len() ==> #[trigger] rank_le(
                sets,
                numbered,
                s[k] as int,
                top_of(sets, numbered, s) as int,
            ),
    decreases s.len(),
{
    let t = top_of(sets, numbered, s);
    if s.len() == 1 {
        lemma_rank_le_total(sets, numbered, s[0] as int, s[0] as int);
        assert(s[0] == t);
    } else {
        let p = s.drop_last();
        lemma_top_of(sets, numbered, p);
        let a = top_of(sets, numbered, p);
        let x = s.last();
        lemma_rank_le_total(sets, numbered, x as int, a as int);
        if rank_le(sets, numbered, x as int, a as int) {
            let i = choose|i: int| 0 <= i < p.len() && p[i] == a;
            assert(s[i] == t);
            assert forall|k: int| 0 <= k < s.len() implies #[trigger] rank_le(
                sets,
                numbered,
                s[k] as int,
                t as int,
            ) by {
                if k < p.len() {
                    assert(p[k] == s[k]);
                }
            }
        } else {
            assert(s[s.len() - 1] == t);
            assert forall|k: int| 0 <= k < s.len() implies #[trigger] rank_le(
                sets,
                numbered,
                s[k] as int,
                t as int,
            ) by {
                if k < p.len() {
                    assert(p[k] == s[k]);
                    lemma_rank_le_transitive(sets, numbered, s[k] as int, a as int, x as int);
                } else {
                    lemma_rank_le_total(sets, numbered, x as int, x as int);
                }
            }
        }
    }
}

/// The rank order is total, and two vertices that rank at least as high as
/// each other are the same vertex.
pub proof fn lemma_rank_le_total(sets: Seq<LabelSet>, numbered: Seq<bool>, a: int, b: int)
    ensures
        rank_le(sets, numbered, a, b) || rank_le(sets, numbered, b, a),
        rank_le(sets, numbered, a, b) && rank_le(sets, numbered, b, a) ==> a == b,
{
    lemma_cand_le_total(sets[a]@, a, sets[b]@, b);
}

/// The rank order is transitive.
pub proof fn lemma_rank_le_transitive(
    sets: Seq<LabelSet>,
    numbered: Seq<bool>,
    a: int,
    b: int,
    c: int,
)
    requires
        rank_le(sets, numbered, a, b),
        rank_le(sets, numbered, b, c),
    ensures
        rank_le(sets, numbered, a, c),
{
    if numbered[a] == numbered[b] && numbered[b] == numbered[c] {
        lemma_cand_le_transitive(sets[a]@, a, sets[b]@, b, sets[c]@, c);
    }
}

/// The highest-ranked entry of `s[lo..hi]`: the work of one worker in a
/// round of the maximum reduction.
pub fn chunk_top(sets: &Vec<LabelSet>, numbered: &Vec<bool>, s: &Vec<usize>, lo: usize, hi: usize) -> (r: usize)
    requires
        lo < hi <= s@.len(),
        sets@.len() == numbered@.len(),
        forall|k: int| 0 <= k < s@.len() ==> (#[trigger] s@[k] as int) < sets@.len(),
    ensures
        r == top_of(sets@, numbered@, s@.subrange(lo as int, hi as int)),
{
    let mut best = s[lo];
    let mut i: usize = lo + 1;
    assert(s@.subrange(lo as int, lo + 1) =~= seq![s@[lo as int]]);
    while i < hi
        invariant
            lo < i <= hi <= s@.len(),
            sets@.len() == numbered@.len(),
            forall|k: int| 0 <= k < s@.len() ==> (#[trigger] s@[k] as int) < sets@.len(),
            best == top_of(sets@, numbered@, s@.subrange(lo as int, i as int)),
        decreases hi - i,
    {
        assert(s@.subrange(lo as int, i + 1).drop_last() =~= s@.subrange(lo as int, i as int));
        proof {
            lemma_top_of(sets@, numbered@, s@.subrange(lo as int, i as int));
        }
        match rank_cmp(sets, numbered, s[i], best) {
            std::cmp::Ordering::Greater => {
                best = s[i];
            },
            _ => {},
        }
        i = i + 1;
    }
    best
}

/// The sum of a sequence.
pub open spec fn seq_sum(s: Seq<usize>) -> int
    decreases s.len(),
{
    if s.len() == 0 {
        0
    } else {
        seq_sum(s.drop_last()) + s.last()
    }
}

/// Sums split at any point of a range.
pub proof fn lemma_sum_split(s: Seq<usize>, a: int, b: int, c: int)
    requires
        0 <= a <= b <= c <= s.len(),
    ensures
        seq_sum(s.subrange(a, c)) == seq_sum(s.subrange(a, b)) + seq_sum(s.subrange(b, c)),
    decreases c - b,
{
    if b < c {
        lemma_sum_split(s, a, b, c - 1);
        assert(s.subrange(a, c).drop_last() =~= s.subrange(a, c - 1));
        assert(s.subrange(b, c).drop_last() =~= s.subrange(b, c - 1));
    } else {
        assert(s.subrange(b, c) =~= Seq::<usize>::empty());
    }
}

/// A sum holds no less than the sum of any range of it.
pub proof fn lemma_sum_nonneg(s: Seq<usize>)
    ensures
        seq_sum(s) >= 0,
    decreases s.len(),
{
    if s.len() > 0 {
        lemma_sum_nonneg(s.drop_last());
    }
}

/// The sum of a range lies between zero and the whole sum.
pub proof fn lemma_sum_range_bound(s: Seq<usize>, a: int, b: int)
    requires
        0 <= a <= b <= s.len(),
    ensures
        0 <= seq_sum(s.subrange(a, b)) <= seq_sum(s),
{
    lemma_sum_split(s, 0, a, s.len() as int);
    lemma_sum_split(s, a, b, s.len() as int);
    lemma_sum_nonneg(s.subrange(0, a));
    lemma_sum_nonneg(s.subrange(a, b));
    lemma_sum_nonneg(s.subrange(b, s.len() as int));
    assert(s.subrange(0, s.len() as int) =~= s);
}

/// Removing an entry takes it off the sum.
proof fn lemma_sum_remove(s: Seq<usize>, i: int)
    requires
        0 <= i < s.len(),
    ensures
        seq_sum(s) == seq_sum(s.remove(i)) + s[i],
    decreases s.len(),
{
    if i < s.len() - 1 {
        assert(s.remove(i).drop_last() =~= s.drop_last().remove(i));
        lemma_sum_remove(s.drop_last(), i);
    } else {
        assert(s.remove(i) =~= s.drop_last());
    }
}

/// Sequences with the same entries, in any order, have the same sum.
pub proof fn lemma_sum_permutation(s: Seq<usize>, t: Seq<usize>)
    requires
        s.to_multiset() == t.to_multiset(),
    ensures
        seq_sum(s) == seq_sum(t),
    decreases s.len(),
{
    broadcast use vstd::seq_lib::group_to_multiset_ensures;

    vstd::seq_lib::to_multiset_len(s);
    vstd::seq_lib::to_multiset_len(t);
    if s.len() == 0 {
        assert(t.len() == 0);
    } else {
        let x = s.last();
        assert(s.to_multiset().count(x) > 0);
        assert(t.contains(x));
        let j = choose|j: int| 0 <= j < t.len() && t[j] == x;
        assert(s.drop_last().push(x) =~= s);
        assert(s.drop_last().to_multiset() =~= s.to_multiset().remove(x));
        lemma_sum_permutation(s.drop_last(), t.remove(j));
        lemma_sum_remove(t, j);
    }
}

/// The sums of the chunks of a chunking add up to the whole sum.
pub proof fn lemma_sum_chunks(s: Seq<usize>, ranges: Seq<(usize, usize)>, size: int)
    requires
        is_chunking(ranges, s.len() as int, size),
        seq_sum(s) <= usize::MAX,
    ensures
        seq_sum(
            Seq::new(
                ranges.len(),
                |k: int| seq_sum(s.subrange(ranges[k].0 as int, ranges[k].1 as int)) as usize,
            ),
        ) == seq_sum(s),
{
    let sums = Seq::new(
        ranges.len(),
        |k: int| seq_sum(s.subrange(ranges[k].0 as int, ranges[k].1 as int)) as usize,
    );
    if ranges.len() > 0 {
        lemma_sum_chunks_prefix(s, ranges, size, ranges.len() as int);
        assert(sums.subrange(0, ranges.len() as int) =~= sums);
        assert(s.subrange(0, s.len() as int) =~= s);
    } else {
        assert(s.len() == 0);
    }
}

proof fn lemma_sum_chunks_prefix(s: Seq<usize>, ranges: Seq<(usize, usize)>, size: int, m: int)
    requires
        is_chunking(ranges, s.len() as int, size),
        seq_sum(s) <= usize::MAX,
        1 <= m <= ranges.len(),
    ensures
        seq_sum(
            Seq::new(
                ranges.len(),
                |k: int| seq_sum(s.subrange(ranges[k].0 as int, ranges[k].1 as int)) as usize,
            ).subrange(0, m),
        ) == seq_sum(s.subrange(0, ranges[m - 1].1 as int)),
    decreases m,
{
    let sums = Seq::new(
        ranges.len(),
        |k: int| seq_sum(s.subrange(ranges[k].0 as int, ranges[k].1 as int)) as usize,
    );
    let c = sums.subrange(0, m);
    let lo = ranges[m - 1].0 as int;
    let hi = ranges[m - 1].1 as int;
    assert(ranges[m - 1].0 < ranges[m - 1].1);
    assert(hi <= s.len()) by {
        if m < ranges.len() {
            lemma_chunks_ordered(ranges, s.len() as int, size, m - 1, ranges.len() - 1);
        }
    }
    lemma_sum_range_bound(s, lo, hi);
    assert(c.drop_last() =~= sums.subrange(0, m - 1));
    assert(c.last() == seq_sum(s.subrange(lo, hi)));
    assert(seq_sum(c) == seq_sum(c.drop_last()) + c.last());
    if m == 1 {
        assert(sums.subrange(0, 0) =~= Seq::<usize>::empty());
        assert(lo == 0);
    } else {
        lemma_sum_chunks_prefix(s, ranges, size, m - 1);
        assert(ranges[m - 2].1 == lo);
        lemma_sum_split(s, 0, lo, hi);
    }
}

/// The sum of `s[lo..hi]`: the work of one worker in a round of the sum
/// reduction.
pub fn sum_between(s: &Vec<usize>, lo: usize, hi: usize) -> (r: usize)
    requires
        lo <= hi <= s@.len(),
        seq_sum(s@) <= usize::MAX,
    ensures
        r == seq_sum(s@.subrange(lo as int, hi as int)),
{
    let mut acc: usize = 0;
    let mut i: usize = lo;
    assert(s@.subrange(lo as int, lo as int) =~= Seq::<usize>::empty());
    while i < hi
        invariant
            lo <= i <= hi <= s@.len(),
            seq_sum(s@) <= usize::MAX,
            acc == seq_sum(s@.subrange(lo as int, i as int)),
        decreases hi - i,
    {
        assert(s@.subrange(lo as int, i + 1).drop_last() =~= s@.subrange(lo as int, i as int));
        proof {
            lemma_sum_range_bound(s@, lo as int, i + 1);
        }
        acc = acc + s[i];
        i = i + 1;
    }
    acc
}

} // verus!
