use std::cmp::Ordering;

use vstd::prelude::*;
use vstd::set_lib::{lemma_int_range, lemma_len_subset, lemma_subset_equality, set_int_range};

use crate::common::{
    lemma_lex_cmp_order, lemma_lex_cmp_transitive, lex_cmp, lex_le, strictly_decreasing,
    with_round, LabelSet,
};
use crate::graph::{adjacent, rows_in_range};

verus! {

/// The label of vertex `v` when round `i` is about to select: the rounds
/// `j > i` whose selected vertex `order[j]` lists `v` as a neighbour,
/// largest first.
pub open spec fn label_at(rows: Seq<Seq<u32>>, order: Seq<i32>, v: int, i: int) -> Seq<usize>
    decreases order.len() - i,
{
    if i + 1 >= order.len() {
        Seq::empty()
    } else {
        let prev = label_at(rows, order, v, i + 1);
        if adjacent(rows, order[i + 1] as int, v) {
            prev.push((i + 1) as usize)
        } else {
            prev
        }
    }
}

/// Vertex `v` has not been selected in any round after `i`.
pub open spec fn unnumbered_at(order: Seq<i32>, v: int, i: int) -> bool {
    !order.subrange(i + 1, order.len() as int).contains(v as i32)
}

/// Candidate `(a, v)` does not rank above candidate `(b, u)`: labels are
/// compared first, and equal labels are ordered by vertex id.
pub open spec fn cand_le(a: Seq<usize>, v: int, b: Seq<usize>, u: int) -> bool {
    lex_cmp(a, b) == Ordering::Less || (lex_cmp(a, b) == Ordering::Equal && v <= u)
}

/// `order` lists every vertex of `0..n` exactly once.
pub open spec fn is_vertex_permutation(order: Seq<i32>, n: int) -> bool {
    &&& order.len() == n
    &&& forall|k: int| 0 <= k < n ==> 0 <= #[trigger] order[k] < n
    &&& forall|a: int, b: int| 0 <= a < b < n ==> order[a] != order[b]
    &&& forall|v: int| 0 <= v < n ==> #[trigger] order.contains(v as i32)
}

/// `order` is the ordering that the LexBFS engine computes: a permutation of
/// the vertices whose entry `i`, chosen in round `i` (rounds run from `n - 1`
/// down to `0`), ranks highest among the vertices not yet chosen, by label
/// and then by id.
pub open spec fn is_lexbfs_ordering(rows: Seq<Seq<u32>>, order: Seq<i32>) -> bool {
    &&& is_vertex_permutation(order, rows.len() as int)
    &&& forall|i: int, v: int|
        0 <= i < rows.len() && 0 <= v < rows.len() && unnumbered_at(order, v, i) ==> cand_le(
            #[trigger] label_at(rows, order, v, i),
            v,
            label_at(rows, order, order[i] as int, i),
            order[i] as int,
        )
}

/// Vertex `u` ranks highest among the vertices not marked in `numbered`.
pub open spec fn is_selection(sets: Seq<LabelSet>, numbered: Seq<bool>, u: int) -> bool {
    &&& 0 <= u < sets.len()
    &&& u < numbered.len()
    &&& !numbered[u]
    &&& forall|v: int|
        0 <= v < sets.len() && v < numbered.len() && !numbered[v] ==> cand_le(
            #[trigger] sets[v]@,
            v,
            sets[u]@,
            u,
        )
}

/// `new` is `old` after `round` was added to the label set of every vertex
/// that is listed in `nbrs` and not marked in `numbered`.
pub open spec fn is_update(
    old: Seq<LabelSet>,
    new: Seq<LabelSet>,
    numbered: Seq<bool>,
    nbrs: Seq<u32>,
    round: usize,
) -> bool {
    &&& new.len() == old.len()
    &&& forall|v: int| 0 <= v < old.len() ==> (#[trigger] new[v]).wf()
    &&& forall|v: int|
        0 <= v < old.len() ==> (#[trigger] new[v])@ == if !numbered[v] && nbrs.contains(
            v as u32,
        ) {
            with_round(old[v]@, round)
        } else {
            old[v]@
        }
}

/// The ranking of candidates is transitive.
pub proof fn lemma_cand_le_transitive(
    a: Seq<usize>,
    v: int,
    b: Seq<usize>,
    w: int,
    c: Seq<usize>,
    u: int,
)
    requires
        cand_le(a, v, b, w),
        cand_le(b, w, c, u),
    ensures
        cand_le(a, v, c, u),
{
    lemma_lex_cmp_order(a, b);
    lemma_lex_cmp_order(b, c);
    lemma_lex_cmp_order(a, c);
    lemma_lex_cmp_transitive(a, b, c);
}

/// The ranking of candidates is total.
pub proof fn lemma_cand_le_total(a: Seq<usize>, v: int, b: Seq<usize>, w: int)
    ensures
        cand_le(a, v, b, w) || cand_le(b, w, a, v),
        cand_le(a, v, b, w) && cand_le(b, w, a, v) ==> a == b && v == w,
{
    lemma_lex_cmp_order(a, b);
}

/// A label depends only on the rounds after it.
pub proof fn lemma_label_frame(rows: Seq<Seq<u32>>, o1: Seq<i32>, o2: Seq<i32>, v: int, i: int)
    requires
        o1.len() == o2.len(),
        forall|j: int| i < j < o1.len() ==> o1[j] == o2[j],
    ensures
        label_at(rows, o1, v, i) == label_at(rows, o2, v, i),
    decreases o1.len() - i,
{
    if i + 1 < o1.len() {
        lemma_label_frame(rows, o1, o2, v, i + 1);
    }
}

/// A label holds rounds above `i`, largest first.
pub proof fn lemma_label_bounds(rows: Seq<Seq<u32>>, order: Seq<i32>, v: int, i: int)
    requires
        -1 <= i,
        order.len() <= usize::MAX,
    ensures
        strictly_decreasing(label_at(rows, order, v, i)),
        forall|k: int|
            0 <= k < label_at(rows, order, v, i).len() ==> label_at(rows, order, v, i)[k] > i
                && label_at(rows, order, v, i)[k] < order.len(),
    decreases order.len() - i,
{
    if i + 1 < order.len() {
        lemma_label_bounds(rows, order, v, i + 1);
        let prev = label_at(rows, order, v, i + 1);
        if adjacent(rows, order[i + 1] as int, v) {
            let cur = prev.push((i + 1) as usize);
            assert(cur[prev.len() as int] == i + 1);
            assert forall|a: int, b: int| 0 <= a < b < cur.len() implies cur[a] > cur[b] by {
                if b < prev.len() {
                    assert(cur[a] == prev[a] && cur[b] == prev[b]);
                } else {
                    assert(cur[a] == prev[a]);
                }
            }
        }
    }
}

/// Distinct ids drawn from `0..n` number at most `n`; when they number `n`,
/// every id is among them.
pub proof fn lemma_distinct_ids(s: Seq<i32>, n: int)
    requires
        0 <= n <= i32::MAX,
        forall|k: int| 0 <= k < s.len() ==> 0 <= #[trigger] s[k] < n,
        forall|a: int, b: int| 0 <= a < b < s.len() ==> s[a] != s[b],
    ensures
        s.len() <= n,
        s.len() < n ==> exists|v: int| 0 <= v < n && !#[trigger] s.contains(v as i32),
        s.len() == n ==> forall|v: int| 0 <= v < n ==> #[trigger] s.contains(v as i32),
{
    let t = s.map_values(|x: i32| x as int);
    assert forall|a: int, b: int| 0 <= a < t.len() && 0 <= b < t.len() && a != b implies t[a]
        != t[b] by {
        if a < b {
            assert(s[a] != s[b]);
        } else {
            assert(s[b] != s[a]);
        }
    }
    assert(t.no_duplicates());
    t.unique_seq_to_set();
    vstd::seq_lib::seq_to_set_is_finite(t);
    let range = set_int_range(0, n);
    lemma_int_range(0, n);
    assert(t.to_set().subset_of(range)) by {
        assert forall|x: int| t.to_set().contains(x) implies range.contains(x) by {
            let k = choose|k: int| 0 <= k < t.len() && t[k] == x;
            assert(0 <= s[k] < n);
        }
    }
    lemma_len_subset(t.to_set(), range);
    if s.len() < n {
        if forall|v: int| 0 <= v < n ==> #[trigger] s.contains(v as i32) {
            assert(range.subset_of(t.to_set())) by {
                assert forall|x: int| range.contains(x) implies t.to_set().contains(x) by {
                    assert(s.contains(x as i32));
                    let k = choose|k: int| 0 <= k < s.len() && s[k] == x as i32;
                    assert(t[k] == x);
                }
            }
            lemma_len_subset(range, t.to_set());
        }
    }
    if s.len() == n {
        lemma_subset_equality(t.to_set(), range);
        assert forall|v: int| 0 <= v < n implies #[trigger] s.contains(v as i32) by {
            assert(range.contains(v));
            assert(t.to_set().contains(v));
            let k = choose|k: int| 0 <= k < t.len() && t[k] == v;
            assert(s[k] == v as i32);
        }
    }
}

/// The working state of one LexBFS run: a label set and a mark for each
/// vertex, the ordering filled so far, and the number of rounds still to do.
/// Round `round - 1` is the next one.
pub struct LexBfsState {
    pub sets: Vec<LabelSet>,
    pub numbered: Vec<bool>,
    pub output: Vec<i32>,
    pub round: usize,
}

impl LexBfsState {
    /// The state agrees with the rounds done so far on `rows`.
    pub open spec fn inv(&self, rows: Seq<Seq<u32>>) -> bool {
        let n = rows.len() as int;
        let r = self.round as int;
        &&& rows_in_range(rows)
        &&& n <= i32::MAX
        &&& self.sets@.len() == n
        &&& self.numbered@.len() == n
        &&& self.output@.len() == n
        &&& r <= n
        &&& forall|j: int| r <= j < n ==> 0 <= #[trigger] self.output@[j] < n
        &&& forall|a: int, b: int| r <= a < b < n ==> self.output@[a] != self.output@[b]
        &&& forall|v: int|
            0 <= v < n ==> (#[trigger] self.numbered@[v] <==> self.output@.subrange(r, n).contains(
                v as i32,
            ))
        &&& forall|v: int| 0 <= v < n ==> (#[trigger] self.sets@[v]).wf()
        &&& forall|v: int|
            0 <= v < n && !self.numbered@[v] ==> (#[trigger] self.sets@[v])@ == label_at(
                rows,
                self.output@,
                v,
                r - 1,
            )
        &&& forall|j: int, v: int|
            r <= j < n && 0 <= v < n && unnumbered_at(self.output@, v, j) ==> cand_le(
                #[trigger] label_at(rows, self.output@, v, j),
                v,
                label_at(rows, self.output@, self.output@[j] as int, j),
                self.output@[j] as int,
            )
    }

    /// The state before the first round on a graph of `n` vertices.
    pub fn new(n: usize) -> (r: LexBfsState)
        ensures
            r.round == n,
            forall|rows: Seq<Seq<u32>>|
                rows.len() == n && n <= i32::MAX && rows_in_range(rows) ==> #[trigger] r.inv(rows),
    {
        let mut sets: Vec<LabelSet> = Vec::new();
        let mut k: usize = 0;
        while k < n
            invariant
                k <= n,
                sets@.len() == k,
                forall|v: int| 0 <= v < k ==> (#[trigger] sets@[v])@ == Seq::<usize>::empty(),
                forall|v: int| 0 <= v < k ==> (#[trigger] sets@[v]).wf(),
            decreases n - k,
        {
            sets.push(LabelSet::new());
            k = k + 1;
        }
        let st = LexBfsState { sets, numbered: vec![false; n], output: vec![0; n], round: n };
        assert forall|rows: Seq<Seq<u32>>|
            rows.len() == n && n <= i32::MAX && rows_in_range(rows) implies #[trigger] st.inv(
            rows,
        ) by {
            assert forall|v: int| 0 <= v < n implies (#[trigger] st.numbered@[v]
                <==> st.output@.subrange(n as int, n as int).contains(v as i32)) by {
                assert(st.output@.subrange(n as int, n as int).len() == 0);
            }
            assert forall|v: int| 0 <= v < n && !st.numbered@[v] implies (#[trigger] st.sets@[v])@
                == label_at(rows, st.output@, v, n - 1) by {
                assert(label_at(rows, st.output@, v, n - 1) == Seq::<usize>::empty());
            }
        }
        st
    }

    /// Some vertex is still unnumbered while rounds remain.
    pub proof fn lemma_some_unnumbered(&self, rows: Seq<Seq<u32>>)
        requires
            self.inv(rows),
            self.round > 0,
        ensures
            exists|v: int| 0 <= v < rows.len() && !self.numbered@[v],
    {
        let n = rows.len() as int;
        let s = self.output@.subrange(self.round as int, n);
        lemma_distinct_ids(s, n);
        let v = choose|v: int| 0 <= v < n && !#[trigger] s.contains(v as i32);
        assert(!self.numbered@[v]);
    }

    /// Records `u` as the vertex of the next round.
    pub fn number(&mut self, u: usize)
        requires
            old(self).round > 0,
            u < old(self).numbered@.len(),
            old(self).round <= old(self).output@.len(),
            u <= i32::MAX,
        ensures
            final(self).round == old(self).round - 1,
            final(self).output@ == old(self).output@.update(final(self).round as int, u as i32),
            final(self).numbered@ == old(self).numbered@.update(u as int, true),
            final(self).sets == old(self).sets,
    {
        self.round = self.round - 1;
        self.output.set(self.round, u as i32);
        self.numbered.set(u, true);
    }

    /// A round that selects a highest-ranked unnumbered vertex and then
    /// updates the labels of its unnumbered neighbours keeps the state in
    /// agreement with the rounds done.
    pub proof fn lemma_round(
        rows: Seq<Seq<u32>>,
        before: LexBfsState,
        after: LexBfsState,
        u: int,
    )
        requires
            before.inv(rows),
            before.round > 0,
            is_selection(before.sets@, before.numbered@, u),
            after.round == before.round - 1,
            after.output@ == before.output@.update(after.round as int, u as i32),
            after.numbered@ == before.numbered@.update(u, true),
            is_update(before.sets@, after.sets@, after.numbered@, rows[u], after.round),
        ensures
            after.inv(rows),
    {
        let n = rows.len() as int;
        let r = after.round as int;
        let o1 = before.output@;
        let o2 = after.output@;
        assert(o2.subrange(r, n) =~= seq![u as i32] + o1.subrange(r + 1, n));
        assert forall|v: int| 0 <= v < n implies (#[trigger] after.numbered@[v]
            <==> o2.subrange(r, n).contains(v as i32)) by {
            if v == u {
                assert(o2.subrange(r, n)[0] == u as i32);
            } else {
                if o2.subrange(r, n).contains(v as i32) {
                    let k = choose|k: int| 0 <= k < n - r && #[trigger] o2.subrange(r, n)[k] == v as i32;
                    assert(k != 0);
                    assert(o1.subrange(r + 1, n)[k - 1] == v as i32);
                }
                if o1.subrange(r + 1, n).contains(v as i32) {
                    let k = choose|k: int| 0 <= k < n - r - 1 && #[trigger] o1.subrange(r + 1, n)[k] == v as i32;
                    assert(o2.subrange(r, n)[k + 1] == v as i32);
                }
            }
        }
        assert forall|a: int, b: int| r <= a < b < n implies o2[a] != o2[b] by {
            if a == r {
                assert(!before.numbered@[u]);
                assert(o1.subrange(r + 1, n)[b - r - 1] == o1[b]);
            }
        }
        assert forall|v: int| 0 <= v < n && !after.numbered@[v] implies (#[trigger] after.sets@[v])@
            == label_at(rows, o2, v, r - 1) by {
            lemma_label_frame(rows, o1, o2, v, r);
            lemma_label_bounds(rows, o1, v, r);
            assert(label_at(rows, o2, v, r - 1) == if adjacent(rows, u, v) {
                label_at(rows, o2, v, r).push(r as usize)
            } else {
                label_at(rows, o2, v, r)
            });
        }
        assert forall|j: int, v: int|
            r <= j < n && 0 <= v < n && unnumbered_at(o2, v, j) implies cand_le(
            #[trigger] label_at(rows, o2, v, j),
            v,
            label_at(rows, o2, o2[j] as int, j),
            o2[j] as int,
        ) by {
            lemma_label_frame(rows, o1, o2, v, j);
            lemma_label_frame(rows, o1, o2, o2[j] as int, j);
            assert(o2.subrange(j + 1, n) =~= o1.subrange(j + 1, n));
            if j == r {
                assert(o2[j] == u as i32);
                assert(!before.numbered@[v]);
                assert(before.sets@[v]@ == label_at(rows, o1, v, r));
            } else {
                assert(unnumbered_at(o1, v, j));
            }
        }
    }

    /// After the last round the ordering is the LexBFS ordering.
    pub proof fn lemma_done(&self, rows: Seq<Seq<u32>>)
        requires
            self.inv(rows),
            self.round == 0,
        ensures
            is_lexbfs_ordering(rows, self.output@),
    {
        let n = rows.len() as int;
        assert(self.output@.subrange(0, n) =~= self.output@);
        lemma_distinct_ids(self.output@, n);
    }
}


/// Two LexBFS orderings of one graph that agree after round `i` agree from
/// round `i` on.
proof fn lemma_lexbfs_agree_from(rows: Seq<Seq<u32>>, o1: Seq<i32>, o2: Seq<i32>, i: int)
    requires
        is_lexbfs_ordering(rows, o1),
        is_lexbfs_ordering(rows, o2),
        0 <= i <= rows.len(),
    ensures
        forall|j: int| i <= j < rows.len() ==> o1[j] == o2[j],
    decreases rows.len() - i,
{
    let n = rows.len() as int;
    if i < n {
        lemma_lexbfs_agree_from(rows, o1, o2, i + 1);
        let u1 = o1[i] as int;
        let u2 = o2[i] as int;
        assert(o1.subrange(i + 1, n) =~= o2.subrange(i + 1, n));
        assert(unnumbered_at(o1, u1, i)) by {
            if o1.subrange(i + 1, n).contains(u1 as i32) {
                let k = choose|k: int| 0 <= k < n - i - 1 && #[trigger] o1.subrange(i + 1, n)[k] == u1 as i32;
                assert(o1[i + 1 + k] == o1[i]);
            }
        }
        assert(unnumbered_at(o2, u2, i)) by {
            if o2.subrange(i + 1, n).contains(u2 as i32) {
                let k = choose|k: int| 0 <= k < n - i - 1 && #[trigger] o2.subrange(i + 1, n)[k] == u2 as i32;
                assert(o2[i + 1 + k] == o2[i]);
            }
        }
        lemma_label_frame(rows, o1, o2, u1, i);
        lemma_label_frame(rows, o1, o2, u2, i);
        assert(cand_le(label_at(rows, o2, u1, i), u1, label_at(rows, o2, u2, i), u2));
        assert(cand_le(label_at(rows, o1, u2, i), u2, label_at(rows, o1, u1, i), u1));
        lemma_cand_le_total(label_at(rows, o1, u1, i), u1, label_at(rows, o1, u2, i), u2);
    }
}

/// Tie-breaking by vertex id makes the LexBFS ordering of a graph unique:
/// two runs, by the same strategy or by different ones, give the same
/// ordering.
pub proof fn lemma_lexbfs_unique(rows: Seq<Seq<u32>>, o1: Seq<i32>, o2: Seq<i32>)
    requires
        is_lexbfs_ordering(rows, o1),
        is_lexbfs_ordering(rows, o2),
    ensures
        o1 == o2,
{
    lemma_lexbfs_agree_from(rows, o1, o2, 0);
    assert(o1 =~= o2);
}

/// In a LexBFS ordering, the label of the vertex selected in round `i` is
/// maximal under the label order among the vertices still unnumbered.
pub proof fn lemma_selected_label_maximal(rows: Seq<Seq<u32>>, order: Seq<i32>, i: int, v: int)
    requires
        is_lexbfs_ordering(rows, order),
        0 <= i < rows.len(),
        0 <= v < rows.len(),
        unnumbered_at(order, v, i),
    ensures
        lex_le(label_at(rows, order, v, i), label_at(rows, order, order[i] as int, i)),
{
    assert(cand_le(label_at(rows, order, v, i), v, label_at(rows, order, order[i] as int, i), order[i] as int));
}


/// Vertex `a` does not rank above vertex `b`: every numbered vertex ranks
/// below every unnumbered one, and among vertices alike in that respect the
/// candidate order decides.
pub open spec fn rank_le(sets: Seq<LabelSet>, numbered: Seq<bool>, a: int, b: int) -> bool {
    if numbered[a] != numbered[b] {
        numbered[a]
    } else {
        cand_le(sets[a]@, a, sets[b]@, b)
    }
}

/// Compares vertices `a` and `b` by rank.
pub fn rank_cmp(sets: &Vec<LabelSet>, numbered: &Vec<bool>, a: usize, b: usize) -> (r: Ordering)
    requires
        sets@.len() == numbered@.len(),
        a < sets@.len(),
        b < sets@.len(),
    ensures
        (r != Ordering::Greater) == rank_le(sets@, numbered@, a as int, b as int),
        (r != Ordering::Less) == rank_le(sets@, numbered@, b as int, a as int),
{
    proof {
        crate::common::lemma_lex_cmp_order(sets@[a as int]@, sets@[b as int]@);
    }
    if numbered[a] && !numbered[b] {
        Ordering::Less
    } else if !numbered[a] && numbered[b] {
        Ordering::Greater
    } else {
        match crate::common::rose_cmp(&sets[a], &sets[b]) {
            Ordering::Equal => {
                if a < b {
                    Ordering::Less
                } else if a > b {
                    Ordering::Greater
                } else {
                    Ordering::Equal
                }
            },
            other => other,
        }
    }
}

/// A vertex that ranks at least as high as every vertex is a selection,
/// provided some vertex is unnumbered.
pub proof fn lemma_top_rank_selects(sets: Seq<LabelSet>, numbered: Seq<bool>, u: int)
    requires
        sets.len() == numbered.len(),
        0 <= u < sets.len(),
        exists|v: int| 0 <= v < numbered.len() && !numbered[v],
        forall|v: int| 0 <= v < sets.len() ==> #[trigger] rank_le(sets, numbered, v, u),
    ensures
        is_selection(sets, numbered, u),
{
    let w = choose|w: int| 0 <= w < numbered.len() && !numbered[w];
    assert(rank_le(sets, numbered, w, u));
    assert forall|v: int| 0 <= v < sets.len() && v < numbered.len() && !numbered[v] implies cand_le(
        #[trigger] sets[v]@,
        v,
        sets[u]@,
        u,
    ) by {
        assert(rank_le(sets, numbered, v, u));
    }
}


/// A selection is unique: every strategy's selection step, however it
/// splits the work, picks the vertex that a sequential scan picks.
pub proof fn lemma_selection_unique(sets: Seq<LabelSet>, numbered: Seq<bool>, u1: int, u2: int)
    requires
        is_selection(sets, numbered, u1),
        is_selection(sets, numbered, u2),
    ensures
        u1 == u2,
{
    assert(cand_le(sets[u1]@, u1, sets[u2]@, u2));
    assert(cand_le(sets[u2]@, u2, sets[u1]@, u1));
    lemma_cand_le_total(sets[u1]@, u1, sets[u2]@, u2);
}

} // verus!
