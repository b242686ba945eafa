use vstd::prelude::*;

use crate::common::{complete_edges, complete_graph_edge_count};
use crate::graph::{adjacent, edge_entries};
use crate::lexbfs::{is_lexbfs_ordering, lemma_lexbfs_unique};

verus! {

/// The number of `true` entries of `s`.
pub open spec fn count_true(s: Seq<bool>) -> nat
    decreases s.len(),
{
    if s.len() == 0 {
        0
    } else {
        count_true(s.drop_last()) + if s.last() {
            1nat
        } else {
            0nat
        }
    }
}

/// Both endpoints of entry `e` are marked.
pub open spec fn both_marked(marks: Seq<bool>, e: (u32, u32)) -> bool {
    &&& (e.0 as int) < marks.len()
    &&& marks[e.0 as int]
    &&& (e.1 as int) < marks.len()
    &&& marks[e.1 as int]
}

/// The number of entries of `edges` with both endpoints marked.
pub open spec fn count_inside(edges: Seq<(u32, u32)>, marks: Seq<bool>) -> nat
    decreases edges.len(),
{
    if edges.len() == 0 {
        0
    } else {
        count_inside(edges.drop_last(), marks) + if both_marked(marks, edges.last()) {
            1nat
        } else {
            0nat
        }
    }
}

/// The candidate clique of step `k` of a replay of `scheme`, as a mark per
/// vertex: the neighbours of `scheme[k]` that are not among
/// `scheme[0..=k]`.
pub open spec fn candidate_marks(rows: Seq<Seq<u32>>, scheme: Seq<i32>, k: int) -> Seq<bool> {
    Seq::new(
        rows.len(),
        |w: int| adjacent(rows, scheme[k] as int, w) && !scheme.subrange(0, k + 1).contains(w as i32),
    )
}

/// Step `k` of the replay passes: the edges inside its candidate clique,
/// each stored entry counted and the total halved, number as many as those
/// of a complete graph on the candidate clique.
pub open spec fn step_ok(rows: Seq<Seq<u32>>, scheme: Seq<i32>, k: int) -> bool {
    let marks = candidate_marks(rows, scheme, k);
    count_inside(edge_entries(rows), marks) as int / 2 == complete_edges(count_true(marks) as int)
}

/// `scheme` is a perfect elimination scheme of the graph: every step of its
/// replay passes.
pub open spec fn is_perfect_elimination(rows: Seq<Seq<u32>>, scheme: Seq<i32>) -> bool {
    forall|k: int| 0 <= k < scheme.len() ==> #[trigger] step_ok(rows, scheme, k)
}

/// Every entry of `scheme` names a vertex.
pub open spec fn valid_scheme(rows: Seq<Seq<u32>>, scheme: Seq<i32>) -> bool {
    forall|k: int| 0 <= k < scheme.len() ==> 0 <= #[trigger] scheme[k] < rows.len()
}

/// The LexBFS ordering of the graph.
pub open spec fn lexbfs_order(rows: Seq<Seq<u32>>) -> Seq<i32> {
    choose|o: Seq<i32>| is_lexbfs_ordering(rows, o)
}

/// Chordality: whether the LexBFS ordering of the graph is a
/// perfect elimination scheme.
pub open spec fn chordality(rows: Seq<Seq<u32>>) -> bool {
    is_perfect_elimination(rows, lexbfs_order(rows))
}

/// The elimination check of a LexBFS ordering does not depend on which run, or which
/// strategy, produced it.
pub proof fn lemma_elimination_check_strategy_invariant(rows: Seq<Seq<u32>>, o1: Seq<i32>, o2: Seq<i32>)
    requires
        is_lexbfs_ordering(rows, o1),
        is_lexbfs_ordering(rows, o2),
    ensures
        is_perfect_elimination(rows, o1) == is_perfect_elimination(rows, o2),
        is_perfect_elimination(rows, o1) == chordality(rows),
{
    lemma_lexbfs_unique(rows, o1, o2);
    lemma_lexbfs_unique(rows, o1, lexbfs_order(rows));
}

/// Marking one more entry adds one to the count.
pub proof fn lemma_count_true_mark(s: Seq<bool>, i: int)
    requires
        0 <= i < s.len(),
        !s[i],
    ensures
        count_true(s.update(i, true)) == count_true(s) + 1,
    decreases s.len(),
{
    let t = s.update(i, true);
    if i == s.len() - 1 {
        assert(t.drop_last() =~= s.drop_last());
    } else {
        assert(t.drop_last() =~= s.drop_last().update(i, true));
        lemma_count_true_mark(s.drop_last(), i);
    }
}

/// Marks the neighbours in `nbrs` that are not eliminated, and counts them.
pub(crate) fn candidate(nbrs: &[u32], eliminated: &Vec<bool>) -> (r: (Vec<bool>, usize))
    requires
        forall|k: int| 0 <= k < nbrs@.len() ==> (#[trigger] nbrs@[k] as int) < eliminated@.len(),
        eliminated@.len() <= u32::MAX,
    ensures
        r.0@ == Seq::new(
            eliminated@.len(),
            |w: int| nbrs@.contains(w as u32) && !eliminated@[w],
        ),
        r.1 == count_true(r.0@),
{
    let n = eliminated.len();
    let mut marks = vec![false; n];
    let mut size: usize = 0;
    let mut j: usize = 0;
    proof {
        assert forall|t: Seq<bool>| t.len() <= n && (forall|w: int| 0 <= w < t.len() ==> !t[w])
            implies #[trigger] count_true(t) == 0 by {
            lemma_count_none(t);
        }
        assert(marks@ =~= Seq::new(
            n as nat,
            |w: int| nbrs@.subrange(0, 0).contains(w as u32) && !eliminated@[w],
        ));
    }
    while j < nbrs.len()
        invariant
            j <= nbrs@.len(),
            n == eliminated@.len(),
            n <= u32::MAX,
            forall|k: int| 0 <= k < nbrs@.len() ==> (#[trigger] nbrs@[k] as int) < n,
            marks@ == Seq::new(
                n as nat,
                |w: int| nbrs@.subrange(0, j as int).contains(w as u32) && !eliminated@[w],
            ),
            size == count_true(marks@),
            size <= j,
        decreases nbrs@.len() - j,
    {
        let w = nbrs[j] as usize;
        let ghost before = marks@;
        if !eliminated[w] && !marks[w] {
            marks.set(w, true);
            proof {
                lemma_count_true_mark(before, w as int);
            }
            size = size + 1;
        }
        proof {
            assert forall|v: int| 0 <= v < n implies (#[trigger] nbrs@.subrange(
                0,
                j + 1,
            ).contains(v as u32) <==> (nbrs@.subrange(0, j as int).contains(v as u32) || v
                == w)) by {
                if v == w {
                    assert(nbrs@.subrange(0, j + 1)[j as int] == v as u32);
                }
                if nbrs@.subrange(0, j + 1).contains(v as u32) && v != w {
                    let i = choose|i: int|
                        0 <= i < j + 1 && #[trigger] nbrs@.subrange(0, j + 1)[i] == v as u32;
                    assert(i != j);
                    assert(nbrs@.subrange(0, j as int)[i] == v as u32);
                }
            }
            assert(marks@ =~= Seq::new(
                n as nat,
                |v: int| nbrs@.subrange(0, j + 1).contains(v as u32) && !eliminated@[v],
            ));
        }
        j = j + 1;
    }
    assert(nbrs@.subrange(0, nbrs@.len() as int) =~= nbrs@);
    (marks, size)
}

proof fn lemma_count_none(t: Seq<bool>)
    requires
        forall|w: int| 0 <= w < t.len() ==> !t[w],
    ensures
        count_true(t) == 0,
    decreases t.len(),
{
    if t.len() > 0 {
        lemma_count_none(t.drop_last());
    }
}

/// Whether both endpoints of entry `e` are marked.
pub fn edge_inside(marks: &Vec<bool>, e: (u32, u32)) -> (r: bool)
    ensures
        r == both_marked(marks@, e),
{
    (e.0 as usize) < marks.len() && marks[e.0 as usize] && (e.1 as usize) < marks.len()
        && marks[e.1 as usize]
}

/// Marks `scheme[k]` as eliminated, extending the marks of `scheme[0..k]`
/// to those of `scheme[0..=k]`.
pub(crate) fn eliminate(eliminated: &mut Vec<bool>, scheme: &[i32], k: usize)
    requires
        k < scheme@.len(),
        0 <= scheme@[k as int] < old(eliminated)@.len(),
        old(eliminated)@.len() <= i32::MAX,
        old(eliminated)@ == Seq::new(
            old(eliminated)@.len(),
            |v: int| scheme@.subrange(0, k as int).contains(v as i32),
        ),
    ensures
        final(eliminated)@ == Seq::new(
            old(eliminated)@.len(),
            |v: int| scheme@.subrange(0, k + 1).contains(v as i32),
        ),
{
    let ghost n = eliminated@.len();
    let v = scheme[k] as usize;
    eliminated.set(v, true);
    assert forall|w: int| 0 <= w < n implies #[trigger] eliminated@[w] == scheme@.subrange(
        0,
        k + 1,
    ).contains(w as i32) by {
        if w == v {
            assert(scheme@.subrange(0, k + 1)[k as int] == w as i32);
        } else if scheme@.subrange(0, k + 1).contains(w as i32) {
            let i = choose|i: int| 0 <= i < k + 1 && #[trigger] scheme@.subrange(0, k + 1)[i] == w as i32;
            assert(i != k);
            assert(scheme@.subrange(0, k as int)[i] == w as i32);
        } else if scheme@.subrange(0, k as int).contains(w as i32) {
            let i = choose|i: int| 0 <= i < k && #[trigger] scheme@.subrange(0, k as int)[i] == w as i32;
            assert(scheme@.subrange(0, k + 1)[i] == w as i32);
        }
    }
    assert(eliminated@ =~= Seq::new(n, |v: int| scheme@.subrange(0, k + 1).contains(v as i32)));
}

/// Counts the entries of `edges[lo..hi]` with both endpoints marked.
pub fn count_marked_between(edges: &[(u32, u32)], marks: &Vec<bool>, lo: usize, hi: usize) -> (r: usize)
    requires
        lo <= hi <= edges@.len(),
    ensures
        r == count_inside(edges@.subrange(lo as int, hi as int), marks@),
{
    let mut count: usize = 0;
    let mut i: usize = lo;
    assert(edges@.subrange(lo as int, lo as int) =~= Seq::<(u32, u32)>::empty());
    while i < hi
        invariant
            lo <= i <= hi <= edges@.len(),
            count == count_inside(edges@.subrange(lo as int, i as int), marks@),
            count <= i - lo,
        decreases hi - i,
    {
        assert(edges@.subrange(lo as int, i + 1).drop_last() =~= edges@.subrange(lo as int, i as int));
        if edge_inside(marks, edges[i]) {
            count = count + 1;
        }
        i = i + 1;
    }
    count
}

/// Counts the entries of `edges` with both endpoints marked.
pub fn count_marked_edges(edges: &[(u32, u32)], marks: &Vec<bool>) -> (r: usize)
    ensures
        r == count_inside(edges@, marks@),
{
    assert(edges@.subrange(0, edges@.len() as int) =~= edges@);
    count_marked_between(edges, marks, 0, edges.len())
}

/// One for each entry of `edges` with both endpoints marked, zero for the
/// others.
pub open spec fn inside_ones(edges: Seq<(u32, u32)>, marks: Seq<bool>) -> Seq<usize> {
    Seq::new(edges.len(), |i: int| if both_marked(marks, edges[i]) { 1usize } else { 0usize })
}

/// No more entries are inside than there are entries.
pub proof fn lemma_count_inside_bound(edges: Seq<(u32, u32)>, marks: Seq<bool>)
    ensures
        count_inside(edges, marks) <= edges.len(),
    decreases edges.len(),
{
    if edges.len() > 0 {
        lemma_count_inside_bound(edges.drop_last(), marks);
    }
}

/// Counting the entries inside is summing their ones.
pub proof fn lemma_count_inside_sum(edges: Seq<(u32, u32)>, marks: Seq<bool>)
    ensures
        count_inside(edges, marks) == crate::reduce::seq_sum(inside_ones(edges, marks)),
    decreases edges.len(),
{
    if edges.len() > 0 {
        lemma_count_inside_sum(edges.drop_last(), marks);
        assert(inside_ones(edges, marks).drop_last() =~= inside_ones(edges.drop_last(), marks));
    }
}

/// Whether `edge_count` edges are as many as those of a complete graph on
/// `size` vertices.
pub fn clique_size_matches(edge_count: usize, size: usize) -> (r: bool)
    requires
        edge_count <= usize::MAX / 2,
    ensures
        r == (edge_count as int == complete_edges(size as int)),
{
    match complete_graph_edge_count(size) {
        Some(m) => edge_count == m,
        None => {
            assert(size * (size - 1) / 2 > edge_count as int) by (nonlinear_arith)
                requires
                    size * (size - 1) > usize::MAX,
                    edge_count <= usize::MAX / 2,
            ;
            false
        },
    }
}

} // verus!
