use ::rayon::iter::{
    IndexedParallelIterator, IntoParallelIterator, IntoParallelRefIterator,
    IntoParallelRefMutIterator, ParallelIterator,
};

use vstd::prelude::*;

use crate::common::{label_if, with_round, LabelSet};
use crate::graph::{csr_rows, edge_list, neighbors, rows_in_range, vertex_count, Graph};
use crate::lexbfs::{
    is_lexbfs_ordering, is_update, lemma_label_bounds, lemma_top_rank_selects, rank_cmp, rank_le,
    LexBfsState,
};
use crate::pes::{
    candidate, candidate_marks, chordality, clique_size_matches, count_inside, edge_inside,
    is_perfect_elimination, lemma_elimination_check_strategy_invariant, step_ok, valid_scheme,
};

verus! {

/// Relies on rayon's `ParallelIterator::max_by` over the range `0..n`: the
/// maximum under the comparison, `None` when the range is empty. The
/// comparison is `rank_cmp`, a total order.
#[verifier::external_body]
fn par_top_rank(sets: &Vec<LabelSet>, numbered: &Vec<bool>) -> (r: Option<usize>)
    requires
        sets@.len() == numbered@.len(),
    ensures
        r is None <==> sets@.len() == 0,
        r matches Some(u) ==> u < sets@.len() && forall|v: int|
            0 <= v < sets@.len() ==> #[trigger] rank_le(sets@, numbered@, v, u as int),
{
    (0..sets.len()).into_par_iter().max_by(|a, b| rank_cmp(sets, numbered, *a, *b))
}

/// Relies on rayon's `par_iter_mut`, `zip` and `for_each`: `label_if` runs
/// once on each label set, with the mark at its index.
#[verifier::external_body]
fn par_label(sets: &mut Vec<LabelSet>, marks: &Vec<bool>, round: usize)
    requires
        old(sets)@.len() == marks@.len(),
        forall|v: int| 0 <= v < old(sets)@.len() ==> (#[trigger] old(sets)@[v]).wf(),
        forall|v: int, k: int|
            0 <= v < old(sets)@.len() && marks@[v] && 0 <= k < old(sets)@[v]@.len()
                ==> #[trigger] old(sets)@[v]@[k] >= round,
    ensures
        final(sets)@.len() == old(sets)@.len(),
        forall|v: int| 0 <= v < old(sets)@.len() ==> (#[trigger] final(sets)@[v]).wf(),
        forall|v: int|
            0 <= v < old(sets)@.len() ==> (#[trigger] final(sets)@[v])@ == if marks@[v] {
                with_round(old(sets)@[v]@, round)
            } else {
                old(sets)@[v]@
            },
{
    sets.par_iter_mut().zip(marks.par_iter()).for_each(|(s, m)| label_if(s, *m, round));
}

/// Relies on rayon's `filter` and `count`: the number of entries for which
/// `edge_inside` holds.
#[verifier::external_body]
fn par_count_inside(edges: &Vec<(u32, u32)>, marks: &Vec<bool>) -> (r: usize)
    ensures
        r == count_inside(edges@, marks@),
{
    edges.par_iter().filter(|e| edge_inside(marks, **e)).count()
}

/// Computes the LexBFS elimination ordering of `graph`, running each
/// selection and each label update as a data-parallel pass.
pub fn naive_lex_bfs(graph: &Graph) -> (r: Vec<i32>)
    requires
        csr_rows(*graph).len() <= i32::MAX,
    ensures
        is_lexbfs_ordering(csr_rows(*graph), r@),
{
    let n = vertex_count(graph);
    let ghost rows = csr_rows(*graph);
    let mut st = LexBfsState::new(n);
    assert(st.inv(rows));
    while st.round > 0
        invariant
            rows == csr_rows(*graph),
            n == rows.len(),
            st.inv(rows),
        decreases st.round,
    {
        proof {
            st.lemma_some_unnumbered(rows);
        }
        let u = match par_top_rank(&st.sets, &st.numbered) {
            Some(u) => u,
            None => {
                proof {
                    assert(false);
                }
                0
            },
        };
        proof {
            lemma_top_rank_selects(st.sets@, st.numbered@, u as int);
        }
        let ghost before = st;
        st.number(u);
        let nbrs = neighbors(graph, u as u32);
        let (marks, _) = candidate(nbrs, &st.numbered);
        proof {
            assert forall|v: int, k: int|
                0 <= v < n && marks@[v] && 0 <= k < st.sets@[v]@.len()
                    implies #[trigger] st.sets@[v]@[k] >= st.round by {
                lemma_label_bounds(rows, before.output@, v, before.round - 1);
            }
        }
        par_label(&mut st.sets, &marks, st.round);
        proof {
            assert(is_update(before.sets@, st.sets@, st.numbered@, rows[u as int], st.round));
            LexBfsState::lemma_round(rows, before, st, u as int);
        }
    }
    proof {
        st.lemma_done(rows);
    }
    st.output
}

/// Replays `scheme` on `graph` like the serial verifier, counting the edges
/// inside each candidate clique as a data-parallel pass.
pub fn is_pes(scheme: &[i32], graph: &Graph) -> (r: bool)
    requires
        csr_rows(*graph).len() <= i32::MAX,
        valid_scheme(csr_rows(*graph), scheme@),
    ensures
        r == is_perfect_elimination(csr_rows(*graph), scheme@),
{
    let n = vertex_count(graph);
    let ghost rows = csr_rows(*graph);
    let edges = edge_list(graph);
    let mut eliminated = vec![false; n];
    let mut k: usize = 0;
    assert(eliminated@ =~= Seq::new(n as nat, |v: int| scheme@.subrange(0, 0).contains(v as i32)));
    while k < scheme.len()
        invariant
            rows == csr_rows(*graph),
            n == rows.len(),
            n <= i32::MAX,
            valid_scheme(rows, scheme@),
            rows_in_range(rows),
            edges@ == crate::graph::edge_entries(rows),
            k <= scheme@.len(),
            eliminated@ == Seq::new(n as nat, |v: int| scheme@.subrange(0, k as int).contains(v as i32)),
            forall|j: int| 0 <= j < k ==> #[trigger] step_ok(rows, scheme@, j),
        decreases scheme@.len() - k,
    {
        let v = scheme[k] as usize;
        crate::pes::eliminate(&mut eliminated, scheme, k);
        let nbrs = neighbors(graph, v as u32);
        let (marks, size) = candidate(nbrs, &eliminated);
        assert(marks@ =~= candidate_marks(rows, scheme@, k as int));
        let count = par_count_inside(&edges, &marks);
        if !clique_size_matches(count / 2, size) {
            assert(!step_ok(rows, scheme@, k as int));
            return false;
        }
        k = k + 1;
    }
    true
}

/// Whether `graph` is chordal, with the data-parallel LexBFS and verifier.
pub fn is_chordal(graph: &Graph) -> (r: bool)
    requires
        csr_rows(*graph).len() <= i32::MAX,
    ensures
        r == chordality(csr_rows(*graph)),
{
    let scheme = naive_lex_bfs(graph);
    proof {
        lemma_elimination_check_strategy_invariant(csr_rows(*graph), scheme@, scheme@);
    }
    is_pes(scheme.as_slice(), graph)
}

} // verus!
