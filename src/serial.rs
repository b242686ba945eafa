use std::cmp::Ordering;

use vstd::prelude::*;

use crate::common::{rose_cmp, with_round, LabelSet};
use crate::graph::{csr_rows, edge_list, neighbors, vertex_count, Graph};
use crate::pes::{
    candidate, candidate_marks, chordality, clique_size_matches, count_marked_edges,
    is_perfect_elimination, lemma_elimination_check_strategy_invariant, step_ok, valid_scheme,
};
use crate::lexbfs::{
    cand_le, is_lexbfs_ordering, is_selection, is_update, lemma_cand_le_total,
    lemma_cand_le_transitive, LexBfsState,
};

verus! {

/// Scans the vertices in order and keeps the last one that ranks at least as
/// high as every unnumbered vertex seen before it.
fn select(sets: &Vec<LabelSet>, numbered: &Vec<bool>) -> (r: usize)
    requires
        sets@.len() == numbered@.len(),
        exists|v: int| 0 <= v < numbered@.len() && !numbered@[v],
    ensures
        is_selection(sets@, numbered@, r as int),
{
    let mut best: Option<usize> = None;
    let mut k: usize = 0;
    while k < sets.len()
        invariant
            sets@.len() == numbered@.len(),
            k <= sets@.len(),
            match best {
                None => forall|j: int| 0 <= j < k ==> numbered@[j],
                Some(b) => b < k && !numbered@[b as int] && forall|j: int|
                    0 <= j < k && !numbered@[j] ==> cand_le(
                        #[trigger] sets@[j]@,
                        j,
                        sets@[b as int]@,
                        b as int,
                    ),
            },
        decreases sets@.len() - k,
    {
        if !numbered[k] {
            match best {
                None => {
                    best = Some(k);
                    proof {
                        lemma_cand_le_total(sets@[k as int]@, k as int, sets@[k as int]@, k as int);
                    }
                },
                Some(b) => {
                    match rose_cmp(&sets[k], &sets[b]) {
                        Ordering::Less => {
                            proof {
                                assert(cand_le(sets@[k as int]@, k as int, sets@[b as int]@, b as int));
                            }
                        },
                        _ => {
                            proof {
                                crate::common::lemma_lex_cmp_order(sets@[k as int]@, sets@[b as int]@);
                                assert(cand_le(sets@[b as int]@, b as int, sets@[k as int]@, k as int));
                                assert forall|j: int|
                                    0 <= j < k + 1 && !numbered@[j] implies cand_le(
                                    #[trigger] sets@[j]@,
                                    j,
                                    sets@[k as int]@,
                                    k as int,
                                ) by {
                                    if j < k {
                                        lemma_cand_le_transitive(
                                            sets@[j]@,
                                            j,
                                            sets@[b as int]@,
                                            b as int,
                                            sets@[k as int]@,
                                            k as int,
                                        );
                                    } else {
                                        lemma_cand_le_total(
                                            sets@[j]@,
                                            j,
                                            sets@[j]@,
                                            j,
                                        );
                                    }
                                }
                            }
                            best = Some(k);
                        },
                    }
                },
            }
        }
        k = k + 1;
    }
    match best {
        Some(b) => b,
        None => {
            proof {
                let v = choose|v: int| 0 <= v < numbered@.len() && !numbered@[v];
                assert(numbered@[v]);
            }
            0
        },
    }
}

/// Adds `round` to the label set of every unnumbered vertex listed in
/// `nbrs`, one after another.
fn update(sets: &mut Vec<LabelSet>, numbered: &Vec<bool>, nbrs: &[u32], round: usize)
    requires
        old(sets)@.len() == numbered@.len(),
        numbered@.len() <= u32::MAX,
        forall|v: int| 0 <= v < old(sets)@.len() ==> (#[trigger] old(sets)@[v]).wf(),
        forall|v: int, k: int|
            0 <= v < old(sets)@.len() && !numbered@[v] && 0 <= k < old(sets)@[v]@.len()
                ==> #[trigger] old(sets)@[v]@[k] > round,
        forall|k: int| 0 <= k < nbrs@.len() ==> (#[trigger] nbrs@[k] as int) < numbered@.len(),
    ensures
        is_update(old(sets)@, final(sets)@, numbered@, nbrs@, round),
{
    let ghost start = sets@;
    let mut k: usize = 0;
    while k < nbrs.len()
        invariant
            k <= nbrs@.len(),
            start == old(sets)@,
            sets@.len() == start.len(),
            start.len() == numbered@.len(),
            numbered@.len() <= u32::MAX,
            forall|v: int| 0 <= v < start.len() ==> (#[trigger] start[v]).wf(),
            forall|v: int, j: int|
                0 <= v < start.len() && !numbered@[v] && 0 <= j < start[v]@.len()
                    ==> #[trigger] start[v]@[j] > round,
            forall|j: int| 0 <= j < nbrs@.len() ==> (#[trigger] nbrs@[j] as int) < numbered@.len(),
            forall|v: int| 0 <= v < start.len() ==> (#[trigger] sets@[v]).wf(),
            forall|v: int|
                0 <= v < start.len() ==> (#[trigger] sets@[v])@ == if !numbered@[v]
                    && nbrs@.subrange(0, k as int).contains(v as u32) {
                    with_round(start[v]@, round)
                } else {
                    start[v]@
                },
        decreases nbrs@.len() - k,
    {
        let w = nbrs[k] as usize;
        assert(nbrs@.subrange(0, k + 1) =~= nbrs@.subrange(0, k as int).push(nbrs@[k as int]));
        if !numbered[w] {
            sets[w].insert(round);
            assert(with_round(with_round(start[w as int]@, round), round) == with_round(
                start[w as int]@,
                round,
            ));
        }
        proof {
            assert forall|v: int| 0 <= v < start.len() implies (#[trigger] nbrs@.subrange(0, k + 1).contains(
                v as u32,
            ) <==> (nbrs@.subrange(0, k as int).contains(v as u32) || v == w)) by {
                if v == w {
                    assert(nbrs@.subrange(0, k + 1)[k as int] == v as u32);
                }
                if nbrs@.subrange(0, k + 1).contains(v as u32) && v != w {
                    let j = choose|j: int|
                        0 <= j < k + 1 && #[trigger] nbrs@.subrange(0, k + 1)[j] == v as u32;
                    assert(j != k);
                    assert(nbrs@.subrange(0, k as int)[j] == v as u32);
                }
            }
        }
        k = k + 1;
    }
    assert(nbrs@.subrange(0, nbrs@.len() as int) =~= nbrs@);
}

/// Computes the LexBFS elimination ordering of `graph` on one thread:
/// entry `i` is the vertex selected in round `i`, rounds running from
/// `n - 1` down to `0`.
pub fn naive_lex_bfs(graph: &Graph) -> (r: Vec<i32>)
    requires
        csr_rows(*graph).len() <= i32::MAX,
    ensures
        is_lexbfs_ordering(csr_rows(*graph), r@),
{
    let n = vertex_count(graph);
    let ghost rows = csr_rows(*graph);
    let mut st = LexBfsState::new(n);
    assert(st.inv(rows));
    while st.round > 0
        invariant
            rows == csr_rows(*graph),
            n == rows.len(),
            st.inv(rows),
        decreases st.round,
    {
        proof {
            st.lemma_some_unnumbered(rows);
        }
        let u = select(&st.sets, &st.numbered);
        let ghost before = st;
        st.number(u);
        let nbrs = neighbors(graph, u as u32);
        proof {
            assert forall|v: int, k: int|
                0 <= v < n && !st.numbered@[v] && 0 <= k < st.sets@[v]@.len()
                    implies #[trigger] st.sets@[v]@[k] > st.round by {
                crate::lexbfs::lemma_label_bounds(rows, before.output@, v, before.round - 1);
            }
        }
        update(&mut st.sets, &st.numbered, nbrs, st.round);
        proof {
            LexBfsState::lemma_round(rows, before, st, u as int);
        }
    }
    proof {
        st.lemma_done(rows);
    }
    st.output
}

/// Replays `scheme` on `graph`, eliminating `scheme[0]` first, and checks
/// at each step that the neighbours of the eliminated vertex not yet
/// eliminated form a clique; stops at the first step that fails.
pub fn is_pes(scheme: &[i32], graph: &Graph) -> (r: bool)
    requires
        csr_rows(*graph).len() <= i32::MAX,
        valid_scheme(csr_rows(*graph), scheme@),
    ensures
        r == is_perfect_elimination(csr_rows(*graph), scheme@),
{
    let n = vertex_count(graph);
    let ghost rows = csr_rows(*graph);
    let edges = edge_list(graph);
    let mut eliminated = vec![false; n];
    let mut k: usize = 0;
    assert(eliminated@ =~= Seq::new(n as nat, |v: int| scheme@.subrange(0, 0).contains(v as i32)));
    while k < scheme.len()
        invariant
            rows == csr_rows(*graph),
            n == rows.len(),
            n <= i32::MAX,
            valid_scheme(rows, scheme@),
            crate::graph::rows_in_range(rows),
            edges@ == crate::graph::edge_entries(rows),
            k <= scheme@.len(),
            eliminated@ == Seq::new(n as nat, |v: int| scheme@.subrange(0, k as int).contains(v as i32)),
            forall|j: int| 0 <= j < k ==> #[trigger] step_ok(rows, scheme@, j),
        decreases scheme@.len() - k,
    {
        let v = scheme[k] as usize;
        crate::pes::eliminate(&mut eliminated, scheme, k);
        let nbrs = neighbors(graph, v as u32);
        let (marks, size) = candidate(nbrs, &eliminated);
        assert(marks@ =~= candidate_marks(rows, scheme@, k as int));
        let count = count_marked_edges(edges.as_slice(), &marks);
        if !clique_size_matches(count / 2, size) {
            assert(!step_ok(rows, scheme@, k as int));
            return false;
        }
        k = k + 1;
    }
    true
}

/// Whether `graph` is chordal: computes its LexBFS ordering on one thread and
/// checks that it is a perfect elimination scheme.
pub fn is_chordal(graph: &Graph) -> (r: bool)
    requires
        csr_rows(*graph).len() <= i32::MAX,
    ensures
        r == chordality(csr_rows(*graph)),
{
    let scheme = naive_lex_bfs(graph);
    proof {
        lemma_elimination_check_strategy_invariant(csr_rows(*graph), scheme@, scheme@);
    }
    is_pes(scheme.as_slice(), graph)
}

} // verus!
