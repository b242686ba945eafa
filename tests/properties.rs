use std::cmp::Ordering;

use petgraph::csr::Csr;
use scoped_threadpool::Pool;

use tepc::common::{complete_graph_edge_count, rose_cmp, LabelSet};
use tepc::graph::Graph;
use tepc::matrix::{graph_from_lines, row_entries, GraphError};
use tepc::pes::{clique_size_matches, count_marked_edges};
use tepc::reduce::chunk_ranges;
use tepc::{rayon, serial, threads};

fn build(n: usize, edges: &[(u32, u32)]) -> Graph {
    let mut graph: Graph = Csr::new();
    for _ in 0..n {
        graph.add_node(());
    }
    for &(v, w) in edges {
        graph.add_edge(v, w, ());
    }
    graph
}

fn diamond() -> Graph {
    build(4, &[(0, 1), (0, 2), (0, 3), (1, 2), (1, 3), (2, 3)])
}

fn gem() -> Graph {
    build(5, &[(0, 1), (1, 2), (1, 3), (1, 4), (2, 3), (3, 4), (4, 0)])
}

fn long_chordal() -> Graph {
    build(
        7,
        &[(0, 1), (1, 2), (2, 3), (6, 5), (5, 4), (6, 1), (1, 5), (5, 2), (2, 4), (0, 6), (4, 3)],
    )
}

fn four_cycle() -> Graph {
    build(4, &[(0, 1), (1, 2), (2, 3), (3, 0)])
}

fn five_cycle() -> Graph {
    build(5, &[(0, 1), (1, 2), (2, 3), (3, 4), (4, 0)])
}

fn pool() -> Pool {
    Pool::new(num_cpus::get() as u32)
}

fn labels(rounds: &[usize]) -> LabelSet {
    let mut s = LabelSet::new();
    for &r in rounds {
        s.insert(r);
    }
    s
}

fn is_permutation(order: &[i32], n: usize) -> bool {
    let mut seen = vec![false; n];
    for &v in order {
        if v < 0 || v as usize >= n || seen[v as usize] {
            return false;
        }
        seen[v as usize] = true;
    }
    order.len() == n
}

#[test]
fn orderings_are_permutations() {
    let mut pool = pool();
    for graph in [diamond(), gem(), long_chordal(), four_cycle(), five_cycle()] {
        let n = graph.node_count();
        assert!(is_permutation(&serial::naive_lex_bfs(&graph), n));
        assert!(is_permutation(&rayon::naive_lex_bfs(&graph), n));
        assert!(is_permutation(&threads::naive_lex_bfs(&mut pool, &graph), n));
    }
}

#[test]
fn known_orderings() {
    assert_eq!(serial::naive_lex_bfs(&diamond()), vec![0, 1, 2, 3]);
    assert_eq!(serial::naive_lex_bfs(&gem()), vec![2, 0, 1, 3, 4]);
    assert_eq!(serial::naive_lex_bfs(&long_chordal()), vec![3, 4, 2, 0, 1, 5, 6]);
    assert_eq!(serial::naive_lex_bfs(&four_cycle()), vec![1, 0, 2, 3]);
    assert_eq!(serial::naive_lex_bfs(&five_cycle()), vec![1, 2, 0, 3, 4]);
}

#[test]
fn strategies_give_the_same_ordering() {
    let mut pool = pool();
    for graph in [diamond(), gem(), long_chordal(), four_cycle(), five_cycle()] {
        let s = serial::naive_lex_bfs(&graph);
        assert_eq!(rayon::naive_lex_bfs(&graph), s);
        assert_eq!(threads::naive_lex_bfs(&mut pool, &graph), s);
    }
}

#[test]
fn repeated_runs_agree() {
    let mut pool = pool();
    let graph = long_chordal();
    assert_eq!(serial::naive_lex_bfs(&graph), serial::naive_lex_bfs(&graph));
    assert_eq!(rayon::naive_lex_bfs(&graph), rayon::naive_lex_bfs(&graph));
    assert_eq!(
        threads::naive_lex_bfs(&mut pool, &graph),
        threads::naive_lex_bfs(&mut pool, &graph)
    );
}

#[test]
fn chordality_agrees_across_strategies() {
    let mut pool = pool();
    let cases = [
        (diamond(), true),
        (gem(), true),
        (long_chordal(), true),
        (four_cycle(), false),
        (five_cycle(), false),
    ];
    for (graph, expected) in cases.iter() {
        assert_eq!(serial::is_chordal(graph), *expected);
        assert_eq!(rayon::is_chordal(graph), *expected);
        assert_eq!(threads::is_chordal(&mut pool, graph), *expected);
    }
}

#[test]
fn four_cycle_is_not_chordal_on_the_pool() {
    let mut pool = pool();
    let graph = four_cycle();
    let res = threads::naive_lex_bfs(&mut pool, &graph);
    assert_eq!(threads::is_pes(&mut pool, &res, &graph), false);
}

#[test]
fn empty_and_single_vertex_graphs() {
    let mut pool = pool();
    let empty = build(0, &[]);
    assert_eq!(serial::naive_lex_bfs(&empty), Vec::<i32>::new());
    assert_eq!(rayon::naive_lex_bfs(&empty), Vec::<i32>::new());
    assert_eq!(threads::naive_lex_bfs(&mut pool, &empty), Vec::<i32>::new());
    assert!(serial::is_chordal(&empty));
    assert!(threads::is_chordal(&mut pool, &empty));
    let single = build(1, &[]);
    assert_eq!(serial::naive_lex_bfs(&single), vec![0]);
    assert!(rayon::is_chordal(&single));
    assert!(threads::is_chordal(&mut pool, &single));
}

#[test]
fn path_schemes() {
    let mut pool = pool();
    let path = build(3, &[(0, 1), (1, 2)]);
    assert!(serial::is_pes(&[0, 1, 2], &path));
    assert!(!serial::is_pes(&[1, 0, 2], &path));
    assert!(!rayon::is_pes(&[1, 0, 2], &path));
    assert!(!threads::is_pes(&mut pool, &[1, 0, 2], &path));
    assert!(threads::is_pes(&mut pool, &[2, 1, 0], &path));
    assert!(serial::is_pes(&[], &path));
}

#[test]
fn label_set_comparison() {
    assert_eq!(rose_cmp(&labels(&[5, 3]), &labels(&[5])), Ordering::Greater);
    assert_eq!(rose_cmp(&labels(&[5]), &labels(&[5, 3])), Ordering::Less);
    assert_eq!(rose_cmp(&labels(&[5, 2]), &labels(&[5, 3])), Ordering::Less);
    assert_eq!(rose_cmp(&labels(&[6]), &labels(&[5, 4, 3])), Ordering::Greater);
    assert_eq!(rose_cmp(&labels(&[4, 1]), &labels(&[4, 1])), Ordering::Equal);
    assert_eq!(rose_cmp(&labels(&[]), &labels(&[0])), Ordering::Less);
    assert_eq!(rose_cmp(&labels(&[]), &labels(&[])), Ordering::Equal);
}

#[test]
fn label_set_insert_is_idempotent() {
    let mut s = labels(&[7, 4]);
    s.insert(4);
    assert_eq!(s.rounds(), &[7, 4]);
    s.insert(2);
    assert_eq!(s.rounds(), &[7, 4, 2]);
    assert_eq!(s.len(), 3);
}

#[test]
fn complete_graph_counts() {
    assert_eq!(complete_graph_edge_count(0), Some(0));
    assert_eq!(complete_graph_edge_count(1), Some(0));
    assert_eq!(complete_graph_edge_count(4), Some(6));
    assert_eq!(complete_graph_edge_count(7), Some(21));
    assert_eq!(complete_graph_edge_count(usize::MAX), None);
    assert!(clique_size_matches(6, 4));
    assert!(!clique_size_matches(5, 4));
    assert!(!clique_size_matches(0, usize::MAX));
}

#[test]
fn marked_edge_count() {
    let edges = vec![(0, 1), (1, 0), (1, 2), (2, 1), (0, 2), (2, 0)];
    let marks = vec![true, true, false];
    assert_eq!(count_marked_edges(&edges, &marks), 2);
    assert_eq!(count_marked_edges(&edges, &vec![true, true, true]), 6);
    assert_eq!(count_marked_edges(&[], &marks), 0);
}

#[test]
fn chunking_tiles_the_range() {
    assert_eq!(chunk_ranges(5, 2), vec![(0, 2), (2, 4), (4, 5)]);
    assert_eq!(chunk_ranges(4, 2), vec![(0, 2), (2, 4)]);
    assert_eq!(chunk_ranges(3, 10), vec![(0, 3)]);
    assert_eq!(chunk_ranges(0, 3), Vec::<(usize, usize)>::new());
}

fn lines(rows: &[&str]) -> Vec<Vec<u8>> {
    rows.iter().map(|r| r.as_bytes().to_vec()).collect()
}

#[test]
fn matrix_builds_the_graph() {
    let graph = graph_from_lines(&lines(&["0 1 1", "1 0 0", "1 0 1"])).unwrap();
    assert_eq!(graph.node_count(), 3);
    assert_eq!(graph.neighbors_slice(0), &[1, 2]);
    assert_eq!(graph.neighbors_slice(1), &[0]);
    assert_eq!(graph.neighbors_slice(2), &[0]);
    assert!(serial::is_chordal(&graph));
}

#[test]
fn matrix_tokens_and_whitespace() {
    assert_eq!(row_entries(&b"  1\t0 11 1 ".to_vec()), vec![true, false, false, true]);
    assert_eq!(row_entries(&b"".to_vec()), Vec::<bool>::new());
    let graph = graph_from_lines(&lines(&["0 1 0 1", "1 0 1 0", "0 1 0 1", "1 0 1 0"])).unwrap();
    assert!(!serial::is_chordal(&graph));
    let empty = graph_from_lines(&Vec::new()).unwrap();
    assert_eq!(empty.node_count(), 0);
}

#[test]
fn matrix_entry_out_of_range() {
    let res = graph_from_lines(&lines(&["0 0 1", "0 1"]));
    assert_eq!(res.err(), Some(GraphError::EntryOutOfRange { row: 0, column: 2 }));
}

#[test]
fn pool_sum_matches_a_sequential_sum() {
    let mut pool = pool();
    for len in [1usize, 2, 3, 7, 64, 1000] {
        let values: Vec<usize> = (0..len).map(|i| i * 3 + 1).collect();
        let expected: usize = values.iter().sum();
        assert_eq!(threads::pool_sum(&mut pool, values), expected);
    }
    let mut single = Pool::new(1);
    assert_eq!(threads::pool_sum(&mut single, vec![4, 5, 6]), 15);
}

#[test]
fn pool_top_matches_a_sequential_scan() {
    let mut pool = pool();
    let sets = vec![labels(&[4]), labels(&[4, 1]), labels(&[3, 2]), labels(&[4, 1]), labels(&[])];
    let numbered = vec![false, false, false, false, false];
    assert_eq!(threads::pool_top(&mut pool, &sets, &numbered, vec![0, 1, 2, 3, 4]), 3);
    assert_eq!(threads::pool_top(&mut pool, &sets, &numbered, vec![4, 2, 0]), 0);
    assert_eq!(threads::pool_top(&mut pool, &sets, &numbered, vec![2]), 2);
    assert_eq!(threads::select2(&mut pool, &sets, &numbered), 3);
    let numbered = vec![false, true, false, true, false];
    assert_eq!(threads::select2(&mut pool, &sets, &numbered), 0);
}

#[test]
fn pool_edge_count() {
    let mut pool = pool();
    let edges = vec![(0, 1), (1, 0), (1, 2), (2, 1), (0, 2), (2, 0), (2, 3), (3, 2)];
    assert_eq!(threads::filter_reduce_edge_count(&mut pool, &edges, &vec![true, true, true, false]), 3);
    assert_eq!(threads::filter_reduce_edge_count(&mut pool, &edges, &vec![false, false, true, true]), 1);
    assert_eq!(threads::filter_reduce_edge_count(&mut pool, &Vec::new(), &vec![true]), 0);
}

#[test]
fn small_graphs_fit_orderings() {
    assert!(tepc::graph::fits_orderings(&diamond()));
    assert!(tepc::graph::fits_orderings(&build(0, &[])));
}
