use petgraph::csr::Csr;
use scoped_threadpool::Pool;

use tepc::graph::Graph;
use tepc::{rayon, serial, threads};

#[test]
fn diamond_graph_rayon() {
    let mut graph: Graph = Csr::new();

    let a = graph.add_node(());
    let b = graph.add_node(());
    let c = graph.add_node(());
    let d = graph.add_node(());

    graph.add_edge(a, b, ());
    graph.add_edge(a, c, ());
    graph.add_edge(a, d, ());
    graph.add_edge(b, c, ());
    graph.add_edge(b, d, ());
    graph.add_edge(c, d, ());

    println!("{:?}", graph);

    let res = rayon::naive_lex_bfs(&graph);

    println!("{:?}", res);

    assert_eq!(rayon::is_pes(&res, &graph), true);
}

#[test]
fn gem_graph_rayon() {
    let mut graph: Graph = Csr::new();

    let a = graph.add_node(());
    let b = graph.add_node(());
    let c = graph.add_node(());
    let d = graph.add_node(());
    let e = graph.add_node(());

    graph.add_edge(a, b, ());
    graph.add_edge(b, c, ());
    graph.add_edge(b, d, ());
    graph.add_edge(b, e, ());
    graph.add_edge(c, d, ());
    graph.add_edge(d, e, ());
    graph.add_edge(e, a, ());

    println!("{:?}", graph);

    let res = rayon::naive_lex_bfs(&graph);

    println!("{:?}", res);

    assert_eq!(rayon::is_pes(&res, &graph), true);
}

#[test]
fn rayon_long_chordal() {
    let mut graph: Graph = Csr::new();

    let a = graph.add_node(());
    let b = graph.add_node(());
    let c = graph.add_node(());
    let d = graph.add_node(());
    let e = graph.add_node(());
    let f = graph.add_node(());
    let g = graph.add_node(());

    graph.add_edge(a, b, ());
    graph.add_edge(b, c, ());
    graph.add_edge(c, d, ());
    graph.add_edge(g, f, ());
    graph.add_edge(f, e, ());
    graph.add_edge(g, b, ());
    graph.add_edge(b, f, ());
    graph.add_edge(f, c, ());
    graph.add_edge(c, e, ());
    graph.add_edge(a, g, ());
    graph.add_edge(e, d, ());

    println!("{:?}", graph);

    let res = rayon::naive_lex_bfs(&graph);

    println!("{:?}", res);

    assert_eq!(rayon::is_pes(&res, &graph), true);
}

#[test]
fn rayon_not_chordal() {
    let mut graph: Graph = Csr::new();

    let a = graph.add_node(());
    let b = graph.add_node(());
    let c = graph.add_node(());
    let d = graph.add_node(());

    graph.add_edge(a, b, ());
    graph.add_edge(b, c, ());
    graph.add_edge(c, d, ());
    graph.add_edge(d, a, ());

    let res = rayon::naive_lex_bfs(&graph);

    assert_eq!(rayon::is_pes(&res, &graph), false);
}

#[test]
fn diamond_graph_serial() {
    let mut graph: Graph = Csr::new();

    let a = graph.add_node(());
    let b = graph.add_node(());
    let c = graph.add_node(());
    let d = graph.add_node(());

    graph.add_edge(a, b, ());
    graph.add_edge(a, c, ());
    graph.add_edge(a, d, ());
    graph.add_edge(b, c, ());
    graph.add_edge(b, d, ());
    graph.add_edge(c, d, ());

    let res = serial::naive_lex_bfs(&graph);

    println!("{:?}", res);

    assert_eq!(serial::is_pes(&res, &graph), true);
}

#[test]
fn gem_graph_serial() {
    let mut graph: Graph = Csr::new();

    let a = graph.add_node(());
    let b = graph.add_node(());
    let c = graph.add_node(());
    let d = graph.add_node(());
    let e = graph.add_node(());

    graph.add_edge(a, b, ());
    graph.add_edge(b, c, ());
    graph.add_edge(b, d, ());
    graph.add_edge(b, e, ());
    graph.add_edge(c, d, ());
    graph.add_edge(d, e, ());
    graph.add_edge(e, a, ());

    println!("{:?}", graph);

    let res = serial::naive_lex_bfs(&graph);

    println!("{:?}", res);

    assert_eq!(serial::is_pes(&res, &graph), true);
}

#[test]
fn serial_long_chordal() {
    let mut graph: Graph = Csr::new();

    let a = graph.add_node(());
    let b = graph.add_node(());
    let c = graph.add_node(());
    let d = graph.add_node(());
    let e = graph.add_node(());
    let f = graph.add_node(());
    let g = graph.add_node(());

    graph.add_edge(a, b, ());
    graph.add_edge(b, c, ());
    graph.add_edge(c, d, ());
    graph.add_edge(g, f, ());
    graph.add_edge(f, e, ());
    graph.add_edge(g, b, ());
    graph.add_edge(b, f, ());
    graph.add_edge(f, c, ());
    graph.add_edge(c, e, ());
    graph.add_edge(a, g, ());
    graph.add_edge(e, d, ());

    println!("{:?}", graph);

    let res = serial::naive_lex_bfs(&graph);

    println!("{:?}", res);

    assert_eq!(serial::is_pes(&res, &graph), true);
}

#[test]
fn serial_not_chordal() {
    let mut graph: Graph = Csr::new();

    let a = graph.add_node(());
    let b = graph.add_node(());
    let c = graph.add_node(());
    let d = graph.add_node(());

    graph.add_edge(a, b, ());
    graph.add_edge(b, c, ());
    graph.add_edge(c, d, ());
    graph.add_edge(d, a, ());

    let res = serial::naive_lex_bfs(&graph);

    assert_eq!(serial::is_pes(&res, &graph), false);
}

#[test]
fn diamond_graph_threads() {
    let cpucount = num_cpus::get();
    let mut pool = Pool::new(cpucount as u32);

    let mut graph: Graph = Csr::new();

    let a = graph.add_node(());
    let b = graph.add_node(());
    let c = graph.add_node(());
    let d = graph.add_node(());

    graph.add_edge(a, b, ());
    graph.add_edge(a, c, ());
    graph.add_edge(a, d, ());
    graph.add_edge(b, c, ());
    graph.add_edge(b, d, ());
    graph.add_edge(c, d, ());

    println!("{:?}", graph);

    let res = threads::naive_lex_bfs(&mut pool, &graph);

    println!("{:?}", res);

    assert_eq!(threads::is_pes(&mut pool, &res, &graph), true);
}

#[test]
fn gem_graph() {
    let cpucount = num_cpus::get();
    let mut pool = Pool::new(cpucount as u32);

    let mut graph: Graph = Csr::new();

    let a = graph.add_node(());
    let b = graph.add_node(());
    let c = graph.add_node(());
    let d = graph.add_node(());
    let e = graph.add_node(());

    graph.add_edge(a, b, ());
    graph.add_edge(b, c, ());
    graph.add_edge(b, d, ());
    graph.add_edge(b, e, ());
    graph.add_edge(c, d, ());
    graph.add_edge(d, e, ());
    graph.add_edge(e, a, ());

    println!("{:?}", graph);

    let res = threads::naive_lex_bfs(&mut pool, &graph);

    println!("{:?}", res);

    assert_eq!(threads::is_pes(&mut pool, &res, &graph), true);
}

#[test]
fn threads_long_chordal() {
    let cpucount = num_cpus::get();
    let mut pool = Pool::new(cpucount as u32);

    let mut graph: Graph = Csr::new();

    let a = graph.add_node(());
    let b = graph.add_node(());
    let c = graph.add_node(());
    let d = graph.add_node(());
    let e = graph.add_node(());
    let f = graph.add_node(());
    let g = graph.add_node(());

    graph.add_edge(a, b, ());
    graph.add_edge(b, c, ());
    graph.add_edge(c, d, ());
    graph.add_edge(g, f, ());
    graph.add_edge(f, e, ());
    graph.add_edge(g, b, ());
    graph.add_edge(b, f, ());
    graph.add_edge(f, c, ());
    graph.add_edge(c, e, ());
    graph.add_edge(a, g, ());
    graph.add_edge(e, d, ());

    println!("{:?}", graph);

    let res = threads::naive_lex_bfs(&mut pool, &graph);

    println!("{:?}", res);

    assert_eq!(threads::is_pes(&mut pool, &res, &graph), true);
}
