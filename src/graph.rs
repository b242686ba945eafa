use petgraph::csr::Csr;
use petgraph::visit::{EdgeRef, IntoEdgeReferences};
use petgraph::Undirected;

use vstd::prelude::*;

verus! {

#[verifier::external_type_specification]
#[verifier::external_body]
#[verifier::reject_recursive_types(N)]
#[verifier::reject_recursive_types(E)]
#[verifier::reject_recursive_types(Ty)]
#[verifier::reject_recursive_types(Ix)]
pub struct ExCsr<N, E, Ty, Ix>(Csr<N, E, Ty, Ix>);

#[verifier::external_type_specification]
#[verifier::external_body]
pub struct ExUndirected(Undirected);

/// The undirected graph the library works on: vertices `0..n`, each with a
/// row of neighbour ids.
pub type Graph = Csr<(), (), Undirected, u32>;

/// The rows of a graph: row `v` lists the neighbours of vertex `v`, in the
/// order in which the graph stores them.
pub uninterp spec fn csr_rows(g: Csr<(), (), Undirected, u32>) -> Seq<Seq<u32>>;

/// Every id in every row names a vertex.
pub open spec fn rows_in_range(rows: Seq<Seq<u32>>) -> bool {
    forall|v: int, k: int|
        0 <= v < rows.len() && 0 <= k < rows[v].len() ==> rows[v][k] < rows.len()
}

/// `v` is listed in the row of `u`.
pub open spec fn adjacent(rows: Seq<Seq<u32>>, u: int, v: int) -> bool {
    rows[u].contains(v as u32)
}

/// The stored entries of the graph, row by row: one `(source, target)` pair
/// for each id of each row. An undirected edge between two distinct vertices
/// is stored in both rows.
pub open spec fn edge_entries(rows: Seq<Seq<u32>>) -> Seq<(u32, u32)>
    decreases rows.len(),
{
    if rows.len() == 0 {
        Seq::empty()
    } else {
        let last = rows.len() - 1;
        edge_entries(rows.drop_last()) + rows[last].map_values(|w: u32| (last as u32, w))
    }
}

/// Relies on `Csr::node_count`: the number of rows. `Csr::add_edge` panics
/// on an endpoint that is not a vertex, so every stored id names a vertex.
#[verifier::external_body]
pub(crate) fn vertex_count(g: &Graph) -> (r: usize)
    ensures
        r == csr_rows(*g).len(),
        forall|v: int, k: int|
            0 <= v < r && 0 <= k < csr_rows(*g)[v].len() ==> csr_rows(*g)[v][k] < r,
{
    g.node_count()
}

/// Whether every vertex of `g` can be named by an `i32`, as the entries of
/// an elimination ordering are; the engines and verifiers ask for it.
pub fn fits_orderings(g: &Graph) -> (r: bool)
    ensures
        r == (csr_rows(*g).len() <= i32::MAX),
{
    vertex_count(g) <= 2147483647
}

/// Relies on `Csr::neighbors_slice`: the row of vertex `v`.
#[verifier::external_body]
pub(crate) fn neighbors(g: &Graph, v: u32) -> (r: &[u32])
    requires
        (v as int) < csr_rows(*g).len(),
    ensures
        r@ == csr_rows(*g)[v as int],
{
    g.neighbors_slice(v)
}

/// Relies on `Csr::edge_references`: every stored entry, row by row, as
/// `(source, target)`.
#[verifier::external_body]
pub(crate) fn edge_list(g: &Graph) -> (r: Vec<(u32, u32)>)
    ensures
        r@ == edge_entries(csr_rows(*g)),
{
    g.edge_references().map(|e| (e.source(), e.target())).collect()
}

/// Relies on `Csr::with_nodes`: `n` vertices and no edges.
#[verifier::external_body]
pub(crate) fn with_nodes(n: usize) -> (r: Graph)
    requires
        n < usize::MAX,
    ensures
        csr_rows(r).len() == n,
        forall|v: int| 0 <= v < n ==> (#[trigger] csr_rows(r)[v]).len() == 0,
{
    Csr::with_nodes(n)
}

/// Relies on `Csr::add_edge` on an undirected graph, which panics unless
/// both ends are vertices: `b` joins the row of `a` and `a` the row of `b`,
/// an edge already present is left alone, and the other rows keep their ids.
/// (Every way of building an undirected `Csr` keeps its rows symmetric, so
/// an edge present in one row is present in the other.)
#[verifier::external_body]
pub(crate) fn add_edge(g: &mut Graph, a: u32, b: u32)
    requires
        (a as int) < csr_rows(*old(g)).len(),
        (b as int) < csr_rows(*old(g)).len(),
    ensures
        csr_rows(*final(g)).len() == csr_rows(*old(g)).len(),
        forall|v: int, x: u32|
            0 <= v < csr_rows(*old(g)).len() ==> (#[trigger] csr_rows(*final(g))[v].contains(x)
                <==> (csr_rows(*old(g))[v].contains(x) || (v == a as int && x == b) || (v
                == b as int && x == a))),
{
    g.add_edge(a, b, ());
}

} // verus!
