use vstd::prelude::*;

use crate::graph::{add_edge, adjacent, csr_rows, with_nodes, Graph};

verus! {

/// ASCII whitespace: space, tab, line feed, form feed and carriage return.
pub open spec fn is_space(b: u8) -> bool {
    b == 32 || b == 9 || b == 10 || b == 12 || b == 13
}

/// The tokens of a line: its maximal runs of bytes that are not
/// whitespace, in order.
pub open spec fn tokens(s: Seq<u8>) -> Seq<Seq<u8>>
    decreases s.len(),
{
    if s.len() == 0 {
        Seq::empty()
    } else if is_space(s.last()) {
        tokens(s.drop_last())
    } else if s.len() >= 2 && !is_space(s[s.len() - 2]) {
        let t = tokens(s.drop_last());
        t.update(t.len() - 1, t.last().push(s.last()))
    } else {
        tokens(s.drop_last()).push(seq![s.last()])
    }
}

/// The token that marks an edge.
pub open spec fn is_one(t: Seq<u8>) -> bool {
    t == seq![49u8]
}

/// One flag per token of `line`: whether the token is `1`.
pub open spec fn row_flags(line: Seq<u8>) -> Seq<bool> {
    tokens(line).map_values(|t: Seq<u8>| is_one(t))
}

/// The matrix has a `1` in row `r`, column `c`.
pub open spec fn entry(lines: Seq<Seq<u8>>, r: int, c: int) -> bool {
    0 <= r < lines.len() && 0 <= c < row_flags(lines[r]).len() && row_flags(lines[r])[c]
}

/// The number of vertices a matrix describes: the number of tokens of its
/// last line, none when it has no lines.
pub open spec fn matrix_size(lines: Seq<Seq<u8>>) -> int {
    if lines.len() == 0 {
        0
    } else {
        row_flags(lines.last()).len() as int
    }
}

/// Every `1` of the matrix joins two vertices.
pub open spec fn entries_in_range(lines: Seq<Seq<u8>>) -> bool {
    forall|r: int, c: int|
        #[trigger] entry(lines, r, c) ==> r < matrix_size(lines) && c < matrix_size(lines)
}

/// Why a matrix does not describe a graph.
#[derive(Debug, PartialEq, Eq, Structural)]
pub enum GraphError {
    /// The `1` in this row and column names a vertex beyond the last one.
    EntryOutOfRange { row: usize, column: usize },
    /// More vertices than vertex ids can name.
    TooManyVertices,
}

proof fn lemma_tokens_nonempty(s: Seq<u8>)
    ensures
        forall|k: int| 0 <= k < tokens(s).len() ==> (#[trigger] tokens(s)[k]).len() >= 1,
        s.len() > 0 && !is_space(s.last()) ==> tokens(s).len() >= 1,
    decreases s.len(),
{
    if s.len() > 0 {
        let p = s.drop_last();
        lemma_tokens_nonempty(p);
        let t = tokens(p);
        if is_space(s.last()) {
            assert(tokens(s) == t);
        } else if s.len() >= 2 && !is_space(s[s.len() - 2]) {
            assert(p.last() == s[s.len() - 2]);
            assert(t.len() >= 1);
            assert(tokens(s) == t.update(t.len() - 1, t.last().push(s.last())));
            assert forall|k: int| 0 <= k < tokens(s).len() implies (#[trigger] tokens(s)[k]).len()
                >= 1 by {
                if k < t.len() - 1 {
                    assert(tokens(s)[k] == t[k]);
                }
            }
        } else {
            assert(tokens(s) == t.push(seq![s.last()]));
            assert forall|k: int| 0 <= k < tokens(s).len() implies (#[trigger] tokens(s)[k]).len()
                >= 1 by {
                if k < t.len() {
                    assert(tokens(s)[k] == t[k]);
                }
            }
        }
    }
}

/// Flags the tokens of `line` that are `1`.
pub fn row_entries(line: &Vec<u8>) -> (r: Vec<bool>)
    ensures
        r@ == row_flags(line@),
{
    let mut flags: Vec<bool> = Vec::new();
    let mut i: usize = 0;
    assert(line@.subrange(0, 0) =~= Seq::<u8>::empty());
    assert(flags@ =~= row_flags(Seq::<u8>::empty()));
    while i < line.len()
        invariant
            i <= line@.len(),
            flags@ == row_flags(line@.subrange(0, i as int)),
        decreases line@.len() - i,
    {
        let b = line[i];
        let ghost pre = line@.subrange(0, i as int);
        let ghost cur = line@.subrange(0, i + 1);
        assert(cur.drop_last() =~= pre);
        proof {
            lemma_tokens_nonempty(pre);
        }
        if b == 32 || b == 9 || b == 10 || b == 12 || b == 13 {
        } else if i >= 1 && !(line[i - 1] == 32 || line[i - 1] == 9 || line[i - 1] == 10
            || line[i - 1] == 12 || line[i - 1] == 13) {
            assert(cur[cur.len() - 2] == line@[i - 1]);
            let last = flags.len() - 1;
            flags.set(last, false);
            proof {
                let t = tokens(pre);
                assert(t.last().push(b).len() >= 2);
                assert(!is_one(t.last().push(b)));
            }
        } else {
            flags.push(b == 49);
            proof {
                assert(is_one(seq![b]) == (b == 49)) by {
                    if b == 49 {
                        assert(seq![b] =~= seq![49u8]);
                    } else {
                        assert(seq![b][0] != seq![49u8][0]);
                    }
                }
            }
        }
        assert(flags@ =~= row_flags(cur));
        i = i + 1;
    }
    assert(line@.subrange(0, line@.len() as int) =~= line@);
    flags
}

/// The lines of a matrix as byte sequences.
pub open spec fn line_views(lines: Seq<Vec<u8>>) -> Seq<Seq<u8>> {
    lines.map_values(|l: Vec<u8>| l@)
}

/// The matrix has a `1` at row `r`, column `c`, among the first `rows`
/// rows and, in row `rows`, the first `cols` columns.
pub open spec fn entry_before(lines: Seq<Seq<u8>>, r: int, c: int, rows: int, cols: int) -> bool {
    entry(lines, r, c) && (r < rows || (r == rows && c < cols))
}

/// Builds the undirected graph that a `0`/`1` adjacency matrix describes:
/// one line per row, tokens separated by ASCII whitespace, the number of
/// vertices taken from the last line. A `1` at row `r`, column `c` joins `r`
/// and `c`; a `1` on the diagonal adds nothing.
pub fn graph_from_lines(lines: &Vec<Vec<u8>>) -> (r: Result<Graph, GraphError>)
    ensures
        r is Ok <==> matrix_size(line_views(lines@)) <= i32::MAX && entries_in_range(
            line_views(lines@),
        ),
        matrix_size(line_views(lines@)) > i32::MAX ==> r == Err::<Graph, GraphError>(
            GraphError::TooManyVertices,
        ),
        r matches Err(GraphError::EntryOutOfRange { row, column }) ==> entry(
            line_views(lines@),
            row as int,
            column as int,
        ) && !(row < matrix_size(line_views(lines@)) && column < matrix_size(line_views(lines@))),
        r matches Ok(g) ==> csr_rows(g).len() == matrix_size(line_views(lines@)) && forall|
            v: int,
            w: int,
        |
            0 <= v < csr_rows(g).len() && 0 <= w < csr_rows(g).len() ==> (#[trigger] adjacent(
                csr_rows(g),
                v,
                w,
            ) <==> v != w && (entry(line_views(lines@), v, w) || entry(line_views(lines@), w, v))),
{
    let ghost m = line_views(lines@);
    let n: usize = if lines.len() == 0 {
        0
    } else {
        row_entries(&lines[lines.len() - 1]).len()
    };
    assert(n == matrix_size(m));
    if n > 2147483647 {
        return Err(GraphError::TooManyVertices);
    }
    let mut g = with_nodes(n);
    let mut r: usize = 0;
    while r < lines.len()
        invariant
            m == line_views(lines@),
            n == matrix_size(m),
            n <= i32::MAX,
            r <= lines@.len(),
            csr_rows(g).len() == n,
            forall|i: int, j: int| #[trigger] entry_before(m, i, j, r as int, 0) ==> i < n && j < n,
            forall|v: int, w: int|
                0 <= v < n && 0 <= w < n ==> (#[trigger] adjacent(csr_rows(g), v, w) <==> v != w
                    && (entry_before(m, v, w, r as int, 0) || entry_before(m, w, v, r as int, 0))),
        decreases lines@.len() - r,
    {
        let flags = row_entries(&lines[r]);
        let mut c: usize = 0;
        while c < flags.len()
            invariant
                m == line_views(lines@),
                n == matrix_size(m),
                n <= i32::MAX,
                r < lines@.len(),
                flags@ == row_flags(m[r as int]),
                c <= flags@.len(),
                csr_rows(g).len() == n,
                forall|i: int, j: int|
                    #[trigger] entry_before(m, i, j, r as int, c as int) ==> i < n && j < n,
                forall|v: int, w: int|
                    0 <= v < n && 0 <= w < n ==> (#[trigger] adjacent(csr_rows(g), v, w) <==> v
                        != w && (entry_before(m, v, w, r as int, c as int) || entry_before(
                        m,
                        w,
                        v,
                        r as int,
                        c as int,
                    ))),
            decreases flags@.len() - c,
        {
            if flags[c] {
                assert(entry(m, r as int, c as int));
                if r >= n || c >= n {
                    return Err(GraphError::EntryOutOfRange { row: r, column: c });
                }
                if r != c {
                    let ghost before = csr_rows(g);
                    add_edge(&mut g, r as u32, c as u32);
                    assert forall|v: int, w: int|
                        0 <= v < n && 0 <= w < n implies (#[trigger] adjacent(csr_rows(g), v, w)
                        <==> v != w && (entry_before(m, v, w, r as int, c + 1) || entry_before(
                        m,
                        w,
                        v,
                        r as int,
                        c + 1,
                    ))) by {
                        assert(csr_rows(g)[v].contains(w as u32) <==> (before[v].contains(w as u32)
                            || (v == r && w as u32 == c as u32) || (v == c && w as u32 == r as u32)));
                        assert(adjacent(before, v, w) == before[v].contains(w as u32));
                    }
                }
            }
            assert forall|i: int, j: int| #[trigger] entry_before(m, i, j, r as int, c + 1) implies i
                < n && j < n by {
                if !(i == r && j == c) {
                    assert(entry_before(m, i, j, r as int, c as int));
                }
            }
            c = c + 1;
        }
        assert forall|i: int, j: int| #[trigger] entry_before(m, i, j, r + 1, 0) implies entry_before(
            m,
            i,
            j,
            r as int,
            c as int,
        ) by {}
        assert forall|v: int, w: int|
            0 <= v < n && 0 <= w < n implies (#[trigger] adjacent(csr_rows(g), v, w) <==> v != w
            && (entry_before(m, v, w, r + 1, 0) || entry_before(m, w, v, r + 1, 0))) by {
            assert(entry_before(m, v, w, r + 1, 0) == entry_before(m, v, w, r as int, c as int));
            assert(entry_before(m, w, v, r + 1, 0) == entry_before(m, w, v, r as int, c as int));
        }
        r = r + 1;
    }
    assert forall|i: int, j: int| #[trigger] entry(m, i, j) implies i < matrix_size(m) && j
        < matrix_size(m) by {
        assert(entry_before(m, i, j, r as int, 0));
    }
    assert forall|v: int, w: int|
        0 <= v < n && 0 <= w < n implies (#[trigger] adjacent(csr_rows(g), v, w) <==> v != w && (
        entry(m, v, w) || entry(m, w, v))) by {
        assert(entry_before(m, v, w, r as int, 0) == entry(m, v, w));
        assert(entry_before(m, w, v, r as int, 0) == entry(m, w, v));
    }
    Ok(g)
}

} // verus!
