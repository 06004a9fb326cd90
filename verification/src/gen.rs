use vstd::prelude::*;

use crate::model::Edge;

verus! {

/// The first edge a grid cell contributes: a self-loop on a border row,
/// else the link to the cell below.
pub open spec fn grid_vertical_edge(m: int, n: int, i: int, j: int) -> Edge {
    let v = i * n + j;
    if i == 0 || i == m - 1 {
        (v as usize, v as usize)
    } else {
        (v as usize, (v + n) as usize)
    }
}

/// The second edge a grid cell contributes: a self-loop on a border
/// column, else the link to the cell at its right.
pub open spec fn grid_horizontal_edge(m: int, n: int, i: int, j: int) -> Edge {
    let v = i * n + j;
    if j == 0 || j == n - 1 {
        (v as usize, v as usize)
    } else {
        (v as usize, (v + 1) as usize)
    }
}

/// The m-by-n grid position: every cell wires one vertical and one
/// horizontal edge, self-loops standing in at the borders.
pub fn edges_for_m_by_n_grid(m: usize, n: usize) -> (r: Vec<Edge>)
    requires
        2 * m * n <= usize::MAX,
    ensures
        r@.len() == 2 * m * n,
        forall|i: int, j: int|
            0 <= i < m && 0 <= j < n ==> r@[2 * (i * n + j)] == grid_vertical_edge(
                m as int,
                n as int,
                i,
                j,
            ) && r@[2 * (i * n + j) + 1] == grid_horizontal_edge(m as int, n as int, i, j),
{
    let mut edges: Vec<Edge> = Vec::new();
    let mut i: usize = 0;
    while i < m
        invariant
            i <= m,
            2 * m * n <= usize::MAX,
            edges@.len() == 2 * i * n,
            forall|a: int, b: int|
                0 <= a < i && 0 <= b < n ==> edges@[2 * (a * n + b)] == grid_vertical_edge(
                    m as int,
                    n as int,
                    a,
                    b,
                ) && edges@[2 * (a * n + b) + 1] == grid_horizontal_edge(m as int, n as int, a, b),
        decreases m - i,
    {
        proof {
            assert(2 * i * n + 2 * n <= 2 * m * n) by (nonlinear_arith)
                requires
                    i < m,
                    2 * m * n <= usize::MAX,
            ;
        }
        let mut j: usize = 0;
        while j < n
            invariant
                i < m,
                j <= n,
                2 * m * n <= usize::MAX,
                2 * i * n + 2 * n <= 2 * m * n,
                edges@.len() == 2 * i * n + 2 * j,
                forall|a: int, b: int|
                    0 <= a < i && 0 <= b < n ==> edges@[2 * (a * n + b)] == grid_vertical_edge(
                        m as int,
                        n as int,
                        a,
                        b,
                    ) && edges@[2 * (a * n + b) + 1] == grid_horizontal_edge(
                        m as int,
                        n as int,
                        a,
                        b,
                    ),
                forall|b: int|
                    0 <= b < j ==> edges@[2 * (i * n + b)] == grid_vertical_edge(
                        m as int,
                        n as int,
                        i as int,
                        b,
                    ) && edges@[2 * (i * n + b) + 1] == grid_horizontal_edge(
                        m as int,
                        n as int,
                        i as int,
                        b,
                    ),
            decreases n - j,
        {
            proof {
                assert(i * n + j < m * n && 2 * (i as int * n + j) == 2 * i * n + 2 * j) by (
                nonlinear_arith)
                    requires
                        i < m,
                        j < n,
                ;
            }
            let vertex = i * n + j;
            let ghost e0 = edges@;
            if i == 0 || i == m - 1 {
                edges.push((vertex, vertex));
            } else {
                edges.push((vertex, vertex + n));
            }
            if j == 0 || j == n - 1 {
                edges.push((vertex, vertex));
            } else {
                edges.push((vertex, vertex + 1));
            }
            proof {
                assert(forall|t: int| 0 <= t < e0.len() ==> edges@[t] == e0[t]);
                assert(edges@[2 * (i as int * n + j)] == grid_vertical_edge(
                    m as int,
                    n as int,
                    i as int,
                    j as int,
                ));
                assert(edges@[2 * (i as int * n + j) + 1] == grid_horizontal_edge(
                    m as int,
                    n as int,
                    i as int,
                    j as int,
                ));
                assert forall|a: int, b: int|
                    0 <= a < i && 0 <= b < n implies edges@[2 * (a * n + b)]
                    == grid_vertical_edge(m as int, n as int, a, b) && edges@[2 * (a * n + b) + 1]
                    == grid_horizontal_edge(m as int, n as int, a, b) by {
                    assert(0 <= 2 * (a * n + b) && 2 * (a * n + b) + 1 < e0.len()) by (
                    nonlinear_arith)
                        requires
                            0 <= a < i,
                            0 <= b < n,
                            e0.len() == 2 * (i as int) * n + 2 * j,
                    ;
                }
                assert forall|b: int|
                    0 <= b < j implies edges@[2 * (i as int * n + b)] == grid_vertical_edge(
                    m as int,
                    n as int,
                    i as int,
                    b,
                ) && edges@[2 * (i as int * n + b) + 1] == grid_horizontal_edge(
                    m as int,
                    n as int,
                    i as int,
                    b,
                ) by {
                    assert(0 <= 2 * (i as int * n + b) && 2 * (i as int * n + b) + 1 < e0.len())
                        by (nonlinear_arith)
                        requires
                            0 <= b < j,
                            e0.len() == 2 * (i as int) * n + 2 * j,
                    ;
                }
            }
            j += 1;
        }
        proof {
            assert(2 * i * n + 2 * n == 2 * (i + 1) * n) by (nonlinear_arith);
        }
        i += 1;
    }
    edges
}

/// Row `i` of the complete graph's edge list: `(i, j)` for every `j`
/// above `i`.
pub open spec fn complete_row(i: int, n: int) -> Seq<Edge> {
    Seq::new((n - i - 1) as nat, |k: int| ((i as usize, (i + 1 + k) as usize)))
}

/// The first `upto` rows, concatenated.
pub open spec fn complete_rows(n: int, upto: int) -> Seq<Edge>
    decreases upto,
{
    if upto <= 0 {
        Seq::empty()
    } else {
        complete_rows(n, upto - 1) + complete_row(upto - 1, n)
    }
}

/// The complete graph on `n` vertices: every unordered pair once, rows in
/// ascending order of the lower endpoint.
pub fn edges_for_complete_graph(n: usize) -> (r: Vec<Edge>)
    requires
        1 <= n,
        n * n <= usize::MAX,
    ensures
        r@ == complete_rows(n as int, n as int - 1),
{
    let mut edges: Vec<Edge> = Vec::new();
    let mut i: usize = 0;
    while i < n - 1
        invariant
            i <= n - 1,
            n * n <= usize::MAX,
            edges@ == complete_rows(n as int, i as int),
        decreases n - i,
    {
        let mut j: usize = i + 1;
        while j < n
            invariant
                i < n,
                i + 1 <= j <= n,
                n * n <= usize::MAX,
                edges@ == complete_rows(n as int, i as int) + complete_row(i as int, n as int)
                    .take(j - i - 1),
            decreases n - j,
        {
            edges.push((i, j));
            proof {
                assert(complete_row(i as int, n as int).take(j - i) =~= complete_row(
                    i as int,
                    n as int,
                ).take(j - i - 1).push((i, j)));
                assert(edges@ =~= complete_rows(n as int, i as int) + complete_row(
                    i as int,
                    n as int,
                ).take(j + 1 - i - 1));
            }
            j += 1;
        }
        proof {
            assert(complete_row(i as int, n as int).take(n - i - 1) =~= complete_row(
                i as int,
                n as int,
            ));
            assert(edges@ =~= complete_rows(n as int, i as int + 1));
        }
        i += 1;
    }
    edges
}

/// Rim edge `i` of the wheel: the link to the next rim vertex.
pub open spec fn wheel_rim_edge(i: int) -> Edge {
    ((i as usize, (i + 1) as usize))
}

/// Spoke edge `i` of the wheel: the link to the hub `n`.
pub open spec fn wheel_spoke_edge(i: int, n: int) -> Edge {
    ((i as usize, n as usize))
}

/// The wheel: a cycle of `n` rim vertices, each also tied to the hub `n`.
pub fn edges_for_wheel(n: usize) -> (r: Vec<Edge>)
    requires
        1 <= n,
        2 * n <= usize::MAX,
    ensures
        r@.len() == 2 * n,
        forall|i: int|
            0 <= i < n - 1 ==> r@[2 * i] == #[trigger] wheel_rim_edge(i) && r@[2 * i + 1]
                == wheel_spoke_edge(i, n as int),
        r@[2 * (n - 1)] == (((n - 1) as usize, 0usize)),
        r@[2 * (n - 1) + 1] == (((n - 1) as usize, n)),
{
    let mut edges: Vec<Edge> = Vec::new();
    let mut i: usize = 0;
    while i < n - 1
        invariant
            i <= n - 1,
            n >= 1,
            2 * n <= usize::MAX,
            edges@.len() == 2 * i,
            forall|a: int|
                0 <= a < i ==> edges@[2 * a] == #[trigger] wheel_rim_edge(a) && edges@[2 * a + 1]
                    == wheel_spoke_edge(a, n as int),
        decreases n - 1 - i,
    {
        let ghost e0 = edges@;
        edges.push((i, i + 1));
        edges.push((i, n));
        proof {
            assert(forall|t: int| 0 <= t < e0.len() ==> edges@[t] == e0[t]);
            assert(edges@[2 * (i as int)] == wheel_rim_edge(i as int));
            assert(edges@[2 * (i as int) + 1] == wheel_spoke_edge(i as int, n as int));
        }
        i += 1;
    }
    let ghost e0 = edges@;
    edges.push((n - 1, 0));
    edges.push((n - 1, n));
    proof {
        assert(forall|t: int| 0 <= t < e0.len() ==> edges@[t] == e0[t]);
        assert(edges@[2 * (n - 1)] == (((n - 1) as usize, 0usize)));
        assert(edges@[2 * (n - 1) + 1] == (((n - 1) as usize, n)));
    }
    edges
}

} // verus!
