use vstd::prelude::*;

use crate::graph::{collect_vertices, copy_edges, is_forest_edges, vec_contains_edge};
use crate::model::{
    best_from, branch_value, cut_one, cut_points, forest_spec, game_value, touches, vcount, vset,
    Edge,
};
use crate::model::{
    lemma_best_from_bounds, lemma_cut_one_remove, lemma_cut_vcount, lemma_game_value_bounds,
    lemma_vcount_bound, lemma_vset_contains,
};

verus! {

/// Largest edge count the engines accept, so that every score and every
/// vertex count fits comfortably in an `i64`.
pub open spec fn size_ok(n: nat) -> bool {
    n <= 0x1000_0000_0000
}

/// Is `v` an endpoint of any edge of `es`?
pub fn vset_member(es: &Vec<Edge>, v: usize) -> (r: bool)
    ensures
        r == vset(es@).contains(v),
{
    let mut i: usize = 0;
    while i < es.len()
        invariant
            i <= es@.len(),
            forall|j: int| 0 <= j < i ==> !touches(#[trigger] es@[j], v),
        decreases es@.len() - i,
    {
        let e = es[i];
        if e.0 == v || e.1 == v {
            proof {
                lemma_vset_contains(es@, v);
                assert(touches(es@[i as int], v));
            }
            return true;
        }
        i += 1;
    }
    proof {
        lemma_vset_contains(es@, v);
        if vset(es@).contains(v) {
            let j = choose|j: int| 0 <= j < es@.len() && touches(#[trigger] es@[j], v);
            assert(!touches(es@[j], v));
        }
    }
    false
}

/// The edge-cut operator: remove the first occurrence of `edge` and award
/// one point per endpoint that vanished from the vertex set.
pub fn cut_edge_list(es: &Vec<Edge>, edge: Edge) -> (res: (Vec<Edge>, i64))
    requires
        es@.contains(edge),
    ensures
        res.0@ == cut_one(es@, edge),
        res.1 as int == cut_points(es@, edge),
        0 <= res.1 <= 2,
        res.0@.len() == es@.len() - 1,
        vcount(res.0@) + cut_points(es@, edge) == vcount(es@),
{
    let ghost w = choose|w: int| 0 <= w < es@.len() && es@[w] == edge;
    let n = es.len();
    let mut j: usize = 0;
    while !(es[j].0 == edge.0 && es[j].1 == edge.1)
        invariant
            0 <= j <= w < es@.len(),
            n == es@.len(),
            es@[w] == edge,
            forall|k: int| 0 <= k < j ==> es@[k] != edge,
        decreases es@.len() - j,
    {
        proof {
            assert(es@[j as int] != edge);
            assert(j < w);
        }
        j += 1;
    }
    proof {
        lemma_cut_one_remove(es@, edge, j as int);
        lemma_cut_vcount(es@, edge, j as int);
    }
    let mut new_edges = copy_edges(es);
    new_edges.remove(j);
    let gone0 = !vset_member(&new_edges, edge.0);
    let mut points: i64 = 0;
    if gone0 {
        points += 1;
    }
    if edge.1 != edge.0 && !vset_member(&new_edges, edge.1) {
        points += 1;
    }
    (new_edges, points)
}

/// The search engine with the transposition table disabled: every position is
/// explored afresh. Returns exactly the optimal net score of the position.
pub fn net_score_plain(es: &Vec<Edge>) -> (r: i64)
    requires
        size_ok(es@.len()),
    ensures
        r as int == game_value(es@),
    decreases es@.len(),
{
    proof {
        lemma_vcount_bound(es@);
    }
    let verts = collect_vertices(es);
    let nv = verts.len();
    if is_forest_edges(es, nv) {
        return nv as i64;
    }
    proof {
        lemma_best_from_bounds(es@, 0);
    }
    let mut best: i64 = -(nv as i64);
    let mut tried: Vec<Edge> = Vec::new();
    let mut i: usize = 0;
    while i < es.len()
        invariant
            i <= es@.len(),
            size_ok(es@.len()),
            nv == vcount(es@),
            !forest_spec(es@),
            -(nv as int) <= best as int <= nv as int,
            game_value(es@) == vstd::math::max(best as int, best_from(es@, i as nat)),
            forall|e: Edge| tried@.contains(e) ==> branch_value(es@, e) <= best as int,
        decreases es@.len() - i,
    {
        let e = es[i];
        assert(es@.contains(e));
        proof {
            assert(best_from(es@, i as nat) == vstd::math::max(
                branch_value(es@, es@[i as int]),
                best_from(es@, (i + 1) as nat),
            ));
            lemma_best_from_bounds(es@, (i + 1) as nat);
        }
        if !vec_contains_edge(&tried, e) {
            let ghost tried0 = tried@;
            let ghost best0 = best as int;
            tried.push(e);
            let (new_edges, points) = cut_edge_list(es, e);
            proof {
                lemma_game_value_bounds(new_edges@);
                lemma_vcount_bound(new_edges@);
            }
            let cont = net_score_plain(&new_edges);
            let outcome: i64 = if points > 0 {
                points + cont
            } else {
                -cont
            };
            proof {
                assert(outcome as int == branch_value(es@, e));
            }
            if outcome > best {
                best = outcome;
                if outcome == nv as i64 {
                    proof {
                        assert(game_value(es@) == best as int);
                    }
                    return best;
                }
            }
            proof {
                assert(best0 <= best as int);
                assert forall|x: Edge| tried@.contains(x) implies branch_value(es@, x)
                    <= best as int by {
                    let k = choose|k: int| 0 <= k < tried@.len() && tried@[k] == x;
                    if k < tried0.len() {
                        assert(tried0[k] == x);
                        assert(tried0.contains(x));
                    } else {
                        assert(x == e);
                    }
                }
            }
        }
        i += 1;
    }
    proof {
        assert(best_from(es@, i as nat) == -(vcount(es@) as int));
    }
    best
}

} // verus!
