use vstd::prelude::*;

use crate::graph::GameGraph;
use crate::model::{
    cut_one, cut_points, first_index, forest_spec, game_value, incidence, touches, vcount, vset,
    Edge,
};
use crate::model::{
    lemma_cut_one_remove, lemma_first_index, lemma_game_value_bounds, lemma_incidence_pos,
    lemma_vset_contains,
};

verus! {

/// Score bounds: for any position with V vertices, the optimal net score
/// lies between -V and V.
pub proof fn lemma_score_bounds(es: Seq<Edge>)
    ensures
        -(vcount(es) as int) <= game_value(es) <= vcount(es) as int,
{
    lemma_game_value_bounds(es);
}

/// Forest detector fast paths: more edges than vertices is never reported
/// a forest, and a single edge always is.
pub proof fn lemma_forest_fast_paths(es: Seq<Edge>)
    ensures
        es.len() > vcount(es) ==> !forest_spec(es),
        es.len() == 1 && es.len() <= vcount(es) ==> forest_spec(es),
{
}

proof fn lemma_incidence_two(es: Seq<Edge>, i: int, j: int, v: usize)
    requires
        0 <= i < j < es.len(),
        touches(es[i], v),
        touches(es[j], v),
    ensures
        incidence(es, v) >= 2,
    decreases es.len(),
{
    if j == es.len() - 1 {
        lemma_incidence_pos(es.drop_last(), v);
        assert(touches(es.drop_last()[i], v));
    } else {
        assert(touches(es.drop_last()[i], v));
        assert(touches(es.drop_last()[j], v));
        lemma_incidence_two(es.drop_last(), i, j, v);
    }
}

proof fn lemma_incidence_second(es: Seq<Edge>, v: usize, w: int)
    requires
        0 <= w < es.len(),
        incidence(es, v) >= 2,
    ensures
        exists|i: int| 0 <= i < es.len() && i != w && touches(#[trigger] es[i], v),
    decreases es.len(),
{
    let last = es.len() - 1;
    if touches(es[last], v) {
        if w != last {
            assert(touches(es[last], v));
        } else {
            assert(incidence(es.drop_last(), v) >= 1);
            lemma_incidence_pos(es.drop_last(), v);
            let i = choose|i: int|
                0 <= i < es.drop_last().len() && touches(#[trigger] es.drop_last()[i], v);
            assert(touches(es[i], v));
        }
    } else {
        assert(incidence(es.drop_last(), v) >= 2);
        if w < last {
            lemma_incidence_second(es.drop_last(), v, w);
            let i = choose|i: int|
                0 <= i < es.drop_last().len() && i != w && touches(#[trigger] es.drop_last()[i], v);
            assert(touches(es[i], v));
        } else {
            lemma_incidence_pos(es.drop_last(), v);
            let i = choose|i: int|
                0 <= i < es.drop_last().len() && touches(#[trigger] es.drop_last()[i], v);
            assert(touches(es[i], v));
        }
    }
}

/// Edge-cut points: cutting an edge whose two distinct endpoints each have
/// exactly one incident edge scores two points and removes both vertices;
/// cutting one whose endpoints each keep another incident edge scores none.
pub proof fn lemma_edge_cut_points(es: Seq<Edge>, e: Edge)
    requires
        es.contains(e),
    ensures
        e.0 != e.1 && incidence(es, e.0) == 1 && incidence(es, e.1) == 1 ==> cut_points(es, e) == 2
            && !vset(cut_one(es, e)).contains(e.0) && !vset(cut_one(es, e)).contains(e.1),
        incidence(es, e.0) >= 2 && incidence(es, e.1) >= 2 ==> cut_points(es, e) == 0,
{
    let h = choose|h: int| 0 <= h < es.len() && es[h] == e;
    lemma_first_index(es, e, h);
    let w = first_index(es, e);
    lemma_cut_one_remove(es, e, w);
    let after = cut_one(es, e);
    if e.0 != e.1 && incidence(es, e.0) == 1 && incidence(es, e.1) == 1 {
        assert(!vset(after).contains(e.0)) by {
            lemma_vset_contains(after, e.0);
            if vset(after).contains(e.0) {
                let t = choose|t: int| 0 <= t < after.len() && touches(#[trigger] after[t], e.0);
                if t < w {
                    lemma_incidence_two(es, t, w, e.0);
                } else {
                    lemma_incidence_two(es, w, t + 1, e.0);
                }
            }
        }
        assert(!vset(after).contains(e.1)) by {
            lemma_vset_contains(after, e.1);
            if vset(after).contains(e.1) {
                let t = choose|t: int| 0 <= t < after.len() && touches(#[trigger] after[t], e.1);
                if t < w {
                    lemma_incidence_two(es, t, w, e.1);
                } else {
                    lemma_incidence_two(es, w, t + 1, e.1);
                }
            }
        }
    }
    if incidence(es, e.0) >= 2 && incidence(es, e.1) >= 2 {
        assert(vset(after).contains(e.0)) by {
            lemma_incidence_second(es, e.0, w);
            let i = choose|i: int| 0 <= i < es.len() && i != w && touches(#[trigger] es[i], e.0);
            lemma_vset_contains(after, e.0);
            if i < w {
                assert(touches(after[i], e.0));
            } else {
                assert(touches(after[i - 1], e.0));
            }
        }
        assert(vset(after).contains(e.1)) by {
            lemma_incidence_second(es, e.1, w);
            let i = choose|i: int| 0 <= i < es.len() && i != w && touches(#[trigger] es[i], e.1);
            lemma_vset_contains(after, e.1);
            if i < w {
                assert(touches(after[i], e.1));
            } else {
                assert(touches(after[i - 1], e.1));
            }
        }
    }
}

/// The edge list of a star: the hub `c` tied to each leaf once.
pub open spec fn star_edges(c: usize, leaves: Seq<usize>) -> Seq<Edge> {
    Seq::new(leaves.len(), |k: int| (c, leaves[k]))
}

proof fn lemma_star_incidence(c: usize, leaves: Seq<usize>, v: usize)
    requires
        !leaves.contains(c),
        leaves.no_duplicates(),
    ensures
        leaves.contains(v) ==> incidence(star_edges(c, leaves), v) == 1,
        incidence(star_edges(c, leaves), c) == leaves.len(),
    decreases leaves.len(),
{
    let es = star_edges(c, leaves);
    if leaves.len() > 0 {
        let lead = leaves.drop_last();
        assert(!lead.contains(c)) by {
            if lead.contains(c) {
                let i = choose|i: int| 0 <= i < lead.len() && lead[i] == c;
                assert(leaves[i] == c);
            }
        }
        lemma_star_incidence(c, lead, v);
        assert(es.drop_last() =~= star_edges(c, lead));
        assert(es.last() == (c, leaves.last()));
        if leaves.contains(v) {
            let i = choose|i: int| 0 <= i < leaves.len() && leaves[i] == v;
            assert(v != c);
            if i == leaves.len() - 1 {
                assert(!lead.contains(v)) by {
                    if lead.contains(v) {
                        let j = choose|j: int| 0 <= j < lead.len() && lead[j] == v;
                        assert(leaves[j] == leaves[i]);
                    }
                }
                lemma_star_incidence_absent(c, lead, v);
            } else {
                assert(lead[i] == v);
                assert(lead.contains(v));
                assert(leaves.last() != v);
            }
        }
    }
}

proof fn lemma_star_incidence_absent(c: usize, leaves: Seq<usize>, v: usize)
    requires
        !leaves.contains(v),
        v != c,
    ensures
        incidence(star_edges(c, leaves), v) == 0,
    decreases leaves.len(),
{
    let es = star_edges(c, leaves);
    if leaves.len() > 0 {
        let lead = leaves.drop_last();
        assert(!lead.contains(v)) by {
            if lead.contains(v) {
                let i = choose|i: int| 0 <= i < lead.len() && lead[i] == v;
                assert(leaves[i] == v);
            }
        }
        lemma_star_incidence_absent(c, lead, v);
        assert(es.drop_last() =~= star_edges(c, lead));
        assert(leaves.last() != v);
    }
}

proof fn lemma_round_of_all_ended(full: Seq<Edge>, sub: Seq<Edge>)
    requires
        forall|i: int| 0 <= i < sub.len() ==> !crate::model::keeps(full, #[trigger] sub[i]),
    ensures
        crate::model::round_of(full, sub).len() == 0,
    decreases sub.len(),
{
    if sub.len() > 0 {
        lemma_round_of_all_ended(full, sub.drop_last());
    }
}

/// Forest detector on stars: a hub tied once to each of two or more
/// distinct leaves is reported a forest; one round of pruning consumes
/// every edge.
pub proof fn lemma_star_is_forest(c: usize, leaves: Seq<usize>)
    requires
        !leaves.contains(c),
        leaves.no_duplicates(),
        leaves.len() >= 2,
    ensures
        forest_spec(star_edges(c, leaves)),
{
    let es = star_edges(c, leaves);
    assert forall|i: int| 0 <= i < es.len() implies !crate::model::keeps(es, #[trigger] es[i]) by {
        assert(es[i] == (c, leaves[i]));
        assert(leaves.contains(leaves[i]));
        lemma_star_incidence(c, leaves, leaves[i]);
        assert(incidence(es, leaves[i]) == 1);
    }
    lemma_round_of_all_ended(es, es);
    assert(crate::model::prune_round(es).len() == 0);
    assert(crate::model::is_end(es, leaves[0])) by {
        assert(leaves.contains(leaves[0]));
        lemma_star_incidence(c, leaves, leaves[0]);
    }
    assert(crate::model::has_end(es));
    assert(crate::model::prune(es, es.len()) =~= crate::model::prune(
        crate::model::prune_round(es),
        (es.len() - 1) as nat,
    ));
    assert(crate::model::pruned(es).len() == 0);
    lemma_star_vcount(c, leaves);
    assert(es.len() < vcount(es));
}

proof fn lemma_star_vcount(c: usize, leaves: Seq<usize>)
    requires
        !leaves.contains(c),
        leaves.no_duplicates(),
    ensures
        vcount(star_edges(c, leaves)) as int == if leaves.len() == 0 {
            0int
        } else {
            leaves.len() as int + 1
        },
    decreases leaves.len(),
{
    let es = star_edges(c, leaves);
    crate::model::lemma_vset_finite(es);
    if leaves.len() == 0 {
        assert(vset(es) =~= Set::<usize>::empty());
        Seq::<usize>::empty().unique_seq_to_set();
        assert(Seq::<usize>::empty().to_set() =~= Set::<usize>::empty());
        assert(vset(es).len() == 0) by {
            assert(vset(es).len() == Seq::<usize>::empty().to_set().len());
        }
        assert(vcount(es) == 0);
    } else {
        let lead = leaves.drop_last();
        assert(!lead.contains(c)) by {
            if lead.contains(c) {
                let i = choose|i: int| 0 <= i < lead.len() && lead[i] == c;
                assert(leaves[i] == c);
            }
        }
        lemma_star_vcount(c, lead);
        assert(es.drop_last() =~= star_edges(c, lead));
        crate::model::lemma_vset_finite(star_edges(c, lead));
        let prev = vset(star_edges(c, lead));
        assert(vset(es) == prev.insert(c).insert(leaves.last()));
        assert(prev.contains(c) || lead.len() == 0) by {
            if lead.len() > 0 {
                crate::model::lemma_vset_contains(star_edges(c, lead), c);
                assert(crate::model::touches(star_edges(c, lead)[0], c));
            }
        }
        assert(!prev.contains(leaves.last())) by {
            crate::model::lemma_vset_contains(star_edges(c, lead), leaves.last());
            if prev.contains(leaves.last()) {
                let i = choose|i: int|
                    0 <= i < star_edges(c, lead).len() && crate::model::touches(
                        #[trigger] star_edges(c, lead)[i],
                        leaves.last(),
                    );
                assert(star_edges(c, lead)[i] == (c, lead[i]));
                assert(lead[i] == leaves.last() || c == leaves.last());
                assert(leaves[i] == leaves.last() && i < leaves.len() - 1);
            }
        }
        if lead.len() == 0 {
            assert(prev =~= Set::<usize>::empty());
            assert(vset(es) =~= Set::<usize>::empty().insert(c).insert(leaves.last()));
            assert(c != leaves.last());
            assert(vset(es).len() == 2);
        } else {
            assert(prev.insert(c) =~= prev);
            assert(vset(es) =~= prev.insert(leaves.last()));
            assert(vset(es).len() == prev.len() + 1);
        }
    }
}

/// The edge list of a path: `m` edges linking `a, a+1, ..., a+m`.
pub open spec fn path_edges(a: usize, m: nat) -> Seq<Edge> {
    Seq::new(m, |i: int| (((a + i) as usize, (a + i + 1) as usize)))
}

proof fn lemma_path_incidence(a: usize, m: nat, v: usize)
    requires
        a + m <= usize::MAX,
    ensures
        incidence(path_edges(a, m), v) == if m == 0 {
            0int
        } else if v == a || v == a + m {
            1int
        } else if a < v < a + m {
            2int
        } else {
            0int
        },
    decreases m,
{
    let es = path_edges(a, m);
    if m > 0 {
        lemma_path_incidence(a, (m - 1) as nat, v);
        assert(es.drop_last() =~= path_edges(a, (m - 1) as nat));
        assert(es.last() == (((a + m - 1) as usize, (a + m) as usize)));
    }
}

proof fn lemma_path_round_prefix(a: usize, m: nat, t: int)
    requires
        a + m <= usize::MAX,
        m >= 2,
        0 <= t <= m,
    ensures
        crate::model::round_of(path_edges(a, m), path_edges(a, m).take(t)) == if t <= 1 {
            Seq::<Edge>::empty()
        } else if t < m {
            path_edges((a + 1) as usize, (t - 1) as nat)
        } else {
            path_edges((a + 1) as usize, (m - 2) as nat)
        },
    decreases t,
{
    let es = path_edges(a, m);
    let sub = es.take(t);
    if t > 0 {
        lemma_path_round_prefix(a, m, t - 1);
        assert(sub.drop_last() =~= es.take(t - 1));
        assert(sub.last() == es[t - 1]);
        let e = es[t - 1];
        assert(e == (((a + t - 1) as usize, (a + t) as usize)));
        lemma_path_incidence(a, m, e.0);
        lemma_path_incidence(a, m, e.1);
        if t == 1 {
            assert(e.0 == a);
            assert(!crate::model::keeps(es, e));
        } else if t == m {
            assert(e.1 == a + m);
            assert(!crate::model::keeps(es, e));
            assert(crate::model::round_of(es, sub) =~= path_edges(
                (a + 1) as usize,
                (m - 2) as nat,
            ));
        } else {
            assert(a < e.0 < a + m && a < e.1 < a + m);
            assert(crate::model::keeps(es, e));
            assert(crate::model::round_of(es, sub) =~= path_edges(
                (a + 1) as usize,
                (t - 1) as nat,
            ));
        }
    }
}

/// Forest detector on paths: a simple path of any length is reported a
/// forest; each pruning round peels both ends.
pub proof fn lemma_path_is_forest(a: usize, m: nat)
    requires
        a + m <= usize::MAX,
    ensures
        forest_spec(path_edges(a, m)),
    decreases m,
{
    let es = path_edges(a, m);
    lemma_path_vcount(a, m);
    if m == 0 {
        assert(es.len() == 0);
        assert(!crate::model::has_end(es)) by {
            if crate::model::has_end(es) {
                let v = choose|v: usize| crate::model::is_end(es, v);
                lemma_path_incidence(a, m, v);
            }
        }
        assert(crate::model::pruned(es) == es);
    } else if m == 1 {
        assert(es.len() == 1 && vcount(es) == 2);
    } else {
        lemma_path_is_forest((a + 1) as usize, (m - 2) as nat);
        assert(es.take(m as int) =~= es);
        lemma_path_round_prefix(a, m, m as int);
        assert(crate::model::prune_round(es) == path_edges((a + 1) as usize, (m - 2) as nat));
        assert(crate::model::is_end(es, a)) by {
            lemma_path_incidence(a, m, a);
        }
        assert(crate::model::has_end(es));
        let inner = path_edges((a + 1) as usize, (m - 2) as nat);
        assert(forest_spec(inner));
        assert(inner.len() == m - 2);
        lemma_path_vcount((a + 1) as usize, (m - 2) as nat);
        assert(crate::model::prune(es, m) == crate::model::prune(inner, (m - 1) as nat));
        crate::model::lemma_prune_compose(inner, (m - 2) as nat, 1);
        if inner.len() == 1 {
            // A single inner edge: its two ends fall in the next round.
            lemma_path_incidence((a + 1) as usize, 1, (a + 1) as usize);
            assert(crate::model::is_end(inner, (a + 1) as usize));
            assert(crate::model::has_end(inner));
            assert(inner.last() == inner[0]);
            assert(inner[0].0 == (a + 1) as usize);
            assert(inner.drop_last().len() == 0);
            assert(crate::model::round_of(inner, inner.drop_last()).len() == 0);
            assert(!crate::model::keeps(inner, inner.last()));
            assert(crate::model::prune_round(inner).len() == 0);
            assert(crate::model::prune(inner, (m - 1) as nat) == crate::model::prune(
                crate::model::prune_round(inner),
                (m - 2) as nat,
            ));
            lemma_prune_stable_empty(crate::model::prune_round(inner), (m - 2) as nat);
        } else {
            assert(crate::model::prune(inner, (m - 2) as nat).len() == 0);
            assert(crate::model::prune(inner, (m - 1) as nat)
                == crate::model::prune(crate::model::prune(inner, (m - 2) as nat), 1));
            lemma_prune_stable_empty(crate::model::prune(inner, (m - 2) as nat), 1);
        }
        assert(crate::model::pruned(es).len() == 0);
    }
}

proof fn lemma_prune_stable_empty(es: Seq<Edge>, f: nat)
    requires
        es.len() == 0,
    ensures
        crate::model::prune(es, f).len() == 0,
{
    if crate::model::has_end(es) {
        let v = choose|v: usize| crate::model::is_end(es, v);
        assert(incidence(es, v) == 0);
    }
}

proof fn lemma_path_vcount(a: usize, m: nat)
    requires
        a + m <= usize::MAX,
    ensures
        vcount(path_edges(a, m)) as int == if m == 0 {
            0int
        } else {
            m as int + 1
        },
    decreases m,
{
    let es = path_edges(a, m);
    crate::model::lemma_vset_finite(es);
    if m == 0 {
        assert(vset(es) =~= Set::<usize>::empty());
        assert(vset(es).len() == 0) by {
            Seq::<usize>::empty().unique_seq_to_set();
            assert(Seq::<usize>::empty().to_set() =~= Set::<usize>::empty());
        }
    } else {
        let lead = path_edges(a, (m - 1) as nat);
        lemma_path_vcount(a, (m - 1) as nat);
        crate::model::lemma_vset_finite(lead);
        assert(es.drop_last() =~= lead);
        assert(es.last() == (((a + m - 1) as usize, (a + m) as usize)));
        let prev = vset(lead);
        assert(vset(es) == prev.insert((a + m - 1) as usize).insert((a + m) as usize));
        assert(prev.contains((a + m - 1) as usize) || m == 1) by {
            if m > 1 {
                crate::model::lemma_vset_contains(lead, (a + m - 1) as usize);
                assert(crate::model::touches(lead[m - 2], (a + m - 1) as usize));
            }
        }
        assert(!prev.contains((a + m) as usize)) by {
            crate::model::lemma_vset_contains(lead, (a + m) as usize);
            if prev.contains((a + m) as usize) {
                let i = choose|i: int|
                    0 <= i < lead.len() && crate::model::touches(
                        #[trigger] lead[i],
                        (a + m) as usize,
                    );
                assert(lead[i] == (((a + i) as usize, (a + i + 1) as usize)));
            }
        }
        if m == 1 {
            assert(prev =~= Set::<usize>::empty());
            assert(vset(es) =~= Set::<usize>::empty().insert(a).insert((a + 1) as usize));
            assert(vset(es).len() == 2);
        } else {
            assert(prev.insert((a + m - 1) as usize) =~= prev);
            assert(vset(es) =~= prev.insert((a + m) as usize));
        }
    }
}

/// Key idempotence: asking one position for its canonical key twice hands
/// back the same string both times.
pub fn canonical_key_is_stable(g: &mut GameGraph) -> (r: (String, String))
    requires
        old(g).wf(),
    ensures
        r.0@ == r.1@,
        final(g).wf(),
        final(g).edges@ == old(g).edges@,
{
    let first_key = g.get_key();
    let second_key = g.get_key();
    (first_key, second_key)
}

} // verus!
