use vstd::prelude::*;

verus! {

/// An undirected edge of the multigraph: a pair of raw vertex ids.
/// A pair (v, v) is a self-loop.
pub type Edge = (usize, usize);

/// The set of vertices of an edge list: every endpoint that occurs.
pub open spec fn vset(es: Seq<Edge>) -> Set<usize>
    decreases es.len(),
{
    if es.len() == 0 {
        Set::empty()
    } else {
        vset(es.drop_last()).insert(es.last().0).insert(es.last().1)
    }
}

/// Number of distinct vertices of an edge list.
pub open spec fn vcount(es: Seq<Edge>) -> nat {
    vset(es).len()
}

pub open spec fn touches(e: Edge, v: usize) -> bool {
    e.0 == v || e.1 == v
}

/// Remaining incidence of a vertex: how many edge occurrences touch it,
/// a self-loop counted once.
pub open spec fn incidence(es: Seq<Edge>, v: usize) -> nat
    decreases es.len(),
{
    if es.len() == 0 {
        0
    } else {
        incidence(es.drop_last(), v) + if touches(es.last(), v) {
            1nat
        } else {
            0nat
        }
    }
}

/// An "end" is a vertex with exactly one remaining incident edge occurrence.
pub open spec fn is_end(es: Seq<Edge>, v: usize) -> bool {
    incidence(es, v) == 1
}

pub open spec fn has_end(es: Seq<Edge>) -> bool {
    exists|v: usize| is_end(es, v)
}

pub open spec fn keeps(es: Seq<Edge>, e: Edge) -> bool {
    !is_end(es, e.0) && !is_end(es, e.1)
}

/// Filter `sub` by end-status measured against the full list `full`.
pub open spec fn round_of(full: Seq<Edge>, sub: Seq<Edge>) -> Seq<Edge>
    decreases sub.len(),
{
    if sub.len() == 0 {
        sub
    } else {
        let rest = round_of(full, sub.drop_last());
        if keeps(full, sub.last()) {
            rest.push(sub.last())
        } else {
            rest
        }
    }
}

/// One pruning round: drop every edge that touches an end.
pub open spec fn prune_round(es: Seq<Edge>) -> Seq<Edge> {
    round_of(es, es)
}

/// Iterated leaf pruning, bounded by `fuel` rounds.
pub open spec fn prune(es: Seq<Edge>, fuel: nat) -> Seq<Edge>
    decreases fuel,
{
    if fuel == 0 || !has_end(es) {
        es
    } else {
        prune(prune_round(es), (fuel - 1) as nat)
    }
}

/// The fixpoint of pruning; as many rounds as edges always suffice.
pub open spec fn pruned(es: Seq<Edge>) -> Seq<Edge> {
    prune(es, es.len())
}

/// The forest test the detector answers: more edges than vertices is never a
/// forest; a single edge always counts as one; otherwise the graph is a forest
/// exactly when leaf pruning consumes every edge.
pub open spec fn forest_spec(es: Seq<Edge>) -> bool {
    if es.len() > vcount(es) {
        false
    } else if es.len() == 1 {
        true
    } else {
        pruned(es).len() == 0
    }
}

/// The edge list with the first occurrence of `e` removed (unchanged when
/// `e` does not occur).
pub open spec fn cut_one(es: Seq<Edge>, e: Edge) -> Seq<Edge>
    decreases es.len(),
{
    if es.len() == 0 {
        es
    } else if es.first() == e {
        es.drop_first()
    } else {
        seq![es.first()] + cut_one(es.drop_first(), e)
    }
}

/// Points scored by cutting `e`: one per endpoint that thereby vanishes from
/// the vertex set, a self-loop's single endpoint counted once.
pub open spec fn cut_points(es: Seq<Edge>, e: Edge) -> int {
    let after = cut_one(es, e);
    (if !vset(after).contains(e.0) {
        1int
    } else {
        0int
    }) + (if e.1 != e.0 && !vset(after).contains(e.1) {
        1int
    } else {
        0int
    })
}

/// Value of one move: the mover keeps the turn exactly when the cut scored.
/// Only edges of the list are moves; elsewhere the value is immaterial.
pub open spec fn branch_value(es: Seq<Edge>, e: Edge) -> int
    decreases es.len(), 0nat, 0nat,
    via branch_value_decreases
{
    if !es.contains(e) {
        0int
    } else {
        let p = cut_points(es, e);
        let cont = game_value(cut_one(es, e));
        if p > 0 {
            p + cont
        } else {
            -cont
        }
    }
}

#[via_fn]
proof fn branch_value_decreases(es: Seq<Edge>, e: Edge) {
    if es.contains(e) {
        lemma_cut_one_len(es, e);
    }
}

pub proof fn lemma_cut_one_len(es: Seq<Edge>, e: Edge)
    requires
        es.contains(e),
    ensures
        cut_one(es, e).len() == es.len() - 1,
{
    let w = choose|w: int| 0 <= w < es.len() && es[w] == e;
    lemma_first_index(es, e, w);
    lemma_cut_one_remove(es, e, first_index(es, e));
}

/// Best outcome over the moves at indices `i..` of `es`, floored at the
/// worst possible score.
pub open spec fn best_from(es: Seq<Edge>, i: nat) -> int
    decreases es.len(), 1nat, es.len() - i,
{
    if i >= es.len() {
        -(vcount(es) as int)
    } else {
        vstd::math::max(branch_value(es, es[i as int]), best_from(es, i + 1))
    }
}

/// Optimal net score (player one minus player two) under perfect play.
/// A forest is terminal and worth its whole vertex count to the mover.
pub open spec fn game_value(es: Seq<Edge>) -> int
    decreases es.len(), 2nat, 0nat,
{
    if forest_spec(es) {
        vcount(es) as int
    } else {
        best_from(es, 0)
    }
}

// ---------------------------------------------------------------------------
// Basic facts about the vertex set and incidence.
// ---------------------------------------------------------------------------

pub proof fn lemma_vset_finite(es: Seq<Edge>)
    ensures
        vset(es).finite(),
    decreases es.len(),
{
    if es.len() > 0 {
        lemma_vset_finite(es.drop_last());
    }
}

pub proof fn lemma_vset_contains(es: Seq<Edge>, v: usize)
    ensures
        vset(es).contains(v) <==> exists|i: int| 0 <= i < es.len() && touches(#[trigger] es[i], v),
    decreases es.len(),
{
    if es.len() > 0 {
        lemma_vset_contains(es.drop_last(), v);
        if vset(es).contains(v) {
            if touches(es.last(), v) {
                assert(touches(es[es.len() - 1], v));
            } else {
                let i = choose|i: int| 0 <= i < es.len() - 1 && touches(#[trigger] es.drop_last()[i], v);
                assert(touches(es[i], v));
            }
        }
        if exists|i: int| 0 <= i < es.len() && touches(#[trigger] es[i], v) {
            let i = choose|i: int| 0 <= i < es.len() && touches(#[trigger] es[i], v);
            if i < es.len() - 1 {
                assert(touches(es.drop_last()[i], v));
            }
        }
    }
}

pub proof fn lemma_incidence_pos(es: Seq<Edge>, v: usize)
    ensures
        incidence(es, v) > 0 <==> exists|i: int| 0 <= i < es.len() && touches(#[trigger] es[i], v),
    decreases es.len(),
{
    if es.len() > 0 {
        lemma_incidence_pos(es.drop_last(), v);
        if incidence(es, v) > 0 {
            if touches(es.last(), v) {
                assert(touches(es[es.len() - 1], v));
            } else {
                let i = choose|i: int| 0 <= i < es.len() - 1 && touches(#[trigger] es.drop_last()[i], v);
                assert(touches(es[i], v));
            }
        }
        if exists|i: int| 0 <= i < es.len() && touches(#[trigger] es[i], v) {
            let i = choose|i: int| 0 <= i < es.len() && touches(#[trigger] es[i], v);
            if i < es.len() - 1 {
                assert(touches(es.drop_last()[i], v));
            }
        }
    }
}

// ---------------------------------------------------------------------------
// Pruning facts that the detector's loop rests on.
// ---------------------------------------------------------------------------

proof fn lemma_round_of_len(full: Seq<Edge>, sub: Seq<Edge>)
    ensures
        round_of(full, sub).len() <= sub.len(),
    decreases sub.len(),
{
    if sub.len() > 0 {
        lemma_round_of_len(full, sub.drop_last());
    }
}

proof fn lemma_round_of_drops(full: Seq<Edge>, sub: Seq<Edge>, i: int)
    requires
        0 <= i < sub.len(),
        !keeps(full, sub[i]),
    ensures
        round_of(full, sub).len() < sub.len(),
    decreases sub.len(),
{
    if i == sub.len() - 1 {
        lemma_round_of_len(full, sub.drop_last());
    } else {
        lemma_round_of_drops(full, sub.drop_last(), i);
    }
}

/// A round never invents edges, and when an end exists it removes at least one.
pub proof fn lemma_round_shrinks(es: Seq<Edge>)
    ensures
        prune_round(es).len() <= es.len(),
        has_end(es) ==> prune_round(es).len() < es.len(),
{
    lemma_round_of_len(es, es);
    if has_end(es) {
        let v = choose|v: usize| is_end(es, v);
        lemma_incidence_pos(es, v);
        let i = choose|i: int| 0 <= i < es.len() && touches(#[trigger] es[i], v);
        assert(!keeps(es, es[i]));
        lemma_round_of_drops(es, es, i);
    }
}

/// Fuel composes: pruning `a + b` rounds is pruning `a` rounds, then `b`.
pub proof fn lemma_prune_compose(es: Seq<Edge>, a: nat, b: nat)
    ensures
        prune(es, a + b) == prune(prune(es, a), b),
    decreases a,
{
    if a > 0 && has_end(es) {
        lemma_prune_compose(prune_round(es), (a - 1) as nat, b);
    }
}

// ---------------------------------------------------------------------------
// Cutting an edge.
// ---------------------------------------------------------------------------

/// When `e` first occurs at index `j`, cutting it is removing index `j`.
pub proof fn lemma_cut_one_remove(es: Seq<Edge>, e: Edge, j: int)
    requires
        0 <= j < es.len(),
        es[j] == e,
        forall|i: int| 0 <= i < j ==> es[i] != e,
    ensures
        cut_one(es, e) == es.remove(j),
    decreases j,
{
    if j == 0 {
        assert(es.first() == e);
        assert(cut_one(es, e) =~= es.remove(0));
    } else {
        assert(es.first() != e);
        lemma_cut_one_remove(es.drop_first(), e, j - 1);
        assert(cut_one(es, e) =~= es.remove(j));
    }
}

/// Cutting an occurring edge removes exactly the scored endpoints from the
/// vertex set: the vertex count falls by the points value.
pub proof fn lemma_cut_vcount(es: Seq<Edge>, e: Edge, j: int)
    requires
        0 <= j < es.len(),
        es[j] == e,
        forall|i: int| 0 <= i < j ==> es[i] != e,
    ensures
        vset(cut_one(es, e)).subset_of(vset(es)),
        vcount(cut_one(es, e)) + cut_points(es, e) == vcount(es),
{
    lemma_cut_one_remove(es, e, j);
    let after = es.remove(j);
    lemma_vset_finite(es);
    lemma_vset_finite(after);
    lemma_vset_contains(es, e.0);
    lemma_vset_contains(es, e.1);
    assert(vset(es).contains(e.0)) by {
        assert(touches(es[j], e.0));
    }
    assert(vset(es).contains(e.1)) by {
        assert(touches(es[j], e.1));
    }
    assert forall|v: usize| vset(after).contains(v) implies vset(es).contains(v) by {
        lemma_vset_contains(after, v);
        lemma_vset_contains(es, v);
        let i = choose|i: int| 0 <= i < after.len() && touches(#[trigger] after[i], v);
        if i < j {
            assert(touches(es[i], v));
        } else {
            assert(touches(es[i + 1], v));
        }
    }
    assert forall|v: usize|
        vset(es).contains(v) && v != e.0 && v != e.1 implies vset(after).contains(v) by {
        lemma_vset_contains(es, v);
        lemma_vset_contains(after, v);
        let i = choose|i: int| 0 <= i < es.len() && touches(#[trigger] es[i], v);
        assert(i != j);
        if i < j {
            assert(touches(after[i], v));
        } else {
            assert(touches(after[i - 1], v));
        }
    }
    assert(vset(es) =~= vset(after).insert(e.0).insert(e.1));
    if e.0 == e.1 {
        if vset(after).contains(e.0) {
            assert(vset(es) =~= vset(after));
            assert(cut_points(es, e) == 0);
        } else {
            assert(vset(es) =~= vset(after).insert(e.0));
            assert(cut_points(es, e) == 1);
        }
    } else {
        let c0 = vset(after).contains(e.0);
        let c1 = vset(after).contains(e.1);
        if c0 && c1 {
            assert(vset(es) =~= vset(after));
        } else if c0 {
            assert(vset(es) =~= vset(after).insert(e.1));
        } else if c1 {
            assert(vset(es) =~= vset(after).insert(e.0));
        } else {
            assert(vset(es) =~= vset(after).insert(e.0).insert(e.1));
            assert(vset(after).insert(e.0).len() == vset(after).len() + 1);
        }
    }
}

// ---------------------------------------------------------------------------
// Score bounds: the optimal net score of a position with V vertices lies
// in [-V, V].
// ---------------------------------------------------------------------------

pub proof fn lemma_game_value_bounds(es: Seq<Edge>)
    ensures
        -(vcount(es) as int) <= game_value(es) <= vcount(es) as int,
    decreases es.len(), 2nat, 0nat,
{
    if !forest_spec(es) {
        lemma_best_from_bounds(es, 0);
    }
}

pub proof fn lemma_branch_value_bounds(es: Seq<Edge>, e: Edge, j: int)
    requires
        0 <= j < es.len(),
        es[j] == e,
        forall|i: int| 0 <= i < j ==> es[i] != e,
    ensures
        -(vcount(es) as int) <= branch_value(es, e) <= vcount(es) as int,
    decreases es.len(), 0nat, 0nat,
{
    lemma_cut_vcount(es, e, j);
    lemma_cut_one_remove(es, e, j);
    let after = cut_one(es, e);
    lemma_game_value_bounds(after);
    let p = cut_points(es, e);
    assert(0 <= p <= 2);
}

pub proof fn lemma_best_from_bounds(es: Seq<Edge>, i: nat)
    ensures
        -(vcount(es) as int) <= best_from(es, i) <= vcount(es) as int,
    decreases es.len(), 1nat, es.len() - i,
{
    if i >= es.len() {
    } else {
        let e = es[i as int];
        let j = first_index(es, e);
        lemma_first_index(es, e, i as int);
        lemma_branch_value_bounds(es, e, j);
        lemma_best_from_bounds(es, i + 1);
    }
}

/// Index of the first occurrence of an element known to occur.
pub open spec fn first_index(es: Seq<Edge>, e: Edge) -> int
    decreases es.len(),
{
    if es.len() == 0 {
        0
    } else if es.first() == e {
        0
    } else {
        1 + first_index(es.drop_first(), e)
    }
}

pub proof fn lemma_first_index(es: Seq<Edge>, e: Edge, w: int)
    requires
        0 <= w < es.len(),
        es[w] == e,
    ensures
        0 <= first_index(es, e) <= w,
        es[first_index(es, e)] == e,
        forall|i: int| 0 <= i < first_index(es, e) ==> es[i] != e,
    decreases es.len(),
{
    if es.first() == e {
    } else {
        assert(es.drop_first()[w - 1] == e);
        lemma_first_index(es.drop_first(), e, w - 1);
        let f = first_index(es.drop_first(), e);
        assert(es[f + 1] == es.drop_first()[f]);
        assert forall|i: int| 0 <= i < f + 1 implies es[i] != e by {
            if i > 0 {
                assert(es.drop_first()[i - 1] == es[i]);
            }
        }
    }
}


/// Every move's value is covered by the running maximum from any earlier
/// starting index.
pub proof fn lemma_best_from_covers(es: Seq<Edge>, i: nat, j: int)
    requires
        i <= j < es.len(),
    ensures
        best_from(es, i) >= branch_value(es, es[j]),
    decreases j - i,
{
    if i < j {
        lemma_best_from_covers(es, i + 1, j);
    }
}

/// A list of E edges mentions at most 2E distinct vertices.
pub proof fn lemma_vcount_bound(es: Seq<Edge>)
    ensures
        vcount(es) <= 2 * es.len(),
    decreases es.len(),
{
    lemma_vset_finite(es);
    if es.len() > 0 {
        lemma_vcount_bound(es.drop_last());
        lemma_vset_finite(es.drop_last());
        let s = vset(es.drop_last());
        assert(s.insert(es.last().0).len() <= s.len() + 1);
        assert(s.insert(es.last().0).insert(es.last().1).len() <= s.insert(es.last().0).len() + 1);
    }
}

} // verus!
