use vstd::prelude::*;

use crate::engine::{cut_edge_list, size_ok};
use crate::graph::{copy_edges, is_key_of, vec_contains_edge, GameGraph};
use crate::memo::MemoTable;
use crate::model::{
    best_from, branch_value, cut_one, cut_points, forest_spec, game_value, vcount, Edge,
};
use crate::model::{
    lemma_best_from_bounds, lemma_best_from_covers, lemma_cut_one_len, lemma_game_value_bounds,
    lemma_vcount_bound,
};

verus! {

/// Search progress bookkeeping: the shallowest depth fully solved so far
/// and how many positions were solved there.
pub struct Progress {
    pub top_level: usize,
    pub count: usize,
}

/// The outcome the final score announces.
pub enum GameOutcome {
    PlayerOneWins,
    PlayerTwoWins,
    Tie,
}

/// Which announcement a net score earns.
pub fn outcome_of(net_score: i64) -> (r: GameOutcome)
    ensures
        net_score > 0 ==> r is PlayerOneWins,
        net_score < 0 ==> r is PlayerTwoWins,
        net_score == 0 ==> r is Tie,
{
    if net_score == 0 {
        GameOutcome::Tie
    } else if net_score > 0 {
        GameOutcome::PlayerOneWins
    } else {
        GameOutcome::PlayerTwoWins
    }
}

/// The table's correctness premise, which the whole memoization scheme
/// rests on: any two positions that the labeler can give the same
/// canonical key have the same optimal net score (relabeling a position
/// does not change its game value).
pub open spec fn keys_collapse() -> bool {
    forall|es1: Seq<Edge>, es2: Seq<Edge>, k: Seq<char>|
        #[trigger] is_key_of(es1, k) && #[trigger] is_key_of(es2, k) ==> game_value(es1)
            == game_value(es2)
}

/// A sound transposition table: every stored entry is the optimal net
/// score of every position bearing its key.
pub open spec fn memo_sound(m: Map<Seq<char>, int>) -> bool {
    forall|es: Seq<Edge>, k: Seq<char>|
        m.contains_key(k) && #[trigger] is_key_of(es, k) ==> m[k] == game_value(es)
}

/// A fresh table is sound: the starting hypothesis of a run that begins
/// with nothing persisted.
pub proof fn lemma_empty_memo_sound()
    ensures
        memo_sound(crate::memo::memo_empty()),
{
}

/// The search driver: the starting edges, the starting position, the
/// transposition table, the progress counters, and the milestone lines the
/// search produced, for the caller to display.
pub struct GameRunner {
    pub edges: Vec<Edge>,
    pub initial_graph: GameGraph,
    pub memo: MemoTable,
    pub progress: Progress,
    pub milestones: Vec<(usize, usize)>,
}

impl GameRunner {
    pub open spec fn wf(&self) -> bool {
        self.initial_graph.wf()
    }

    pub fn new(edges: Vec<Edge>) -> (r: GameRunner)
        ensures
            r.wf(),
            r.edges@ == edges@,
            r.initial_graph.edges@ == edges@,
            !r.initial_graph.have_set_key,
            !r.initial_graph.have_determined_if_is_tree,
            r.memo@ == crate::memo::memo_empty(),
            r.progress.top_level == edges@.len(),
            r.progress.count == 0,
            r.milestones@.len() == 0,
    {
        let initial_graph = GameGraph::new(copy_edges(&edges));
        let num_edges = initial_graph.num_edges;
        GameRunner {
            edges,
            initial_graph,
            memo: MemoTable::new(),
            progress: Progress { top_level: num_edges, count: 0 },
            milestones: Vec::new(),
        }
    }

    /// Put one persisted entry into the table, as the memo-file loader
    /// hands them over.
    pub fn preload_memo(&mut self, key: String, value: i64)
        requires
            old(self).wf(),
        ensures
            final(self).wf(),
            final(self).memo@ == old(self).memo@.insert(key@, value as int),
            final(self).edges@ == old(self).edges@,
            final(self).initial_graph == old(self).initial_graph,
            memo_sound(old(self).memo@) && (forall|es: Seq<Edge>|
                #[trigger] is_key_of(es, key@) ==> value as int == game_value(es)) ==> memo_sound(
                final(self).memo@,
            ),
    {
        self.memo.insert(key, value);
    }

    /// Every table entry, exactly once each, for the memo-file writer.
    pub fn memo_pairs(&self) -> (r: Vec<(String, i64)>)
        ensures
            forall|i: int|
                0 <= i < r@.len() ==> self.memo@.contains_key((#[trigger] r@[i]).0@)
                    && self.memo@[r@[i].0@] == r@[i].1 as int,
            forall|i: int, j: int| 0 <= i < j < r@.len() ==> r@[i].0@ != r@[j].0@,
            forall|k: Seq<char>|
                self.memo@.contains_key(k) ==> exists|i: int|
                    0 <= i < r@.len() && (#[trigger] r@[i]).0@ == k,
    {
        self.memo.pairs()
    }

    /// The edge-cut operator on positions: the successor position and the
    /// points the cut scores.
    pub fn cut_edge(&self, graph: &GameGraph, edge: Edge) -> (res: (GameGraph, i64))
        requires
            graph.wf(),
            graph.edges@.contains(edge),
        ensures
            res.0.wf(),
            res.0.edges@ == cut_one(graph.edges@, edge),
            !res.0.have_set_key,
            !res.0.have_determined_if_is_tree,
            res.1 as int == cut_points(graph.edges@, edge),
            0 <= res.1 <= 2,
    {
        let (new_edges, points) = cut_edge_list(&graph.edges, edge);
        (GameGraph::new(new_edges), points)
    }

    /// Milestone bookkeeping: when a position at or above the shallowest
    /// solved level completes, bump the counters and report them.
    pub fn track_progress(&mut self, depth: usize) -> (r: Option<(usize, usize)>)
        ensures
            depth > old(self).progress.top_level ==> final(self).progress == old(self).progress
                && r is None,
            depth == old(self).progress.top_level ==> final(self).progress.top_level == depth
                && final(self).progress.count as int == (if old(self).progress.count < usize::MAX {
                old(self).progress.count + 1
            } else {
                old(self).progress.count as int
            }) && (r matches Some(p) && p.0 == depth && p.1 == final(self).progress.count),
            depth < old(self).progress.top_level ==> final(self).progress.top_level == depth
                && final(self).progress.count == 1 && (r matches Some(p) && p.0 == depth && p.1
                == 1),
            final(self).edges@ == old(self).edges@,
            final(self).initial_graph == old(self).initial_graph,
            final(self).memo == old(self).memo,
    {
        if depth <= self.progress.top_level {
            if depth == self.progress.top_level {
                // The counter saturates; the display value is advisory.
                if self.progress.count < usize::MAX {
                    self.progress.count = self.progress.count + 1;
                }
            } else {
                self.progress.top_level = depth;
                self.progress.count = 1;
            }
            Some((depth, self.progress.count))
        } else {
            None
        }
    }

    /// The memoized search: look the canonical key up; a forest is worth
    /// its vertex count; otherwise take the best move outcome over the
    /// distinct edges, early-exiting at the theoretical maximum. Under the
    /// key-collapse premise and a sound starting table, the result is
    /// exactly the position's optimal net score, the table stays sound,
    /// and no existing entry changes value.
    pub fn net_score(&mut self, graph: &mut GameGraph, depth: usize) -> (r: i64)
        requires
            old(self).wf(),
            old(graph).wf(),
            size_ok(old(graph).edges@.len()),
        ensures
            final(self).wf(),
            final(self).edges@ == old(self).edges@,
            final(self).initial_graph == old(self).initial_graph,
            final(graph).wf(),
            final(graph).edges@ == old(graph).edges@,
            final(graph).vertices@ == old(graph).vertices@,
            final(graph).num_edges == old(graph).num_edges,
            final(graph).num_vertices == old(graph).num_vertices,
            old(self).memo@.dom().subset_of(final(self).memo@.dom()),
            exists|k: Seq<char>|
                final(self).memo@.contains_key(k) && final(self).memo@[k] == r as int,
            keys_collapse() && memo_sound(old(self).memo@) ==> r as int == game_value(
                old(graph).edges@,
            ) && memo_sound(final(self).memo@) && -(vcount(old(graph).edges@) as int) <= r as int
                <= vcount(old(graph).edges@) as int && (forall|k: Seq<char>|
                old(self).memo@.dom().contains(k) ==> final(self).memo@[k] == old(self).memo@[k]),
            crate::model::forest_spec(old(graph).edges@) ==> (r as int
                == crate::model::game_value(old(graph).edges@) || (exists|k: Seq<char>|
                old(self).memo@.contains_key(k) && old(self).memo@[k] == r as int)),
            old(self).memo@ == crate::memo::memo_empty() && crate::model::forest_spec(
                old(graph).edges@,
            ) ==> r as int == crate::model::game_value(old(graph).edges@),
            old(graph).have_set_key ==> final(graph).key@ == old(graph).key@,
            old(graph).have_set_key && old(self).memo@.contains_key(old(graph).key@) ==> r as int
                == old(self).memo@[old(graph).key@] && final(self).memo@ == old(self).memo@,
            old(graph).have_set_key && !old(self).memo@.contains_key(old(graph).key@)
                && crate::model::forest_spec(old(graph).edges@) ==> r as int
                == crate::model::game_value(old(graph).edges@)
                && final(self).memo@ == old(self).memo@.insert(old(graph).key@, r as int),
        decreases old(graph).edges@.len(),
    {
        let ghost hyp = keys_collapse() && memo_sound(old(self).memo@);
        let ghost es = old(graph).edges@;
        let key = graph.get_key();
        proof {
            assert(is_key_of(es, key@));
        }
        match self.memo.get(&key) {
            Some(score) => {
                proof {
                    assert(self.memo@.contains_key(key@) && self.memo@[key@] == score as int);
                    if hyp {
                        assert(score as int == game_value(es));
                        lemma_game_value_bounds(es);
                    }
                }
                return score;
            },
            None => {},
        }
        if graph.is_tree() {
            let score = graph.num_vertices as i64;
            proof {
                crate::model::lemma_vcount_bound(graph.edges@);
            }
            let ghost m0 = self.memo@;
            self.memo.insert(key, score);
            proof {
                assert(self.memo@.contains_key(key@) && self.memo@[key@] == score as int);
                if hyp {
                    assert(score as int == game_value(es));
                    lemma_game_value_bounds(es);
                    assert forall|es2: Seq<Edge>, k2: Seq<char>|
                        self.memo@.contains_key(k2) && #[trigger] is_key_of(es2, k2) implies
                        self.memo@[k2] == game_value(es2) by {
                        if k2 == key@ {
                            assert(is_key_of(es, key@) && is_key_of(es2, key@));
                        } else {
                            assert(m0.contains_key(k2));
                        }
                    }
                }
            }
            return score;
        }
        let new_depth = if depth < usize::MAX {
            depth + 1
        } else {
            depth
        };
        proof {
            crate::model::lemma_vcount_bound(graph.edges@);
            lemma_best_from_bounds(es, 0);
        }
        let nv = graph.num_vertices;
        let mut best: i64 = -(nv as i64);
        let mut tried: Vec<Edge> = Vec::new();
        let mut i: usize = 0;
        let n = graph.edges.len();
        while i < n
            invariant
                i <= n,
                n == graph.edges@.len(),
                self.wf(),
                graph.wf(),
                graph.edges@ == es,
                es == old(graph).edges@,
                !forest_spec(es),
                size_ok(graph.edges@.len()),
                nv == graph.num_vertices,
                nv == vcount(es),
                graph.vertices@ == old(graph).vertices@,
                graph.num_edges == old(graph).num_edges,
                graph.num_vertices == old(graph).num_vertices,
                self.edges@ == old(self).edges@,
                self.initial_graph == old(self).initial_graph,
                old(self).memo@.dom().subset_of(self.memo@.dom()),
                is_key_of(es, key@),
                !old(self).memo@.contains_key(key@),
                graph.have_set_key,
                graph.key@ == key@,
                old(graph).have_set_key ==> key@ == old(graph).key@,
                !forest_spec(es),
                hyp == (keys_collapse() && memo_sound(old(self).memo@)),
                hyp ==> memo_sound(self.memo@),
                hyp ==> (forall|k: Seq<char>|
                    old(self).memo@.dom().contains(k) ==> self.memo@[k] == old(self).memo@[k]),
                hyp ==> -(nv as int) <= best as int <= nv as int,
                hyp ==> (game_value(es) == vstd::math::max(best as int, best_from(es, i as nat))
                    || game_value(es) == best as int),
                hyp ==> (forall|x: Edge|
                    tried@.contains(x) ==> branch_value(es, x) <= best as int),
            decreases n - i,
        {
            let e = graph.edges[i];
            assert(graph.edges@.contains(e));
            proof {
                if hyp {
                    assert(best_from(es, i as nat) == vstd::math::max(
                        branch_value(es, es[i as int]),
                        best_from(es, (i + 1) as nat),
                    ));
                    lemma_best_from_bounds(es, (i + 1) as nat);
                    lemma_best_from_covers(es, 0, i as int);
                    lemma_game_value_bounds(es);
                    lemma_vcount_bound(es);
                    assert(game_value(es) == best_from(es, 0));
                }
            }
            if !vec_contains_edge(&tried, e) {
                let ghost tried0 = tried@;
                let ghost best0 = best as int;
                tried.push(e);
                let (mut new_graph, points) = self.cut_edge(graph, e);
                proof {
                    lemma_cut_one_len(graph.edges@, e);
                    lemma_game_value_bounds(new_graph.edges@);
                    lemma_vcount_bound(new_graph.edges@);
                }
                let ghost pre_sub = self.memo@;
                let cont = self.net_score(&mut new_graph, new_depth);
                let outcome: i64 = if points > 0 {
                    match points.checked_add(cont) {
                        Some(x) => x,
                        None => i64::MAX,
                    }
                } else {
                    match (0i64).checked_sub(cont) {
                        Some(x) => x,
                        None => i64::MAX,
                    }
                };
                proof {
                    if hyp {
                        assert(memo_sound(pre_sub));
                        assert(cont as int == game_value(cut_one(es, e)));
                        assert(outcome as int == branch_value(es, e));
                        assert forall|k: Seq<char>|
                            old(self).memo@.dom().contains(k) implies self.memo@[k] == old(
                            self,
                        ).memo@[k] by {
                            assert(pre_sub.dom().contains(k));
                            assert(self.memo@[k] == pre_sub[k]);
                        }
                    }
                }
                if outcome > best {
                    let ghost prior_best = best as int;
                    best = outcome;
                    if outcome == nv as i64 {
                        proof {
                            if hyp {
                                assert(game_value(es) == best_from(es, 0));
                                if game_value(es) == vstd::math::max(
                                    prior_best,
                                    best_from(es, i as nat),
                                ) {
                                    assert(branch_value(es, es[i as int]) == nv as int);
                                    assert(best_from(es, (i + 1) as nat) <= nv as int);
                                    assert(best_from(es, i as nat) == nv as int);
                                    assert(game_value(es) == best as int);
                                } else {
                                    assert(game_value(es) == prior_best);
                                    assert(branch_value(es, es[i as int]) <= best_from(es, 0));
                                    assert(false);
                                }
                            }
                        }
                        match self.track_progress(depth) {
                            Some(milestone) => self.milestones.push(milestone),
                            None => {},
                        }
                        let ghost m0 = self.memo@;
                        self.memo.insert(key, best);
                        proof {
                            assert(self.memo@.contains_key(key@) && self.memo@[key@]
                                == best as int);
                            if hyp {
                                assert forall|es2: Seq<Edge>, k2: Seq<char>|
                                    self.memo@.contains_key(k2) && #[trigger] is_key_of(
                                    es2,
                                    k2,
                                ) implies self.memo@[k2] == game_value(es2) by {
                                    if k2 == key@ {
                                        assert(is_key_of(es, key@) && is_key_of(es2, key@));
                                    } else {
                                        assert(m0.contains_key(k2));
                                    }
                                }
                                assert forall|k: Seq<char>|
                                    old(self).memo@.dom().contains(k) implies self.memo@[k] == old(
                                    self,
                                ).memo@[k] by {
                                    assert(!old(self).memo@.dom().contains(key@));
                                    assert(m0[k] == old(self).memo@[k]);
                                }
                            }
                        }
                        return best;
                    }
                }
                proof {
                    if hyp {
                        assert forall|x: Edge| tried@.contains(x) implies branch_value(es, x)
                            <= best as int by {
                            let w = choose|w: int| 0 <= w < tried@.len() && tried@[w] == x;
                            if w < tried0.len() {
                                assert(tried0[w] == x);
                                assert(tried0.contains(x));
                            } else {
                                assert(x == e);
                            }
                        }
                    }
                }
            }
            i += 1;
        }
        proof {
            if hyp {
                assert(best_from(es, i as nat) == -(vcount(es) as int));
                assert(game_value(es) == best as int);
            }
        }
        match self.track_progress(depth) {
            Some(milestone) => self.milestones.push(milestone),
            None => {},
        }
        let ghost m0 = self.memo@;
        self.memo.insert(key, best);
        proof {
            assert(self.memo@.contains_key(key@) && self.memo@[key@] == best as int);
            if hyp {
                assert forall|es2: Seq<Edge>, k2: Seq<char>|
                    self.memo@.contains_key(k2) && #[trigger] is_key_of(es2, k2) implies
                    self.memo@[k2] == game_value(es2) by {
                    if k2 == key@ {
                        assert(is_key_of(es, key@) && is_key_of(es2, key@));
                    } else {
                        assert(m0.contains_key(k2));
                    }
                }
                assert forall|k: Seq<char>|
                    old(self).memo@.dom().contains(k) implies self.memo@[k] == old(
                    self,
                ).memo@[k] by {
                    assert(!old(self).memo@.dom().contains(key@));
                    assert(m0[k] == old(self).memo@[k]);
                }
            }
        }
        best
    }

    /// Run the whole search from the starting edges and return the optimal
    /// net score; the caller announces the outcome and persists the table.
    pub fn run(&mut self) -> (r: i64)
        requires
            old(self).wf(),
            size_ok(old(self).edges@.len()),
        ensures
            final(self).wf(),
            final(self).edges@ == old(self).edges@,
            final(self).initial_graph == old(self).initial_graph,
            old(self).memo@.dom().subset_of(final(self).memo@.dom()),
            exists|k: Seq<char>|
                final(self).memo@.contains_key(k) && final(self).memo@[k] == r as int,
            keys_collapse() && memo_sound(old(self).memo@) ==> r as int == game_value(
                old(self).edges@,
            ) && memo_sound(final(self).memo@) && -(vcount(old(self).edges@) as int) <= r as int
                <= vcount(old(self).edges@) as int && (forall|k: Seq<char>|
                old(self).memo@.dom().contains(k) ==> final(self).memo@[k] == old(self).memo@[k]),
            crate::model::forest_spec(old(self).edges@) ==> (r as int
                == crate::model::game_value(old(self).edges@) || (exists|k: Seq<char>|
                old(self).memo@.contains_key(k) && old(self).memo@[k] == r as int)),
            old(self).memo@ == crate::memo::memo_empty() && crate::model::forest_spec(
                old(self).edges@,
            ) ==> r as int == crate::model::game_value(old(self).edges@),
    {
        let mut graph = GameGraph::new(copy_edges(&self.edges));
        let net_score = self.net_score(&mut graph, 0);
        net_score
    }
}

} // verus!
