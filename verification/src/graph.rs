use vstd::prelude::*;

use crate::model::{
    forest_spec, has_end, incidence, is_end, keeps, prune, prune_round, pruned, round_of, touches,
    vcount, vset, Edge,
};
use crate::model::{lemma_incidence_pos, lemma_prune_compose, lemma_round_shrinks};

verus! {

pub fn copy_edges(es: &Vec<Edge>) -> (r: Vec<Edge>)
    ensures
        r@ == es@,
{
    let mut r: Vec<Edge> = Vec::new();
    let mut i: usize = 0;
    while i < es.len()
        invariant
            i <= es@.len(),
            r@ == es@.subrange(0, i as int),
        decreases es@.len() - i,
    {
        r.push(es[i]);
        assert(r@ =~= es@.subrange(0, i + 1));
        i += 1;
    }
    assert(r@ =~= es@);
    r
}

pub fn vec_contains_usize(v: &Vec<usize>, x: usize) -> (r: bool)
    ensures
        r == v@.contains(x),
{
    let mut i: usize = 0;
    while i < v.len()
        invariant
            i <= v@.len(),
            forall|j: int| 0 <= j < i ==> v@[j] != x,
        decreases v@.len() - i,
    {
        if v[i] == x {
            return true;
        }
        i += 1;
    }
    false
}

pub fn vec_contains_edge(v: &Vec<Edge>, e: Edge) -> (r: bool)
    ensures
        r == v@.contains(e),
{
    let mut i: usize = 0;
    while i < v.len()
        invariant
            i <= v@.len(),
            forall|j: int| 0 <= j < i ==> v@[j] != e,
        decreases v@.len() - i,
    {
        if v[i].0 == e.0 && v[i].1 == e.1 {
            return true;
        }
        i += 1;
    }
    false
}

/// Remaining incidence of `v` in `es`, a self-loop counted once.
pub fn incidence_of(es: &Vec<Edge>, v: usize) -> (c: usize)
    ensures
        c == incidence(es@, v),
{
    let mut c: usize = 0;
    let mut i: usize = 0;
    while i < es.len()
        invariant
            i <= es@.len(),
            c == incidence(es@.subrange(0, i as int), v),
            c <= i,
        decreases es@.len() - i,
    {
        let e = es[i];
        proof {
            assert(es@.subrange(0, i + 1).drop_last() =~= es@.subrange(0, i as int));
            assert(es@.subrange(0, i + 1).last() == es@[i as int]);
        }
        if e.0 == v || e.1 == v {
            c += 1;
        }
        i += 1;
    }
    assert(es@.subrange(0, es@.len() as int) =~= es@);
    c
}

/// Does any vertex of the working list have exactly one incident edge left?
fn find_end(es: &Vec<Edge>) -> (r: bool)
    ensures
        r == has_end(es@),
{
    let mut i: usize = 0;
    while i < es.len()
        invariant
            i <= es@.len(),
            forall|j: int| 0 <= j < i ==> !is_end(es@, (#[trigger] es@[j]).0) && !is_end(es@, es@[j].1),
        decreases es@.len() - i,
    {
        let e = es[i];
        if incidence_of(es, e.0) == 1 {
            assert(is_end(es@, e.0));
            return true;
        }
        if incidence_of(es, e.1) == 1 {
            assert(is_end(es@, e.1));
            return true;
        }
        i += 1;
    }
    proof {
        if has_end(es@) {
            let v = choose|v: usize| is_end(es@, v);
            lemma_incidence_pos(es@, v);
            let j = choose|j: int| 0 <= j < es@.len() && touches(#[trigger] es@[j], v);
            assert(!is_end(es@, es@[j].0) && !is_end(es@, es@[j].1));
            assert(false);
        }
    }
    false
}

/// One pruning round: keep exactly the edges neither of whose endpoints is
/// an end of the current working list.
fn round_exec(es: &Vec<Edge>) -> (r: Vec<Edge>)
    ensures
        r@ == prune_round(es@),
{
    let mut r: Vec<Edge> = Vec::new();
    let mut i: usize = 0;
    while i < es.len()
        invariant
            i <= es@.len(),
            r@ == round_of(es@, es@.subrange(0, i as int)),
        decreases es@.len() - i,
    {
        let e = es[i];
        proof {
            assert(es@.subrange(0, i + 1).drop_last() =~= es@.subrange(0, i as int));
            assert(es@.subrange(0, i + 1).last() == es@[i as int]);
        }
        let d0 = incidence_of(es, e.0);
        let d1 = incidence_of(es, e.1);
        if d0 != 1 && d1 != 1 {
            r.push(e);
            assert(keeps(es@, es@[i as int]));
        } else {
            assert(!keeps(es@, es@[i as int]));
        }
        i += 1;
    }
    assert(es@.subrange(0, es@.len() as int) =~= es@);
    r
}

/// Iterated leaf pruning, run until no end remains; returns the fixpoint.
pub fn prune_fully(es: &Vec<Edge>) -> (r: Vec<Edge>)
    ensures
        r@ == pruned(es@),
{
    let mut work = copy_edges(es);
    let ghost mut rounds: nat = 0;
    loop
        invariant
            work@ == prune(es@, rounds),
            rounds + work@.len() <= es@.len(),
        decreases work@.len(),
    {
        if !find_end(&work) {
            proof {
                lemma_prune_compose(es@, rounds, (es@.len() - rounds) as nat);
                assert(prune(work@, (es@.len() - rounds) as nat) == work@);
            }
            return work;
        }
        proof {
            lemma_round_shrinks(work@);
            lemma_prune_compose(es@, rounds, 1);
            assert(prune(work@, 1) == prune(prune_round(work@), 0));
        }
        work = round_exec(&work);
        proof {
            rounds = rounds + 1;
        }
    }
}

/// The distinct endpoints of an edge list, in first-encounter order.
pub fn collect_vertices(es: &Vec<Edge>) -> (r: Vec<usize>)
    ensures
        r@.no_duplicates(),
        r@.to_set() == vset(es@),
        r@.len() == vcount(es@),
{
    let mut r: Vec<usize> = Vec::new();
    let mut i: usize = 0;
    while i < es.len()
        invariant
            i <= es@.len(),
            r@.no_duplicates(),
            r@.to_set() == vset(es@.subrange(0, i as int)),
        decreases es@.len() - i,
    {
        let e = es[i];
        proof {
            assert(es@.subrange(0, i + 1).drop_last() =~= es@.subrange(0, i as int));
            assert(es@.subrange(0, i + 1).last() == es@[i as int]);
        }
        if !vec_contains_usize(&r, e.0) {
            let ghost r0 = r@;
            r.push(e.0);
            proof {
                assert(r@ =~= r0 + seq![e.0]);
                Seq::<usize>::lemma_to_set_insert_commutes(r0, e.0);
                assert(r@.no_duplicates()) by {
                    assert(forall|j: int| 0 <= j < r0.len() ==> r0[j] == r@[j] && r0[j] != e.0);
                }
            }
        }
        if !vec_contains_usize(&r, e.1) {
            let ghost r0 = r@;
            r.push(e.1);
            proof {
                assert(r@ =~= r0 + seq![e.1]);
                Seq::<usize>::lemma_to_set_insert_commutes(r0, e.1);
                assert(r@.no_duplicates()) by {
                    assert(forall|j: int| 0 <= j < r0.len() ==> r0[j] == r@[j] && r0[j] != e.1);
                }
            }
        }
        assert(r@.to_set() =~= vset(es@.subrange(0, i + 1)));
        i += 1;
    }
    proof {
        assert(es@.subrange(0, es@.len() as int) =~= es@);
        r@.unique_seq_to_set();
    }
    r
}

/// Whether the edge list is a forest, by the detector's rule: the cheap
/// count tests first, then leaf pruning.
pub fn is_forest_edges(es: &Vec<Edge>, nv: usize) -> (r: bool)
    requires
        nv == vcount(es@),
    ensures
        r == forest_spec(es@),
{
    if es.len() > nv {
        false
    } else if es.len() == 1 {
        true
    } else {
        let rest = prune_fully(es);
        rest.len() == 0
    }
}

/// The canonical-key relation: `k` is a key the labeler can produce for
/// this edge list (the rendering of a sorted image of the edge multiset
/// under a bijective labeling). The transposition table's premise — all
/// positions sharing a key share their optimal net score — is stated over
/// this relation as `crate::runner::keys_collapse`.
pub open spec fn is_key_of(es: Seq<Edge>, k: Seq<char>) -> bool {
    exists|l: Seq<Edge>|
        #[trigger] crate::canon::canonical_calc_of(es, l) && k == crate::text::key_str(l)
}

/// One game position: an edge multiset with its derived vertex set, and the
/// lazily cached canonical key and forest verdict.
pub struct GameGraph {
    pub edges: Vec<Edge>,
    pub vertices: Vec<usize>,
    pub num_edges: usize,
    pub num_vertices: usize,
    pub have_set_key: bool,
    pub have_determined_if_is_tree: bool,
    pub key: String,
    pub tree_flag: bool,
}

impl GameGraph {
    pub open spec fn wf(&self) -> bool {
        &&& self.num_edges == self.edges@.len()
        &&& self.num_vertices == self.vertices@.len()
        &&& self.vertices@.no_duplicates()
        &&& self.vertices@.to_set() == vset(self.edges@)
        &&& self.num_vertices == vcount(self.edges@)
        &&& (self.have_determined_if_is_tree ==> self.tree_flag == forest_spec(self.edges@))
        &&& (self.have_set_key ==> is_key_of(self.edges@, self.key@))
    }

    pub fn new(edges: Vec<Edge>) -> (g: GameGraph)
        ensures
            g.wf(),
            g.edges@ == edges@,
            !g.have_set_key,
            !g.have_determined_if_is_tree,
    {
        let vertices = collect_vertices(&edges);
        let num_edges = edges.len();
        let num_vertices = vertices.len();
        GameGraph {
            edges,
            vertices,
            num_edges,
            num_vertices,
            have_set_key: false,
            have_determined_if_is_tree: false,
            key: String::new(),
            tree_flag: false,
        }
    }

    pub fn contains_vertex(&self, vertex: usize) -> (r: bool)
        requires
            self.wf(),
        ensures
            r == vset(self.edges@).contains(vertex),
    {
        vec_contains_usize(&self.vertices, vertex)
    }

    /// The canonical key, computed once by the labeler and cached; a second
    /// call hands back the same string. A freshly computed key is the
    /// rendering of a sorted labeler emission list for these edges.
    pub fn get_key(&mut self) -> (r: String)
        requires
            old(self).wf(),
        ensures
            final(self).wf(),
            final(self).edges@ == old(self).edges@,
            final(self).vertices@ == old(self).vertices@,
            final(self).num_edges == old(self).num_edges,
            final(self).num_vertices == old(self).num_vertices,
            final(self).have_determined_if_is_tree == old(self).have_determined_if_is_tree,
            final(self).tree_flag == old(self).tree_flag,
            final(self).have_set_key,
            r@ == final(self).key@,
            old(self).have_set_key ==> final(self).key@ == old(self).key@,
            is_key_of(final(self).edges@, final(self).key@),
            !old(self).have_set_key ==> exists|l: Seq<Edge>|
                #[trigger] crate::canon::canonical_calc_of(old(self).edges@, l)
                    && final(self).key@ == crate::text::key_str(l),
    {
        if !self.have_set_key {
            let mut labeler = crate::canon::CanonicalEdges::new(copy_edges(&self.edges));
            let canonical = labeler.calc();
            self.key = crate::text::render_key(&canonical);
            self.have_set_key = true;
            proof {
                assert(labeler.arena_wf());
                assert(crate::canon::canonical_calc_of(self.edges@, canonical@));
                assert(self.key@ == crate::text::key_str(canonical@));
            }
        }
        self.key.clone()
    }

    /// The forest verdict, computed once and cached.
    pub fn is_tree(&mut self) -> (r: bool)
        requires
            old(self).wf(),
        ensures
            final(self).wf(),
            r == forest_spec(old(self).edges@),
            final(self).edges@ == old(self).edges@,
            final(self).vertices@ == old(self).vertices@,
            final(self).num_edges == old(self).num_edges,
            final(self).num_vertices == old(self).num_vertices,
            final(self).have_determined_if_is_tree,
            final(self).have_set_key == old(self).have_set_key,
            final(self).key@ == old(self).key@,
    {
        if !self.have_determined_if_is_tree {
            if self.num_edges > self.num_vertices {
                self.tree_flag = false;
            } else if self.num_edges == 1 {
                self.tree_flag = true;
            } else {
                let rest = prune_fully(&self.edges);
                self.tree_flag = rest.len() == 0;
            }
            self.have_determined_if_is_tree = true;
        }
        self.tree_flag
    }
}

impl Default for GameGraph {
    /// The empty position: no edges, no vertices, nothing cached.
    fn default() -> (g: GameGraph)
        ensures
            g.wf(),
            g.edges@.len() == 0,
            !g.have_set_key,
            !g.have_determined_if_is_tree,
    {
        proof {
            assert(vset(Seq::<Edge>::empty()) =~= Set::<usize>::empty());
            Seq::<usize>::empty().unique_seq_to_set();
            assert(Seq::<usize>::empty().to_set() =~= Set::<usize>::empty());
        }
        GameGraph {
            edges: Vec::new(),
            vertices: Vec::new(),
            num_edges: 0,
            num_vertices: 0,
            have_set_key: false,
            have_determined_if_is_tree: false,
            key: String::new(),
            tree_flag: false,
        }
    }
}

} // verus!
