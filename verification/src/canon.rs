use vstd::prelude::*;
use vstd::multiset::Multiset;

use crate::graph::collect_vertices;
use crate::model::{vset, Edge};

verus! {

/// How many entries of `s` equal `x`.
pub open spec fn count_eq(s: Seq<usize>, x: usize) -> nat
    decreases s.len(),
{
    if s.len() == 0 {
        0
    } else {
        count_eq(s.drop_last(), x) + if s.last() == x {
            1nat
        } else {
            0nat
        }
    }
}

/// What one edge contributes to the neighbor multiset of `v`: the far
/// endpoint, a self-loop contributing its single endpoint once.
pub proof fn lemma_count_eq_le(s: Seq<usize>, x: usize)
    ensures
        count_eq(s, x) <= s.len(),
    decreases s.len(),
{
    if s.len() > 0 {
        lemma_count_eq_le(s.drop_last(), x);
    }
}

pub open spec fn edge_contrib(e: Edge, v: usize) -> Multiset<usize> {
    if e.0 == v {
        Multiset::singleton(e.1)
    } else if e.1 == v {
        Multiset::singleton(e.0)
    } else {
        Multiset::empty()
    }
}

/// The neighbor multiset of `v` over a whole edge list.
pub open spec fn neighbors_of(es: Seq<Edge>, v: usize) -> Multiset<usize>
    decreases es.len(),
{
    if es.len() == 0 {
        Multiset::empty()
    } else {
        neighbors_of(es.drop_last(), v).add(edge_contrib(es.last(), v))
    }
}

/// Every neighbor of a vertex is itself a vertex of the edge list.
pub proof fn lemma_neighbors_in_vset(es: Seq<Edge>, v: usize, x: usize)
    requires
        neighbors_of(es, v).count(x) > 0,
    ensures
        vset(es).contains(x),
    decreases es.len(),
{
    if es.len() > 0 {
        if edge_contrib(es.last(), v).count(x) > 0 {
        } else {
            lemma_neighbors_in_vset(es.drop_last(), v, x);
        }
    }
}

/// One vertex of the arena: its raw id, its neighbor list, and the two
/// degree figures the initial coloring reads.
pub struct Vertex {
    pub raw_id: usize,
    pub neighbors: Vec<usize>,
    pub num_neighbors: usize,
    pub num_loops: usize,
}

impl Vertex {
    pub open spec fn wf(&self) -> bool {
        &&& self.num_neighbors == self.neighbors@.len()
        &&& self.num_loops == count_eq(self.neighbors@, self.raw_id)
    }

    pub fn new(raw_id: usize, neighbors: Vec<usize>) -> (v: Vertex)
        ensures
            v.wf(),
            v.raw_id == raw_id,
            v.neighbors@ == neighbors@,
    {
        let mut v = Vertex { raw_id, neighbors, num_neighbors: 0, num_loops: 0 };
        v.num_neighbors = v.neighbors.len();
        v.init_num_loops();
        v
    }

    /// Recount how many of the listed neighbors are the vertex itself.
    pub fn init_num_loops(&mut self)
        ensures
            final(self).raw_id == old(self).raw_id,
            final(self).neighbors@ == old(self).neighbors@,
            final(self).num_neighbors == old(self).num_neighbors,
            final(self).num_loops == count_eq(old(self).neighbors@, old(self).raw_id),
    {
        let mut c: usize = 0;
        let mut i: usize = 0;
        while i < self.neighbors.len()
            invariant
                i <= self.neighbors@.len(),
                c == count_eq(self.neighbors@.subrange(0, i as int), self.raw_id),
                c <= i,
            decreases self.neighbors@.len() - i,
        {
            proof {
                assert(self.neighbors@.subrange(0, i + 1).drop_last() =~= self.neighbors@.subrange(
                    0,
                    i as int,
                ));
                assert(self.neighbors@.subrange(0, i + 1).last() == self.neighbors@[i as int]);
            }
            if self.neighbors[i] == self.raw_id {
                c += 1;
            }
            i += 1;
        }
        proof {
            assert(self.neighbors@.subrange(0, self.neighbors@.len() as int) =~= self.neighbors@);
        }
        self.num_loops = c;
    }

    pub fn add_neighbor(&mut self, neighbor: usize)
        requires
            old(self).wf(),
        ensures
            final(self).wf(),
            final(self).raw_id == old(self).raw_id,
            final(self).neighbors@ == old(self).neighbors@.push(neighbor),
            final(self).num_neighbors == old(self).neighbors@.len() + 1,
    {
        self.neighbors.push(neighbor);
        proof {
            assert(self.neighbors@.drop_last() =~= old(self).neighbors@);
        }
        self.num_neighbors = self.neighbors.len();
        if neighbor == self.raw_id {
            proof {
                lemma_count_eq_le(old(self).neighbors@, old(self).raw_id);
            }
            self.num_loops = self.num_loops + 1;
        }
    }
}

pub open spec fn raw_id_at(vs: Seq<Vertex>, k: int) -> usize {
    vs[k].raw_id
}

/// The canonical labeler's working state: the edge list, the vertex arena,
/// and the per-vertex refinement slots, held in parallel index-aligned
/// vectors so that every cross-vertex read goes through the shared arena and
/// every write through an owned index.
pub struct CanonicalEdges {
    pub edges: Vec<Edge>,
    pub vertices: Vec<Vertex>,
    pub num_vertices: usize,
    pub category_keys: Vec<Vec<i128>>,
    pub num_categories: usize,
    pub iterations: usize,
    pub next_canonical_id: usize,
    pub categories: Vec<usize>,
    pub prior_categories: Vec<usize>,
    pub vertex_keys: Vec<Vec<i128>>,
    pub canonical_ids: Vec<usize>,
}

/// Sentinel for "no category / no canonical id assigned yet".
pub open spec fn unassigned() -> usize {
    usize::MAX
}

impl CanonicalEdges {
    /// The arena lists every vertex of the edge list exactly once, and each
    /// vertex's recorded neighbors are exactly its neighbors in the edges.
    pub open spec fn arena_wf(&self) -> bool {
        &&& self.num_vertices == self.vertices@.len()
        &&& forall|i: int, j: int|
            0 <= i < j < self.vertices@.len() ==> raw_id_at(self.vertices@, i) != raw_id_at(
                self.vertices@,
                j,
            )
        &&& forall|i: int|
            0 <= i < self.vertices@.len() ==> vset(self.edges@).contains(
                (#[trigger] self.vertices@[i]).raw_id,
            )
        &&& forall|v: usize|
            vset(self.edges@).contains(v) ==> exists|i: int|
                0 <= i < self.vertices@.len() && raw_id_at(self.vertices@, i) == v
        &&& forall|i: int| 0 <= i < self.vertices@.len() ==> (#[trigger] self.vertices@[i]).wf()
        &&& forall|i: int|
            0 <= i < self.vertices@.len() ==> (#[trigger] self.vertices@[i]).neighbors@.to_multiset()
                == neighbors_of(self.edges@, self.vertices@[i].raw_id)
        &&& self.categories@.len() == self.vertices@.len()
        &&& self.prior_categories@.len() == self.vertices@.len()
        &&& self.vertex_keys@.len() == self.vertices@.len()
        &&& self.canonical_ids@.len() == self.vertices@.len()
    }

    /// The current categories are a valid partition index: every vertex's
    /// category names one of the distinct sorted category keys.
    pub open spec fn cats_ok(&self) -> bool {
        &&& self.num_categories == self.category_keys@.len()
        &&& forall|k: int|
            0 <= k < self.categories@.len() ==> (#[trigger] self.categories@[k]) < self.num_categories
    }

    #[verifier::spinoff_prover]
    #[verifier::rlimit(50)]
    pub fn new(edges: Vec<Edge>) -> (c: CanonicalEdges)
        ensures
            c.arena_wf(),
            c.ids_fresh(),
            c.edges@ == edges@,
            c.num_vertices == crate::model::vcount(edges@),
    {
        let ids = collect_vertices(&edges);
        let mut vertices: Vec<Vertex> = Vec::new();
        let mut t: usize = 0;
        while t < ids.len()
            invariant
                t <= ids@.len(),
                ids@.no_duplicates(),
                ids@.to_set() == vset(edges@),
                vertices@.len() == t,
                forall|i: int| 0 <= i < t ==> raw_id_at(vertices@, i) == ids@[i],
                forall|i: int| 0 <= i < t ==> (#[trigger] vertices@[i]).wf(),
                forall|i: int|
                    0 <= i < t ==> (#[trigger] vertices@[i]).neighbors@.to_multiset()
                        == neighbors_of(edges@, vertices@[i].raw_id),
            decreases ids@.len() - t,
        {
            let id = ids[t];
            let nbrs = neighbors_in(&edges, id);
            let v = Vertex::new(id, nbrs);
            vertices.push(v);
            t += 1;
        }
        let n = vertices.len();
        let categories = filled(n, usize::MAX);
        let prior_categories = filled(n, usize::MAX);
        let canonical_ids = filled(n, usize::MAX);
        let mut vertex_keys: Vec<Vec<i128>> = Vec::new();
        let mut s: usize = 0;
        while s < n
            invariant
                vertex_keys@.len() == s,
                s <= n,
            decreases n - s,
        {
            vertex_keys.push(Vec::new());
            s += 1;
        }
        proof {
            assert(forall|v: usize| ids@.to_set().contains(v) ==> ids@.contains(v));
            assert forall|i: int| 0 <= i < vertices@.len() implies vset(edges@).contains(
                (#[trigger] vertices@[i]).raw_id,
            ) by {
                assert(ids@[i] == vertices@[i].raw_id);
                assert(ids@.contains(ids@[i]));
                assert(ids@.to_set().contains(ids@[i]));
            }
        }
        let ghost cidsg = canonical_ids@;
        let c = CanonicalEdges {
            edges,
            vertices,
            num_vertices: n,
            category_keys: Vec::new(),
            num_categories: 0,
            iterations: 0,
            next_canonical_id: 0,
            categories,
            prior_categories,
            vertex_keys,
            canonical_ids,
        };
        proof {
            assert forall|k: int| 0 <= k < c.canonical_ids@.len() implies (
            #[trigger] c.canonical_ids@[k]) == unassigned() by {
                assert(c.canonical_ids@ == cidsg);
                assert(cidsg[k] == usize::MAX);
            }
        }
        c
    }

    /// Index of the arena vertex with the given raw id.
    pub fn find_vertex(&self, raw: usize) -> (idx: usize)
        requires
            self.arena_wf(),
            vset(self.edges@).contains(raw),
        ensures
            idx < self.vertices@.len(),
            self.vertices@[idx as int].raw_id == raw,
    {
        let mut i: usize = 0;
        while i < self.vertices.len()
            invariant
                self.arena_wf(),
                vset(self.edges@).contains(raw),
                i <= self.vertices@.len(),
                forall|j: int| 0 <= j < i ==> raw_id_at(self.vertices@, j) != raw,
            decreases self.vertices@.len() - i,
        {
            if self.vertices[i].raw_id == raw {
                return i;
            }
            i += 1;
        }
        proof {
            let w = choose|w: int|
                0 <= w < self.vertices@.len() && raw_id_at(self.vertices@, w) == raw;
            assert(raw_id_at(self.vertices@, w) != raw);
        }
        unreached()
    }
}

/// All neighbors of `v` over the edge list, one entry per incident edge
/// occurrence, a self-loop contributing one entry.
pub fn neighbors_in(es: &Vec<Edge>, v: usize) -> (r: Vec<usize>)
    ensures
        r@.to_multiset() == neighbors_of(es@, v),
{
    let mut r: Vec<usize> = Vec::new();
    proof {
        broadcast use vstd::seq_lib::group_to_multiset_ensures;
        assert(es@.subrange(0, 0) =~= Seq::<Edge>::empty());
        assert(r@.to_multiset() =~= Multiset::<usize>::empty());
    }
    let mut i: usize = 0;
    while i < es.len()
        invariant
            i <= es@.len(),
            r@.to_multiset() == neighbors_of(es@.subrange(0, i as int), v),
        decreases es@.len() - i,
    {
        let e = es[i];
        proof {
            assert(es@.subrange(0, i + 1).drop_last() =~= es@.subrange(0, i as int));
            assert(es@.subrange(0, i + 1).last() == es@[i as int]);
            broadcast use vstd::seq_lib::group_to_multiset_ensures;
        }
        let ghost r0 = r@;
        if e.0 == v {
            r.push(e.1);
            proof {
                assert(r@.to_multiset() =~= r0.to_multiset().insert(e.1));
                assert(r0.to_multiset().insert(e.1) =~= r0.to_multiset().add(
                    Multiset::singleton(e.1),
                ));
            }
        } else if e.1 == v {
            r.push(e.0);
            proof {
                assert(r@.to_multiset() =~= r0.to_multiset().insert(e.0));
                assert(r0.to_multiset().insert(e.0) =~= r0.to_multiset().add(
                    Multiset::singleton(e.0),
                ));
            }
        } else {
            proof {
                assert(r@.to_multiset().add(Multiset::empty()) =~= r@.to_multiset());
            }
        }
        i += 1;
    }
    proof {
        assert(es@.subrange(0, es@.len() as int) =~= es@);
    }
    r
}

/// A vector of `n` copies of `x`.
pub fn filled(n: usize, x: usize) -> (r: Vec<usize>)
    ensures
        r@.len() == n,
        forall|i: int| 0 <= i < n ==> r@[i] == x,
{
    let mut r: Vec<usize> = Vec::new();
    let mut i: usize = 0;
    while i < n
        invariant
            i <= n,
            r@.len() == i,
            forall|j: int| 0 <= j < i ==> r@[j] == x,
        decreases n - i,
    {
        r.push(x);
        i += 1;
    }
    r
}


// ---------------------------------------------------------------------------
// Category keys and refinement.
// ---------------------------------------------------------------------------

/// The views of a list of category keys.
pub open spec fn keys_view(ks: Seq<Vec<i128>>) -> Seq<Seq<i128>> {
    ks.map_values(|k: Vec<i128>| k@)
}

/// Does the key list hold an entry with this view?
pub open spec fn has_key(ks: Seq<Vec<i128>>, x: Seq<i128>) -> bool {
    exists|i: int| 0 <= i < ks.len() && (#[trigger] ks[i])@ == x
}

/// Is `x` the key view of some vertex in `vks`?
pub open spec fn key_of_some(x: Seq<i128>, vks: Seq<Vec<i128>>) -> bool {
    exists|k: int| 0 <= k < vks.len() && (#[trigger] vks[k])@ == x
}

/// Every entry of `ks` is the key of some vertex in `vks`.
pub open spec fn entries_from(ks: Seq<Vec<i128>>, vks: Seq<Vec<i128>>) -> bool {
    forall|c: int| 0 <= c < ks.len() ==> key_of_some((#[trigger] ks[c])@, vks)
}

pub open spec fn keys_distinct(ks: Seq<Vec<i128>>) -> bool {
    forall|i: int, j: int| 0 <= i < j < ks.len() ==> (#[trigger] ks[i])@ != (#[trigger] ks[j])@
}

/// Strict lexicographic order on key views; a proper prefix comes first.
pub open spec fn lex_lt(a: Seq<i128>, b: Seq<i128>) -> bool
    decreases a.len(),
{
    if b.len() == 0 {
        false
    } else if a.len() == 0 {
        true
    } else if a.first() < b.first() {
        true
    } else if a.first() > b.first() {
        false
    } else {
        lex_lt(a.drop_first(), b.drop_first())
    }
}

/// Lexicographic comparison of two keys.
pub fn lex_lt_exec(a: &Vec<i128>, b: &Vec<i128>) -> (r: bool)
    ensures
        r == lex_lt(a@, b@),
{
    let mut i: usize = 0;
    let m = if a.len() < b.len() {
        a.len()
    } else {
        b.len()
    };
    proof {
        assert(a@.skip(0) =~= a@);
        assert(b@.skip(0) =~= b@);
    }
    while i < m
        invariant
            i <= m,
            m == if a@.len() < b@.len() {
                a@.len()
            } else {
                b@.len()
            },
            lex_lt(a@, b@) == lex_lt(a@.skip(i as int), b@.skip(i as int)),
        decreases m - i,
    {
        proof {
            assert(a@.skip(i as int).first() == a@[i as int]);
            assert(b@.skip(i as int).first() == b@[i as int]);
            assert(a@.skip(i as int).drop_first() =~= a@.skip(i + 1));
            assert(b@.skip(i as int).drop_first() =~= b@.skip(i + 1));
        }
        if a[i] < b[i] {
            return true;
        }
        if a[i] > b[i] {
            return false;
        }
        i += 1;
    }
    proof {
        if a@.len() < b@.len() {
            assert(a@.skip(i as int).len() == 0);
            assert(b@.skip(i as int).len() > 0);
        } else if a@.len() == b@.len() {
            assert(b@.skip(i as int).len() == 0);
        } else {
            assert(b@.skip(i as int).len() == 0);
        }
    }
    a.len() < b.len()
}

pub proof fn lemma_lex_irrefl(a: Seq<i128>)
    ensures
        !lex_lt(a, a),
    decreases a.len(),
{
    if a.len() > 0 {
        lemma_lex_irrefl(a.drop_first());
    }
}

pub proof fn lemma_lex_trans(a: Seq<i128>, b: Seq<i128>, c: Seq<i128>)
    requires
        lex_lt(a, b),
        lex_lt(b, c),
    ensures
        lex_lt(a, c),
    decreases a.len(),
{
    if c.len() == 0 {
    } else if a.len() == 0 {
    } else {
        assert(b.len() > 0);
        if a.first() < b.first() {
            if b.first() < c.first() {
            } else {
                assert(b.first() == c.first());
            }
        } else {
            assert(a.first() == b.first());
            if b.first() < c.first() {
            } else {
                assert(b.first() == c.first());
                lemma_lex_trans(a.drop_first(), b.drop_first(), c.drop_first());
            }
        }
    }
}

/// The lexicographic order is connex: two keys compare one way or the
/// other, or are the same sequence.
pub proof fn lemma_lex_connex(a: Seq<i128>, b: Seq<i128>)
    ensures
        lex_lt(a, b) || lex_lt(b, a) || a == b,
    decreases a.len(),
{
    if b.len() == 0 {
        if a.len() > 0 {
        } else {
            assert(a =~= b);
        }
    } else if a.len() == 0 {
    } else if a.first() < b.first() {
    } else if a.first() > b.first() {
    } else {
        lemma_lex_connex(a.drop_first(), b.drop_first());
        if !lex_lt(a, b) && !lex_lt(b, a) {
            assert(!lex_lt(a.drop_first(), b.drop_first()));
            assert(!lex_lt(b.drop_first(), a.drop_first()));
            assert(a.drop_first() == b.drop_first());
            assert(a =~= b) by {
                assert(forall|i: int| 1 <= i < a.len() ==> a[i] == a.drop_first()[i - 1]);
                assert(forall|i: int| 1 <= i < b.len() ==> b[i] == b.drop_first()[i - 1]);
            }
        }
    }
}

impl CanonicalEdges {
    /// All canonical ids still unassigned, as `new` leaves them.
    pub open spec fn ids_fresh(&self) -> bool {
        &&& forall|k: int|
            0 <= k < self.canonical_ids@.len() ==> (#[trigger] self.canonical_ids@[k])
                == unassigned()
        &&& self.next_canonical_id == 0
    }

    /// Every vertex's key names a list entry, every list entry is some
    /// vertex's key, and the entries are pairwise distinct; each vertex's
    /// category is the first list entry holding its key.
    pub open spec fn keys_ok(&self) -> bool {
        &&& keys_distinct(self.category_keys@)
        &&& forall|c1: int, c2: int|
            0 <= c1 < c2 < self.category_keys@.len() ==> lex_lt(
                (#[trigger] self.category_keys@[c1])@,
                (#[trigger] self.category_keys@[c2])@,
            )
        &&& forall|k: int|
            0 <= k < self.categories@.len() ==> has_key(
                self.category_keys@,
                (#[trigger] self.vertex_keys@[k])@,
            )
        &&& entries_from(self.category_keys@, self.vertex_keys@)
        &&& forall|k: int|
            0 <= k < self.categories@.len() ==> (#[trigger] self.categories@[k])
                < self.category_keys@.len() && self.category_keys@[self.categories@[k] as int]@
                == self.vertex_keys@[k]@ && (forall|j: int|
                0 <= j < self.categories@[k] ==> (#[trigger] self.category_keys@[j])@
                    != self.vertex_keys@[k]@)
    }

    /// Two vertices share a category exactly when they share a key.
    pub proof fn lemma_partition(&self, k1: int, k2: int)
        requires
            self.arena_wf(),
            self.cats_ok(),
            self.keys_ok(),
            0 <= k1 < self.categories@.len(),
            0 <= k2 < self.categories@.len(),
        ensures
            (self.categories@[k1] == self.categories@[k2]) == (self.vertex_keys@[k1]@
                == self.vertex_keys@[k2]@),
    {
        let c1 = self.categories@[k1] as int;
        let c2 = self.categories@[k2] as int;
        if self.vertex_keys@[k1]@ == self.vertex_keys@[k2]@ {
            if c1 < c2 {
                assert(self.category_keys@[c1]@ != self.vertex_keys@[k2]@);
            } else if c2 < c1 {
                assert(self.category_keys@[c2]@ != self.vertex_keys@[k1]@);
            }
        } else {
            assert(self.category_keys@[c1]@ == self.vertex_keys@[k1]@);
            assert(self.category_keys@[c2]@ == self.vertex_keys@[k2]@);
        }
    }

    /// Initial coloring: each vertex keyed by neighbor count and, loops
    /// first within equal counts, by negated loop count.
    pub fn init_category_iteration_variables(&mut self)
        requires
            old(self).arena_wf(),
        ensures
            final(self).arena_wf(),
            final(self).cats_ok(),
            final(self).keys_ok(),
            final(self).edges@ == old(self).edges@,
            final(self).vertices@ == old(self).vertices@,
            final(self).canonical_ids@ == old(self).canonical_ids@,
            final(self).next_canonical_id == old(self).next_canonical_id,
            final(self).num_vertices == old(self).num_vertices,
    {
        self.iterations = 0;
        let n = self.vertices.len();
        let mut keys: Vec<Vec<i128>> = Vec::new();
        let mut k: usize = 0;
        while k < n
            invariant
                k <= n,
                n == self.vertices@.len(),
                self.arena_wf(),
                keys@.len() == k,
            decreases n - k,
        {
            let v = &self.vertices[k];
            let mut key: Vec<i128> = Vec::new();
            key.push(v.num_neighbors as i128);
            key.push(-(v.num_loops as i128));
            keys.push(key);
            k += 1;
        }
        self.vertex_keys = keys;
        self.update_categories_based_on_category_keys();
    }

    /// Re-derive the category of every vertex from the current keys: collect
    /// the distinct keys, sort them lexicographically, and give each vertex
    /// the index of its key.
    #[verifier::spinoff_prover]
    #[verifier::rlimit(100)]
    pub fn update_categories_based_on_category_keys(&mut self)
        requires
            old(self).arena_wf(),
        ensures
            final(self).arena_wf(),
            final(self).cats_ok(),
            final(self).keys_ok(),
            final(self).edges@ == old(self).edges@,
            final(self).vertices@ == old(self).vertices@,
            final(self).vertex_keys@ == old(self).vertex_keys@,
            final(self).prior_categories@ == old(self).prior_categories@,
            final(self).canonical_ids@ == old(self).canonical_ids@,
            final(self).next_canonical_id == old(self).next_canonical_id,
            final(self).num_vertices == old(self).num_vertices,
            final(self).iterations as int == if old(self).iterations < usize::MAX {
                old(self).iterations + 1
            } else {
                old(self).iterations as int
            },
    {
        let n = self.vertex_keys.len();
        // Collect the distinct keys.
        let mut distinct: Vec<Vec<i128>> = Vec::new();
        let mut k: usize = 0;
        while k < n
            invariant
                k <= n,
                n == self.vertex_keys@.len(),
                keys_distinct(distinct@),
                forall|i: int|
                    0 <= i < k ==> has_key(distinct@, (#[trigger] self.vertex_keys@[i])@),
                entries_from(distinct@, self.vertex_keys@),
            decreases n - k,
        {
            let key = &self.vertex_keys[k];
            if !contains_key_exec(&distinct, key) {
                let ghost d0 = distinct@;
                distinct.push(clone_key(key));
                proof {
                    assert(forall|i: int| 0 <= i < d0.len() ==> distinct@[i] == d0[i]);
                    assert(distinct@[d0.len() as int]@ == self.vertex_keys@[k as int]@);
                    assert forall|c: int| 0 <= c < distinct@.len() implies key_of_some(
                        (#[trigger] distinct@[c])@,
                        self.vertex_keys@,
                    ) by {
                        if c < d0.len() {
                            assert(d0[c]@ == distinct@[c]@);
                            assert(entries_from(d0, self.vertex_keys@));
                            assert(key_of_some(d0[c]@, self.vertex_keys@));
                        } else {
                            assert(self.vertex_keys@[k as int]@ == distinct@[c]@);
                            assert(key_of_some(distinct@[c]@, self.vertex_keys@));
                        }
                    }
                }
            }
            k += 1;
        }
        // Sort them lexicographically, selecting the least remaining key.
        let ghost all = distinct@;
        let mut src = distinct;
        let mut sorted: Vec<Vec<i128>> = Vec::new();
        while src.len() > 0
            invariant
                keys_distinct(src@),
                keys_distinct(sorted@),
                forall|x: Seq<i128>| has_key(src@, x) ==> !has_key(sorted@, x),
                forall|x: Seq<i128>|
                    (has_key(src@, x) || has_key(sorted@, x)) <==> has_key(all, x),
                forall|i: int, j: int|
                    0 <= i < j < sorted@.len() ==> !lex_lt(
                        (#[trigger] sorted@[j])@,
                        (#[trigger] sorted@[i])@,
                    ),
                forall|i: int, q: int|
                    0 <= i < sorted@.len() && 0 <= q < src@.len() ==> !lex_lt(
                        (#[trigger] src@[q])@,
                        (#[trigger] sorted@[i])@,
                    ),
            decreases src@.len(),
        {
            let mut m: usize = 0;
            let mut p: usize = 1;
            proof {
                lemma_lex_irrefl(src@[0]@);
            }
            while p < src.len()
                invariant
                    m < p <= src@.len(),
                    forall|q: int|
                        0 <= q < p ==> !lex_lt((#[trigger] src@[q])@, src@[m as int]@),
                decreases src@.len() - p,
            {
                let less = lex_lt_exec(&src[p], &src[m]);
                proof {
                    lemma_lex_irrefl(src@[p as int]@);
                    if less {
                        assert forall|q: int|
                            0 <= q < p + 1 implies !lex_lt(
                            (#[trigger] src@[q])@,
                            src@[p as int]@,
                        ) by {
                            if q < p && lex_lt(src@[q]@, src@[p as int]@) {
                                lemma_lex_trans(src@[q]@, src@[p as int]@, src@[m as int]@);
                            }
                        }
                    }
                }
                if less {
                    m = p;
                }
                p += 1;
            }
            let ghost src0 = src@;
            let ghost sorted0 = sorted@;
            let picked = src.remove(m);
            sorted.push(picked);
            proof {
                assert(src@ =~= src0.subrange(0, m as int) + src0.subrange(
                    m + 1,
                    src0.len() as int,
                ));
                assert(forall|i: int| 0 <= i < m ==> src@[i] == src0[i]);
                assert(forall|i: int|
                    m <= i < src@.len() ==> src@[i] == src0[i + 1]);
                assert(forall|i: int| 0 <= i < sorted0.len() ==> sorted@[i] == sorted0[i]);
                assert(sorted@[sorted0.len() as int] == src0[m as int]);
                assert(keys_distinct(src@));
                assert(keys_distinct(sorted@)) by {
                    assert(!has_key(sorted0, src0[m as int]@));
                }
                assert forall|x: Seq<i128>| has_key(src@, x) implies !has_key(sorted@, x) by {
                    let i = choose|i: int| 0 <= i < src@.len() && (#[trigger] src@[i])@ == x;
                    if i < m {
                        assert(src0[i]@ == x);
                    } else {
                        assert(src0[i + 1]@ == x);
                    }
                    assert(has_key(src0, x));
                    if has_key(sorted@, x) {
                        let j = choose|j: int|
                            0 <= j < sorted@.len() && (#[trigger] sorted@[j])@ == x;
                        if j < sorted0.len() {
                            assert(has_key(sorted0, x));
                            assert(false);
                        } else {
                            assert(x == src0[m as int]@);
                            if i < m {
                                assert(src0[i]@ != src0[m as int]@);
                            } else {
                                assert(src0[m as int]@ != src0[i + 1]@);
                            }
                            assert(false);
                        }
                    }
                }
                assert forall|x: Seq<i128>| has_key(all, x) implies (has_key(src@, x) || has_key(
                    sorted@,
                    x,
                )) by {
                    if has_key(src0, x) {
                        let i = choose|i: int|
                            0 <= i < src0.len() && (#[trigger] src0[i])@ == x;
                        if i == m {
                            assert(sorted@[sorted0.len() as int]@ == x);
                        } else if i < m {
                            assert(src@[i]@ == x);
                        } else {
                            assert(src@[i - 1]@ == x);
                        }
                    } else {
                        assert(has_key(sorted0, x));
                        let j = choose|j: int|
                            0 <= j < sorted0.len() && (#[trigger] sorted0[j])@ == x;
                        assert(sorted@[j]@ == x);
                    }
                }
                assert forall|i: int, j: int|
                    0 <= i < j < sorted@.len() implies !lex_lt(
                    (#[trigger] sorted@[j])@,
                    (#[trigger] sorted@[i])@,
                ) by {
                    if j < sorted0.len() {
                    } else {
                        assert(sorted@[j] == src0[m as int]);
                        assert(!lex_lt(src0[m as int]@, sorted0[i]@));
                    }
                }
                assert forall|i: int, q: int|
                    0 <= i < sorted@.len() && 0 <= q < src@.len() implies !lex_lt(
                    (#[trigger] src@[q])@,
                    (#[trigger] sorted@[i])@,
                ) by {
                    let qq: int = if q < m {
                        q
                    } else {
                        q + 1
                    };
                    assert(src@[q] == src0[qq]);
                    if i < sorted0.len() {
                        assert(!lex_lt(src0[qq]@, sorted0[i]@));
                    } else {
                        assert(sorted@[i] == src0[m as int]);
                        assert(!lex_lt(src0[qq]@, src0[m as int]@));
                    }
                }
                assert forall|x: Seq<i128>| (has_key(src@, x) || has_key(sorted@, x)) implies
                    has_key(all, x) by {
                    if has_key(src@, x) {
                        let i = choose|i: int|
                            0 <= i < src@.len() && (#[trigger] src@[i])@ == x;
                        if i < m {
                            assert(src0[i]@ == x);
                        } else {
                            assert(src0[i + 1]@ == x);
                        }
                        assert(has_key(src0, x));
                    } else {
                        let j = choose|j: int|
                            0 <= j < sorted@.len() && (#[trigger] sorted@[j])@ == x;
                        if j < sorted0.len() {
                            assert(has_key(sorted0, x));
                        } else {
                            assert(x == src0[m as int]@);
                            assert(has_key(src0, x));
                        }
                    }
                }
            }
        }
        proof {
            assert forall|c: int| 0 <= c < sorted@.len() implies key_of_some(
                (#[trigger] sorted@[c])@,
                self.vertex_keys@,
            ) by {
                let x = sorted@[c]@;
                assert(has_key(sorted@, x));
                assert(has_key(all, x));
                let c2 = choose|c2: int| 0 <= c2 < all.len() && (#[trigger] all[c2])@ == x;
                assert(entries_from(all, self.vertex_keys@));
                assert(key_of_some(all[c2]@, self.vertex_keys@));
            }
            assert(entries_from(sorted@, self.vertex_keys@));
            assert forall|c1: int, c2: int|
                0 <= c1 < c2 < sorted@.len() implies lex_lt(
                (#[trigger] sorted@[c1])@,
                (#[trigger] sorted@[c2])@,
            ) by {
                lemma_lex_connex(sorted@[c1]@, sorted@[c2]@);
            }
        }
        self.category_keys = sorted;
        self.num_categories = self.category_keys.len();
        // Give each vertex the index of its key.
        let mut t: usize = 0;
        while t < n
            invariant
                t <= n,
                n == self.vertex_keys@.len(),
                self.arena_wf(),
                self.edges@ == old(self).edges@,
                self.vertices@ == old(self).vertices@,
                self.vertex_keys@ == old(self).vertex_keys@,
                self.prior_categories@ == old(self).prior_categories@,
                self.canonical_ids@ == old(self).canonical_ids@,
                self.next_canonical_id == old(self).next_canonical_id,
                self.num_vertices == old(self).num_vertices,
                self.num_categories == self.category_keys@.len(),
                keys_distinct(self.category_keys@),
                forall|c1: int, c2: int|
                    0 <= c1 < c2 < self.category_keys@.len() ==> lex_lt(
                        (#[trigger] self.category_keys@[c1])@,
                        (#[trigger] self.category_keys@[c2])@,
                    ),
                forall|i: int|
                    0 <= i < n ==> has_key(self.category_keys@, (#[trigger] self.vertex_keys@[i])@),
                entries_from(self.category_keys@, self.vertex_keys@),
                self.iterations == old(self).iterations,
                forall|i: int|
                    0 <= i < t ==> (#[trigger] self.categories@[i]) < self.category_keys@.len()
                        && self.category_keys@[self.categories@[i] as int]@
                        == self.vertex_keys@[i]@ && (forall|j: int|
                        0 <= j < self.categories@[i] ==> (#[trigger] self.category_keys@[j])@
                            != self.vertex_keys@[i]@),
            decreases n - t,
        {
            let c = index_of_key(&self.category_keys, &self.vertex_keys[t]);
            self.categories[t] = c;
            t += 1;
        }
        // The round counter saturates rather than wrap; the refinement loop
        // stops long before either bound.
        if self.iterations < usize::MAX {
            self.iterations = self.iterations + 1;
        }
    }
}

/// Is a key with this view in the list?
pub fn contains_key_exec(ks: &Vec<Vec<i128>>, x: &Vec<i128>) -> (r: bool)
    ensures
        r == has_key(ks@, x@),
{
    let mut i: usize = 0;
    while i < ks.len()
        invariant
            i <= ks@.len(),
            forall|j: int| 0 <= j < i ==> (#[trigger] ks@[j])@ != x@,
        decreases ks@.len() - i,
    {
        if keys_equal(&ks[i], x) {
            return true;
        }
        i += 1;
    }
    false
}

/// Element-wise copy of a key.
pub fn clone_key(x: &Vec<i128>) -> (r: Vec<i128>)
    ensures
        r@ == x@,
{
    let mut r: Vec<i128> = Vec::new();
    let mut i: usize = 0;
    while i < x.len()
        invariant
            i <= x@.len(),
            r@ == x@.subrange(0, i as int),
        decreases x@.len() - i,
    {
        r.push(x[i]);
        assert(r@ =~= x@.subrange(0, i + 1));
        i += 1;
    }
    assert(r@ =~= x@);
    r
}

pub fn keys_equal(a: &Vec<i128>, b: &Vec<i128>) -> (r: bool)
    ensures
        r == (a@ =~= b@),
{
    if a.len() != b.len() {
        return false;
    }
    let mut i: usize = 0;
    while i < a.len()
        invariant
            i <= a@.len(),
            a@.len() == b@.len(),
            forall|j: int| 0 <= j < i ==> a@[j] == b@[j],
        decreases a@.len() - i,
    {
        if a[i] != b[i] {
            return false;
        }
        i += 1;
    }
    true
}

/// First index of the key with this view; the caller warrants it occurs.
pub fn index_of_key(ks: &Vec<Vec<i128>>, x: &Vec<i128>) -> (c: usize)
    requires
        has_key(ks@, x@),
    ensures
        c < ks@.len(),
        ks@[c as int]@ == x@,
        forall|j: int| 0 <= j < c ==> (#[trigger] ks@[j])@ != x@,
{
    let mut i: usize = 0;
    while i < ks.len()
        invariant
            has_key(ks@, x@),
            i <= ks@.len(),
            forall|j: int| 0 <= j < i ==> (#[trigger] ks@[j])@ != x@,
        decreases ks@.len() - i,
    {
        if keys_equal(&ks[i], x) {
            return i;
        }
        i += 1;
    }
    proof {
        let w = choose|w: int| 0 <= w < ks@.len() && (#[trigger] ks@[w])@ == x@;
        assert(ks@[w]@ != x@);
    }
    unreached()
}


/// Element-wise copy of a vector of indices.
pub fn copy_usizes(v: &Vec<usize>) -> (r: Vec<usize>)
    ensures
        r@ == v@,
{
    let mut r: Vec<usize> = Vec::new();
    let mut i: usize = 0;
    while i < v.len()
        invariant
            i <= v@.len(),
            r@ == v@.subrange(0, i as int),
        decreases v@.len() - i,
    {
        r.push(v[i]);
        assert(r@ =~= v@.subrange(0, i + 1));
        i += 1;
    }
    assert(r@ =~= v@);
    r
}

/// How many canonical ids have been assigned.
pub open spec fn assigned_count(ids: Seq<usize>) -> nat
    decreases ids.len(),
{
    if ids.len() == 0 {
        0
    } else {
        assigned_count(ids.drop_last()) + if ids.last() != unassigned() {
            1nat
        } else {
            0nat
        }
    }
}

pub proof fn lemma_assigned_le(ids: Seq<usize>)
    ensures
        assigned_count(ids) <= ids.len(),
    decreases ids.len(),
{
    if ids.len() > 0 {
        lemma_assigned_le(ids.drop_last());
    }
}

pub proof fn lemma_assigned_update(ids: Seq<usize>, k: int, v: usize)
    requires
        0 <= k < ids.len(),
        ids[k] == unassigned(),
        v != unassigned(),
    ensures
        assigned_count(ids.update(k, v)) == assigned_count(ids) + 1,
    decreases ids.len(),
{
    let u = ids.update(k, v);
    if k == ids.len() - 1 {
        assert(u.drop_last() =~= ids.drop_last());
    } else {
        assert(u.drop_last() =~= ids.drop_last().update(k, v));
        lemma_assigned_update(ids.drop_last(), k, v);
    }
}

pub proof fn lemma_assigned_lt(ids: Seq<usize>, k: int)
    requires
        0 <= k < ids.len(),
        ids[k] == unassigned(),
    ensures
        assigned_count(ids) < ids.len(),
    decreases ids.len(),
{
    lemma_assigned_le(ids.drop_last());
    if k < ids.len() - 1 {
        lemma_assigned_lt(ids.drop_last(), k);
    }
}

pub proof fn lemma_assigned_none(ids: Seq<usize>)
    requires
        forall|k: int| 0 <= k < ids.len() ==> (#[trigger] ids[k]) == unassigned(),
    ensures
        assigned_count(ids) == 0,
    decreases ids.len(),
{
    if ids.len() > 0 {
        lemma_assigned_none(ids.drop_last());
    }
}

pub proof fn lemma_assigned_full(ids: Seq<usize>)
    requires
        forall|k: int| 0 <= k < ids.len() ==> (#[trigger] ids[k]) != unassigned(),
    ensures
        assigned_count(ids) == ids.len(),
    decreases ids.len(),
{
    if ids.len() > 0 {
        lemma_assigned_full(ids.drop_last());
    }
}

impl CanonicalEdges {
    /// Canonical ids assigned so far are exactly `0 .. next_canonical_id`,
    /// each used once.
    pub open spec fn ids_partial(&self) -> bool {
        &&& self.next_canonical_id == assigned_count(self.canonical_ids@)
        &&& forall|k: int|
            0 <= k < self.canonical_ids@.len() ==> ((#[trigger] self.canonical_ids@[k])
                == unassigned() || self.canonical_ids@[k] < self.next_canonical_id)
        &&& forall|k1: int, k2: int|
            0 <= k1 < k2 < self.canonical_ids@.len() && (#[trigger] self.canonical_ids@[k1])
                != unassigned() && (#[trigger] self.canonical_ids@[k2]) != unassigned()
                ==> self.canonical_ids@[k1] != self.canonical_ids@[k2]
    }

    /// The bijection the labeler delivers: every vertex holds a distinct
    /// canonical id below the vertex count.
    pub open spec fn ids_bijective(&self) -> bool {
        &&& forall|k: int|
            0 <= k < self.canonical_ids@.len() ==> (#[trigger] self.canonical_ids@[k])
                < self.num_vertices
        &&& forall|k1: int, k2: int|
            0 <= k1 < k2 < self.canonical_ids@.len() ==> (#[trigger] self.canonical_ids@[k1])
                != (#[trigger] self.canonical_ids@[k2])
    }

    /// Run refinement rounds until the partition stabilizes or the round
    /// budget (one per vertex) is exhausted.
    pub fn categorize_vertices_by_connections(&mut self)
        requires
            old(self).arena_wf(),
        ensures
            final(self).arena_wf(),
            final(self).cats_ok(),
            final(self).keys_ok(),
            final(self).edges@ == old(self).edges@,
            final(self).vertices@ == old(self).vertices@,
            final(self).canonical_ids@ == old(self).canonical_ids@,
            final(self).next_canonical_id == old(self).next_canonical_id,
            final(self).num_vertices == old(self).num_vertices,
    {
        self.init_category_iteration_variables();
        while !self.iteration_is_done()
            invariant
                self.arena_wf(),
                self.cats_ok(),
                self.keys_ok(),
                self.edges@ == old(self).edges@,
                self.vertices@ == old(self).vertices@,
                self.canonical_ids@ == old(self).canonical_ids@,
                self.next_canonical_id == old(self).next_canonical_id,
                self.num_vertices == old(self).num_vertices,
            decreases self.num_vertices - self.iterations,
    
        {
            self.update_category_iteration_variables();
        }
    }

    /// Has the refinement converged: a single category, one category per
    /// vertex, the round budget spent, or no category changed last round?
    pub fn iteration_is_done(&self) -> (r: bool)
        requires
            self.arena_wf(),
        ensures
            r == (self.num_categories == 1 || self.num_categories == self.num_vertices
                || self.iterations >= self.num_vertices || (forall|k: int|
                0 <= k < self.categories@.len() ==> (#[trigger] self.categories@[k])
                    == self.prior_categories@[k])),
    {
        if self.num_categories == 1 || self.num_categories == self.num_vertices
            || self.iterations >= self.num_vertices {
            return true;
        }
        let mut k: usize = 0;
        while k < self.categories.len()
            invariant
                self.arena_wf(),
                k <= self.categories@.len(),
                self.num_categories != 1,
                self.num_categories != self.num_vertices,
                self.iterations < self.num_vertices,
                forall|j: int|
                    0 <= j < k ==> (#[trigger] self.categories@[j]) == self.prior_categories@[j],
            decreases self.categories@.len() - k,
        {
            if self.categories[k] != self.prior_categories[k] {
                return false;
            }
            k += 1;
        }
        true
    }

    /// One refinement round: each vertex's new key is its current category
    /// followed by the reversed histogram of its neighbors' categories.
    pub fn update_category_iteration_variables(&mut self)
        requires
            old(self).arena_wf(),
            old(self).cats_ok(),
        ensures
            final(self).arena_wf(),
            final(self).cats_ok(),
            final(self).keys_ok(),
            final(self).edges@ == old(self).edges@,
            final(self).vertices@ == old(self).vertices@,
            final(self).canonical_ids@ == old(self).canonical_ids@,
            final(self).next_canonical_id == old(self).next_canonical_id,
            final(self).num_vertices == old(self).num_vertices,
            final(self).iterations as int == if old(self).iterations < usize::MAX {
                old(self).iterations + 1
            } else {
                old(self).iterations as int
            },
            final(self).prior_categories@ == old(self).categories@,
            forall|k: int|
                0 <= k < old(self).vertices@.len() ==> (#[trigger] final(self).vertex_keys@[k])@
                    == round_key(
                    old(self).vertices@,
                    old(self).categories@,
                    k,
                    old(self).num_categories as int,
                ),
    {
        let n = self.vertices.len();
        let mut k: usize = 0;
        while k < n
            invariant
                k <= n,
                n == self.vertices@.len(),
                self.arena_wf(),
                self.cats_ok(),
                self.edges@ == old(self).edges@,
                self.vertices@ == old(self).vertices@,
                self.canonical_ids@ == old(self).canonical_ids@,
                self.next_canonical_id == old(self).next_canonical_id,
                self.num_vertices == old(self).num_vertices,
                self.iterations == old(self).iterations,
                self.categories@ == old(self).categories@,
                self.prior_categories@ == old(self).prior_categories@,
                self.category_keys@ == old(self).category_keys@,
                self.num_categories == old(self).num_categories,
                forall|kk: int|
                    0 <= kk < k ==> (#[trigger] self.vertex_keys@[kk])@ == round_key(
                        old(self).vertices@,
                        old(self).categories@,
                        kk,
                        old(self).num_categories as int,
                    ),
            decreases n - k,
        {
            let mut counts = filled(self.num_categories, 0);
            let nn = self.vertices[k].neighbors.len();
            let mut j: usize = 0;
            while j < nn
                invariant
                    j <= nn,
                    k < n,
                    n == self.vertices@.len(),
                    nn == self.vertices@[k as int].neighbors@.len(),
                    self.arena_wf(),
                    self.cats_ok(),
                    self.vertices@ == old(self).vertices@,
                    self.categories@ == old(self).categories@,
                    self.num_categories == old(self).num_categories,
                    counts@.len() == self.num_categories,
                    forall|c: int| 0 <= c < counts@.len() ==> (#[trigger] counts@[c]) <= j,
                    forall|c: int|
                        0 <= c < counts@.len() ==> (#[trigger] counts@[c]) == nbr_cat_count(
                            self.vertices@,
                            self.categories@,
                            k as int,
                            j as int,
                            c as usize,
                        ),
                decreases nn - j,
            {
                let x = self.vertices[k].neighbors[j];
                proof {
                    broadcast use vstd::seq_lib::group_to_multiset_ensures;
                    assert(self.vertices@[k as int].neighbors@.contains(
                        self.vertices@[k as int].neighbors@[j as int],
                    ));
                    assert(self.vertices@[k as int].neighbors@.to_multiset().count(x) > 0);
                    lemma_neighbors_in_vset(self.edges@, self.vertices@[k as int].raw_id, x);
                }
                let idx = self.find_vertex(x);
                proof {
                    lemma_arena_index_unique(self.vertices@, x, idx as int);
                }
                let c = self.categories[idx];
                let cur = counts[c];
                let ghost counts0 = counts@;
                counts[c] = cur + 1;
                proof {
                    assert(counts@ == counts0.update(c as int, (cur + 1) as usize));
                    assert forall|cc: int| 0 <= cc < counts@.len() implies (#[trigger] counts@[cc])
                        == nbr_cat_count(
                        self.vertices@,
                        self.categories@,
                        k as int,
                        j + 1,
                        cc as usize,
                    ) by {
                        assert(self.categories@[arena_index_of(
                            self.vertices@,
                            self.vertices@[k as int].neighbors@[j as int],
                        )] == c);
                        if cc == c {
                        } else {
                            assert(counts@[cc] == counts0[cc]);
                        }
                    }
                }
                j += 1;
            }
            let mut key: Vec<i128> = Vec::new();
            key.push(self.categories[k] as i128);
            let ghost ncats = self.num_categories as int;
            let mut t: usize = self.num_categories;
            while t > 0
                invariant
                    t <= counts@.len(),
                    k < n,
                    n == self.vertices@.len(),
                    nn == self.vertices@[k as int].neighbors@.len(),
                    self.vertices@ == old(self).vertices@,
                    self.categories@ == old(self).categories@,
                    ncats == self.num_categories,
                    counts@.len() == self.num_categories,
                    forall|c: int|
                        0 <= c < counts@.len() ==> (#[trigger] counts@[c]) == nbr_cat_count(
                            self.vertices@,
                            self.categories@,
                            k as int,
                            nn as int,
                            c as usize,
                        ),
                    key@.len() == 1 + ncats - t,
                    key@[0] == self.categories@[k as int] as i128,
                    forall|w: int|
                        1 <= w < key@.len() ==> (#[trigger] key@[w]) == nbr_cat_count(
                            self.vertices@,
                            self.categories@,
                            k as int,
                            nn as int,
                            (ncats - w) as usize,
                        ) as i128,
                decreases t,
            {
                let ghost key0 = key@;
                key.push(counts[t - 1] as i128);
                proof {
                    assert(forall|w: int| 0 <= w < key0.len() ==> key@[w] == key0[w]);
                    assert(key@[key0.len() as int] == counts@[t - 1] as i128);
                    assert(ncats - key0.len() as int == t - 1);
                }
                t -= 1;
            }
            let ghost keyv = key@;
            self.vertex_keys[k] = key;
            proof {
                assert(self.vertex_keys@[k as int]@ == keyv);
                assert(keyv =~= round_key(
                    old(self).vertices@,
                    old(self).categories@,
                    k as int,
                    old(self).num_categories as int,
                ));
            }
            k += 1;
        }
        self.prior_categories = copy_usizes(&self.categories);
        self.update_categories_based_on_category_keys();
    }
}


/// The arena position of the vertex with this raw id (the first match;
/// under `arena_wf` the only one).
pub open spec fn arena_index_of(vs: Seq<Vertex>, raw: usize) -> int
    decreases vs.len(),
{
    if vs.len() == 0 {
        0
    } else if vs[0].raw_id == raw {
        0
    } else {
        1 + arena_index_of(vs.subrange(1, vs.len() as int), raw)
    }
}

/// With pairwise-distinct raw ids, any match is the match.
pub proof fn lemma_arena_index_unique(vs: Seq<Vertex>, raw: usize, i: int)
    requires
        forall|p: int, q: int|
            0 <= p < q < vs.len() ==> raw_id_at(vs, p) != raw_id_at(vs, q),
        0 <= i < vs.len(),
        vs[i].raw_id == raw,
    ensures
        arena_index_of(vs, raw) == i,
    decreases vs.len(),
{
    if vs[0].raw_id == raw {
        if i != 0 {
            assert(raw_id_at(vs, 0) != raw_id_at(vs, i));
        }
    } else {
        let rest = vs.subrange(1, vs.len() as int);
        assert(forall|p: int, q: int|
            0 <= p < q < rest.len() ==> raw_id_at(rest, p) == raw_id_at(vs, p + 1)
                && raw_id_at(rest, q) == raw_id_at(vs, q + 1));
        assert(rest[i - 1].raw_id == raw);
        lemma_arena_index_unique(rest, raw, i - 1);
    }
}

/// How many of the first `upto` listed neighbors of arena vertex `k` fall
/// in category `c`.
pub open spec fn nbr_cat_count(
    vs: Seq<Vertex>,
    cats: Seq<usize>,
    k: int,
    upto: int,
    c: usize,
) -> nat
    decreases upto,
{
    if upto <= 0 {
        0
    } else {
        nbr_cat_count(vs, cats, k, upto - 1, c) + if cats[arena_index_of(
            vs,
            vs[k].neighbors@[upto - 1],
        )] == c {
            1nat
        } else {
            0nat
        }
    }
}

/// The refinement key of vertex `k`: its current category, then the
/// histogram of its neighbors' categories over the categories in
/// descending index order.
pub open spec fn round_key(vs: Seq<Vertex>, cats: Seq<usize>, k: int, ncats: int) -> Seq<i128> {
    Seq::new(
        (ncats + 1) as nat,
        |t: int|
            if t == 0 {
                cats[k] as i128
            } else {
                nbr_cat_count(vs, cats, k, vs[k].neighbors@.len() as int, (ncats - t) as usize)
                    as i128
            },
    )
}

/// The pairs arena vertex `k` emits from its first `upto` listed neighbor
/// occurrences: for each neighbor `x` whose canonical id is not below its
/// own, the normalized pair of the two ids.
pub open spec fn emissions_of(vs: Seq<Vertex>, ids: Seq<usize>, k: int, upto: int) -> Multiset<
    Edge,
>
    decreases upto,
{
    if upto <= 0 {
        Multiset::empty()
    } else {
        let rest = emissions_of(vs, ids, k, upto - 1);
        let x = vs[k].neighbors@[upto - 1];
        let a = ids[k];
        let b = ids[arena_index_of(vs, x)];
        if a <= b {
            rest.insert((a, b))
        } else {
            rest
        }
    }
}

/// Everything the first `upto` arena vertices emit: each undirected edge
/// occurrence exactly once, in its non-decreasing orientation.
pub open spec fn all_emissions(vs: Seq<Vertex>, ids: Seq<usize>, upto: int) -> Multiset<Edge>
    decreases upto,
{
    if upto <= 0 {
        Multiset::empty()
    } else {
        all_emissions(vs, ids, upto - 1).add(
            emissions_of(vs, ids, upto - 1, vs[upto - 1].neighbors@.len() as int),
        )
    }
}

/// A possible labeler outcome for this edge list: under some well-formed
/// final arena whose canonical ids form a bijection, `l` is the sorted
/// image of the edge multiset.
pub open spec fn canonical_calc_of(edges: Seq<Edge>, l: Seq<Edge>) -> bool {
    exists|ce: CanonicalEdges|
        (#[trigger] ce.arena_wf()) && ce.ids_bijective() && ce.edges@ == edges && pairs_sorted(l)
            && l.to_multiset() == image_of(ce.vertices@, ce.canonical_ids@, edges)
}

/// Order on normalized canonical edges.
pub open spec fn pair_le(a: Edge, b: Edge) -> bool {
    a.0 < b.0 || (a.0 == b.0 && a.1 <= b.1)
}

pub open spec fn pairs_sorted(es: Seq<Edge>) -> bool {
    forall|i: int, j: int| 0 <= i < j < es.len() ==> pair_le(#[trigger] es[i], #[trigger] es[j])
}

/// Sort edges lexicographically, keeping the multiset of pairs.
pub fn sort_pairs(v: Vec<Edge>) -> (r: Vec<Edge>)
    ensures
        r@.to_multiset() == v@.to_multiset(),
        pairs_sorted(r@),
{
    let mut src = v;
    let mut out: Vec<Edge> = Vec::new();
    proof {
        broadcast use vstd::seq_lib::group_to_multiset_ensures;
        assert(out@.to_multiset().add(src@.to_multiset()) =~= src@.to_multiset());
    }
    let ghost orig = src@.to_multiset();
    while src.len() > 0
        invariant
            out@.to_multiset().add(src@.to_multiset()) == orig,
            pairs_sorted(out@),
            forall|i: int, j: int|
                0 <= i < out@.len() && 0 <= j < src@.len() ==> pair_le(
                    #[trigger] out@[i],
                    #[trigger] src@[j],
                ),
        decreases src@.len(),
    {
        let mut m: usize = 0;
        let mut p: usize = 1;
        while p < src.len()
            invariant
                m < p <= src@.len(),
                forall|q: int| 0 <= q < p ==> pair_le(src@[m as int], #[trigger] src@[q]),
            decreases src@.len() - p,
        {
            let a = src[p];
            let b = src[m];
            if a.0 < b.0 || (a.0 == b.0 && a.1 < b.1) {
                m = p;
            }
            p += 1;
        }
        let ghost src0 = src@;
        let ghost out0 = out@;
        let picked = src.remove(m);
        out.push(picked);
        proof {
            broadcast use vstd::seq_lib::group_to_multiset_ensures;
            assert(src@ == src0.remove(m as int));
            assert(src@.to_multiset() =~= src0.to_multiset().remove(src0[m as int]));
            assert(out@ =~= out0 + seq![picked]);
            assert(out@.to_multiset() =~= out0.to_multiset().insert(picked));
            assert(out@.to_multiset().add(src@.to_multiset()) =~= orig);
            assert(forall|i: int| 0 <= i < m ==> src@[i] == src0[i]);
            assert(forall|i: int| m <= i < src@.len() ==> src@[i] == src0[i + 1]);
            assert(forall|i: int| 0 <= i < out0.len() ==> out@[i] == out0[i]);
            assert(out@[out0.len() as int] == src0[m as int]);
            assert forall|i: int, j: int|
                0 <= i < out@.len() && 0 <= j < src@.len() implies pair_le(
                #[trigger] out@[i],
                #[trigger] src@[j],
            ) by {
                if j < m {
                    assert(src@[j] == src0[j]);
                } else {
                    assert(src@[j] == src0[j + 1]);
                }
                if i < out0.len() {
                } else {
                    assert(out@[i] == src0[m as int]);
                }
            }
        }
    }
    out
}

/// Whether any of the first `upto` listed neighbors of arena vertex `vi`
/// already carries a canonical id.
pub open spec fn has_labeled_nbr(vs: Seq<Vertex>, ids: Seq<usize>, vi: int, upto: int) -> bool
    decreases upto,
{
    if upto <= 0 {
        false
    } else {
        has_labeled_nbr(vs, ids, vi, upto - 1) || ids[arena_index_of(
            vs,
            vs[vi].neighbors@[upto - 1],
        )] != unassigned()
    }
}

/// Smallest canonical id among the first `upto` listed neighbors of `vi`
/// that are labeled, floored at `n` when none is.
pub open spec fn min_labeled_nbr(
    vs: Seq<Vertex>,
    ids: Seq<usize>,
    vi: int,
    upto: int,
    n: usize,
) -> usize
    decreases upto,
{
    if upto <= 0 {
        n
    } else {
        let rest = min_labeled_nbr(vs, ids, vi, upto - 1, n);
        let id = ids[arena_index_of(vs, vs[vi].neighbors@[upto - 1])];
        if id != unassigned() && id < rest {
            id
        } else {
            rest
        }
    }
}

proof fn lemma_labeled_nbr_grows(vs: Seq<Vertex>, ids: Seq<usize>, vi: int, a: int, b: int)
    requires
        0 <= a <= b,
    ensures
        has_labeled_nbr(vs, ids, vi, a) ==> has_labeled_nbr(vs, ids, vi, b),
    decreases b,
{
    if b > a {
        lemma_labeled_nbr_grows(vs, ids, vi, a, b - 1);
    }
}

/// The tie-break priority of spec step 5: a vertex with a labeled neighbor
/// beats one without; among the labeled-adjacent, the smaller least
/// labeled-neighbor id wins, then the smaller raw id; among the rest, the
/// smaller raw id.
pub open spec fn preferred(vs: Seq<Vertex>, ids: Seq<usize>, n: usize, a: int, b: int) -> bool {
    let ca = has_labeled_nbr(vs, ids, a, vs[a].neighbors@.len() as int);
    let cb = has_labeled_nbr(vs, ids, b, vs[b].neighbors@.len() as int);
    let ma = min_labeled_nbr(vs, ids, a, vs[a].neighbors@.len() as int, n);
    let mb = min_labeled_nbr(vs, ids, b, vs[b].neighbors@.len() as int, n);
    if ca != cb {
        ca
    } else if ca {
        ma < mb || (ma == mb && vs[a].raw_id < vs[b].raw_id)
    } else {
        vs[a].raw_id < vs[b].raw_id
    }
}

/// Two distinct pool vertices always compare one way or the other: their
/// raw ids differ, so the priority is a strict total order.
pub proof fn lemma_preferred_connex(
    vs: Seq<Vertex>,
    ids: Seq<usize>,
    n: usize,
    a: int,
    b: int,
)
    requires
        0 <= a < vs.len(),
        0 <= b < vs.len(),
        vs[a].raw_id != vs[b].raw_id,
    ensures
        preferred(vs, ids, n, a, b) || preferred(vs, ids, n, b, a),
{
}

/// Position `p` holds the pool's most preferred vertex: no pool entry is
/// strictly preferred to it.
pub open spec fn pool_minimal(
    vs: Seq<Vertex>,
    ids: Seq<usize>,
    n: usize,
    pool: Seq<usize>,
    p: int,
) -> bool {
    0 <= p < pool.len() && forall|q: int|
        0 <= q < pool.len() ==> !preferred(vs, ids, n, (#[trigger] pool[q]) as int, pool[p] as int)
}

/// The position of the pool's most preferred vertex.
pub open spec fn pool_pick(vs: Seq<Vertex>, ids: Seq<usize>, n: usize, pool: Seq<usize>) -> int {
    choose|p: int| pool_minimal(vs, ids, n, pool, p)
}

/// The canonical ids after greedily draining a tie pool: repeatedly label
/// the most preferred remaining vertex with the next sequential id.
pub open spec fn drain_ids(
    vs: Seq<Vertex>,
    n: usize,
    ids: Seq<usize>,
    pool: Seq<usize>,
    next: usize,
) -> Seq<usize>
    decreases pool.len(),
{
    if pool.len() == 0 {
        ids
    } else {
        let p = pool_pick(vs, ids, n, pool);
        if pool_minimal(vs, ids, n, pool, p) {
            drain_ids(
                vs,
                n,
                ids.update(pool[p] as int, next),
                pool.remove(p),
                ((next + 1) as usize),
            )
        } else {
            ids
        }
    }
}

/// Minimality picks one position: two minimal positions of a pool of
/// distinct arena vertices coincide.
proof fn lemma_pool_pick_unique(
    vs: Seq<Vertex>,
    ids: Seq<usize>,
    n: usize,
    pool: Seq<usize>,
    p1: int,
    p2: int,
)
    requires
        forall|i: int, j: int|
            0 <= i < j < vs.len() ==> raw_id_at(vs, i) != raw_id_at(vs, j),
        forall|q: int| 0 <= q < pool.len() ==> (#[trigger] pool[q]) < vs.len(),
        forall|i: int, j: int| 0 <= i < j < pool.len() ==> pool[i] != pool[j],
        pool_minimal(vs, ids, n, pool, p1),
        pool_minimal(vs, ids, n, pool, p2),
    ensures
        p1 == p2,
{
    if p1 != p2 {
        assert(pool[p1] != pool[p2]);
        assert(raw_id_at(vs, pool[p1] as int) != raw_id_at(vs, pool[p2] as int));
        lemma_preferred_connex(vs, ids, n, pool[p1] as int, pool[p2] as int);
        assert(!preferred(vs, ids, n, pool[p1] as int, pool[p2] as int));
        assert(!preferred(vs, ids, n, pool[p2] as int, pool[p1] as int));
    }
}

impl CanonicalEdges {
    /// Whether any neighbor of arena vertex `vi` already has a canonical id.
    fn has_labeled_neighbor(&self, vi: usize) -> (r: bool)
        requires
            self.arena_wf(),
            vi < self.vertices@.len(),
        ensures
            r == has_labeled_nbr(
                self.vertices@,
                self.canonical_ids@,
                vi as int,
                self.vertices@[vi as int].neighbors@.len() as int,
            ),
    {
        let nn = self.vertices[vi].neighbors.len();
        let mut j: usize = 0;
        while j < nn
            invariant
                self.arena_wf(),
                vi < self.vertices@.len(),
                nn == self.vertices@[vi as int].neighbors@.len(),
                j <= nn,
                !has_labeled_nbr(self.vertices@, self.canonical_ids@, vi as int, j as int),
            decreases nn - j,
        {
            let x = self.vertices[vi].neighbors[j];
            proof {
                broadcast use vstd::seq_lib::group_to_multiset_ensures;
                assert(self.vertices@[vi as int].neighbors@.contains(
                    self.vertices@[vi as int].neighbors@[j as int],
                ));
                lemma_neighbors_in_vset(self.edges@, self.vertices@[vi as int].raw_id, x);
            }
            let idx = self.find_vertex(x);
            proof {
                lemma_arena_index_unique(self.vertices@, x, idx as int);
            }
            if self.canonical_ids[idx] != usize::MAX {
                proof {
                    assert(has_labeled_nbr(
                        self.vertices@,
                        self.canonical_ids@,
                        vi as int,
                        j + 1,
                    ));
                    lemma_labeled_nbr_grows(
                        self.vertices@,
                        self.canonical_ids@,
                        vi as int,
                        j + 1,
                        nn as int,
                    );
                }
                return true;
            }
            j += 1;
        }
        false
    }

    /// Smallest canonical id among the already-labeled neighbors of `vi`,
    /// or the vertex count when none is labeled.
    fn min_labeled_neighbor(&self, vi: usize) -> (r: usize)
        requires
            self.arena_wf(),
            vi < self.vertices@.len(),
        ensures
            r == min_labeled_nbr(
                self.vertices@,
                self.canonical_ids@,
                vi as int,
                self.vertices@[vi as int].neighbors@.len() as int,
                self.num_vertices,
            ),
    {
        let mut best = self.num_vertices;
        let nn = self.vertices[vi].neighbors.len();
        let mut j: usize = 0;
        while j < nn
            invariant
                self.arena_wf(),
                vi < self.vertices@.len(),
                nn == self.vertices@[vi as int].neighbors@.len(),
                j <= nn,
                best == min_labeled_nbr(
                    self.vertices@,
                    self.canonical_ids@,
                    vi as int,
                    j as int,
                    self.num_vertices,
                ),
            decreases nn - j,
        {
            let x = self.vertices[vi].neighbors[j];
            proof {
                broadcast use vstd::seq_lib::group_to_multiset_ensures;
                assert(self.vertices@[vi as int].neighbors@.contains(
                    self.vertices@[vi as int].neighbors@[j as int],
                ));
                lemma_neighbors_in_vset(self.edges@, self.vertices@[vi as int].raw_id, x);
            }
            let idx = self.find_vertex(x);
            proof {
                lemma_arena_index_unique(self.vertices@, x, idx as int);
            }
            let id = self.canonical_ids[idx];
            if id != usize::MAX && id < best {
                best = id;
            }
            j += 1;
        }
        best
    }

    /// Pick the pool position of the vertex to label next: prefer vertices
    /// with a labeled neighbor, smallest labeled-neighbor id first, then
    /// smallest raw id; with no labeled neighbor anywhere, smallest raw id.
    /// No pool entry is strictly preferred to the chosen one.
    fn pick_next(&self, pending: &Vec<usize>) -> (pos: usize)
        requires
            self.arena_wf(),
            pending@.len() > 0,
            forall|p: int| 0 <= p < pending@.len() ==> (#[trigger] pending@[p]) < self.vertices@.len(),
        ensures
            pos < pending@.len(),
            pending@.len() > 1 ==> forall|q: int|
                0 <= q < pending@.len() ==> !preferred(
                    self.vertices@,
                    self.canonical_ids@,
                    self.num_vertices,
                    (#[trigger] pending@[q]) as int,
                    pending@[pos as int] as int,
                ),
    {
        if pending.len() == 1 {
            return 0;
        }
        let mut best_pos: usize = 0;
        let mut best_connected = false;
        let mut best_min: usize = 0;
        let mut best_raw: usize = 0;
        let mut p: usize = 0;
        while p < pending.len()
            invariant
                self.arena_wf(),
                pending@.len() > 0,
                forall|q: int|
                    0 <= q < pending@.len() ==> (#[trigger] pending@[q]) < self.vertices@.len(),
                p <= pending@.len(),
                p > 0 ==> best_pos < p,
                p == 0 ==> best_pos == 0,
                p > 0 ==> {
                    let bi = pending@[best_pos as int] as int;
                    &&& best_connected == has_labeled_nbr(
                        self.vertices@,
                        self.canonical_ids@,
                        bi,
                        self.vertices@[bi].neighbors@.len() as int,
                    )
                    &&& (best_connected ==> best_min == min_labeled_nbr(
                        self.vertices@,
                        self.canonical_ids@,
                        bi,
                        self.vertices@[bi].neighbors@.len() as int,
                        self.num_vertices,
                    ))
                    &&& best_raw == self.vertices@[bi].raw_id
                },
                forall|q: int|
                    0 <= q < p ==> !preferred(
                        self.vertices@,
                        self.canonical_ids@,
                        self.num_vertices,
                        (#[trigger] pending@[q]) as int,
                        pending@[best_pos as int] as int,
                    ),
            decreases pending@.len() - p,
        {
            let vi = pending[p];
            let connected = self.has_labeled_neighbor(vi);
            let mn = if connected {
                self.min_labeled_neighbor(vi)
            } else {
                0
            };
            let raw = self.vertices[vi].raw_id;
            let better = if p == 0 {
                true
            } else if connected != best_connected {
                connected
            } else if connected {
                mn < best_min || (mn == best_min && raw < best_raw)
            } else {
                raw < best_raw
            };
            let ghost bp0 = best_pos;
            if better {
                best_pos = p;
                best_connected = connected;
                best_min = mn;
                best_raw = raw;
            }
            proof {
                if p > 0 {
                    if better {
                        assert(preferred(
                            self.vertices@,
                            self.canonical_ids@,
                            self.num_vertices,
                            pending@[p as int] as int,
                            pending@[bp0 as int] as int,
                        ));
                        assert forall|q: int| 0 <= q < p + 1 implies !preferred(
                            self.vertices@,
                            self.canonical_ids@,
                            self.num_vertices,
                            (#[trigger] pending@[q]) as int,
                            pending@[best_pos as int] as int,
                        ) by {
                            if q < p {
                                assert(!preferred(
                                    self.vertices@,
                                    self.canonical_ids@,
                                    self.num_vertices,
                                    pending@[q] as int,
                                    pending@[bp0 as int] as int,
                                ));
                            }
                        }
                    } else {
                        assert(!preferred(
                            self.vertices@,
                            self.canonical_ids@,
                            self.num_vertices,
                            pending@[p as int] as int,
                            pending@[bp0 as int] as int,
                        ));
                    }
                }
            }
            p += 1;
        }
        best_pos
    }

    /// Label every vertex of one tie pool, draining the pool in the
    /// priority order above; each gets the next sequential canonical id.
    pub fn assign_canonical_ids_for_ties(&mut self, pending: &mut Vec<usize>)
        requires
            old(self).arena_wf(),
            old(self).ids_partial(),
            forall|p: int|
                0 <= p < old(pending)@.len() ==> (#[trigger] old(pending)@[p])
                    < old(self).vertices@.len(),
            forall|p: int, q: int|
                0 <= p < q < old(pending)@.len() ==> old(pending)@[p] != old(pending)@[q],
            forall|p: int|
                0 <= p < old(pending)@.len() ==> old(self).canonical_ids@[(
                #[trigger] old(pending)@[p]) as int] == unassigned(),
        ensures
            final(self).arena_wf(),
            final(self).ids_partial(),
            final(self).edges@ == old(self).edges@,
            final(self).vertices@ == old(self).vertices@,
            final(self).categories@ == old(self).categories@,
            final(self).prior_categories@ == old(self).prior_categories@,
            final(self).vertex_keys@ == old(self).vertex_keys@,
            final(self).category_keys@ == old(self).category_keys@,
            final(self).num_categories == old(self).num_categories,
            final(self).num_vertices == old(self).num_vertices,
            final(self).iterations == old(self).iterations,
            forall|k: int|
                0 <= k < final(self).canonical_ids@.len() && !old(pending)@.contains(k as usize)
                    ==> final(self).canonical_ids@[k] == old(self).canonical_ids@[k],
            forall|k: int|
                0 <= k < final(self).canonical_ids@.len() && old(pending)@.contains(k as usize)
                    ==> final(self).canonical_ids@[k] != unassigned()
                        && final(self).canonical_ids@[k] >= old(self).next_canonical_id,
            final(pending)@.len() == 0,
            final(self).canonical_ids@ == drain_ids(
                old(self).vertices@,
                old(self).num_vertices,
                old(self).canonical_ids@,
                old(pending)@,
                old(self).next_canonical_id,
            ),
    {
        while pending.len() > 0
            invariant
                self.arena_wf(),
                self.ids_partial(),
                self.edges@ == old(self).edges@,
                self.vertices@ == old(self).vertices@,
                self.categories@ == old(self).categories@,
                self.prior_categories@ == old(self).prior_categories@,
                self.vertex_keys@ == old(self).vertex_keys@,
                self.category_keys@ == old(self).category_keys@,
                self.num_categories == old(self).num_categories,
                self.num_vertices == old(self).num_vertices,
                self.iterations == old(self).iterations,
                forall|p: int|
                    0 <= p < pending@.len() ==> (#[trigger] pending@[p]) < self.vertices@.len(),
                forall|p: int, q: int|
                    0 <= p < q < pending@.len() ==> pending@[p] != pending@[q],
                forall|p: int|
                    0 <= p < pending@.len() ==> self.canonical_ids@[(#[trigger] pending@[p]) as int]
                        == unassigned(),
                forall|p: int|
                    0 <= p < pending@.len() ==> old(pending)@.contains(#[trigger] pending@[p]),
                self.canonical_ids@.len() == old(self).canonical_ids@.len(),
                forall|k: int|
                    0 <= k < self.canonical_ids@.len() && !old(pending)@.contains(k as usize)
                        ==> self.canonical_ids@[k] == old(self).canonical_ids@[k],
                old(self).next_canonical_id <= self.next_canonical_id,
                forall|k: int|
                    0 <= k < self.canonical_ids@.len() && old(pending)@.contains(k as usize)
                        && !pending@.contains(k as usize) ==> self.canonical_ids@[k] != unassigned()
                        && self.canonical_ids@[k] >= old(self).next_canonical_id,
                drain_ids(
                    old(self).vertices@,
                    old(self).num_vertices,
                    old(self).canonical_ids@,
                    old(pending)@,
                    old(self).next_canonical_id,
                ) == drain_ids(
                    self.vertices@,
                    self.num_vertices,
                    self.canonical_ids@,
                    pending@,
                    self.next_canonical_id,
                ),
            decreases pending@.len(),
        {
            let pos = self.pick_next(pending);
            proof {
                assert(pool_minimal(
                    self.vertices@,
                    self.canonical_ids@,
                    self.num_vertices,
                    pending@,
                    pos as int,
                ));
                let psp = pool_pick(
                    self.vertices@,
                    self.canonical_ids@,
                    self.num_vertices,
                    pending@,
                );
                assert(pool_minimal(
                    self.vertices@,
                    self.canonical_ids@,
                    self.num_vertices,
                    pending@,
                    psp,
                ));
                lemma_pool_pick_unique(
                    self.vertices@,
                    self.canonical_ids@,
                    self.num_vertices,
                    pending@,
                    psp,
                    pos as int,
                );
            }
            let k = pending[pos];
            let ghost ids0 = self.canonical_ids@;
            let ghost pend0 = pending@;
            proof {
                lemma_assigned_lt(ids0, k as int);
                assert(self.next_canonical_id < ids0.len());
                lemma_assigned_update(ids0, k as int, self.next_canonical_id);
            }
            self.canonical_ids[k] = self.next_canonical_id;
            self.next_canonical_id = self.next_canonical_id + 1;
            pending.remove(pos);
            proof {
                assert(pending@ == pend0.remove(pos as int));
                assert(forall|i: int| 0 <= i < pos ==> pending@[i] == pend0[i]);
                assert(forall|i: int| pos <= i < pending@.len() ==> pending@[i] == pend0[i + 1]);
                assert(self.canonical_ids@ == ids0.update(k as int, (self.next_canonical_id
                    - 1) as usize));
                assert forall|p: int|
                    0 <= p < pending@.len() implies self.canonical_ids@[(
                #[trigger] pending@[p]) as int] == unassigned() by {
                    if p < pos {
                        assert(pend0[p] != pend0[pos as int]);
                    } else {
                        assert(pend0[p + 1] != pend0[pos as int]);
                    }
                }
                assert forall|kk: int|
                    0 <= kk < self.canonical_ids@.len() && old(pending)@.contains(kk as usize)
                        && !pending@.contains(kk as usize) implies self.canonical_ids@[kk]
                    != unassigned() && self.canonical_ids@[kk] >= old(self).next_canonical_id by {
                    if kk != k {
                        if !pend0.contains(kk as usize) {
                        } else {
                            let i = choose|i: int|
                                0 <= i < pend0.len() && (#[trigger] pend0[i]) == kk as usize;
                            if i < pos {
                                assert(pending@[i] == kk as usize);
                                assert(pending@.contains(kk as usize));
                            } else if i == pos {
                                assert(pend0[i] == k);
                                assert(false);
                            } else {
                                assert(pending@[i - 1] == kk as usize);
                                assert(pending@.contains(kk as usize));
                            }
                        }
                    }
                }
            }
        }
    }

    /// Assign the final canonical ids: categories fully split already give
    /// them directly; otherwise drain each category's tie pool in order.
    #[verifier::spinoff_prover]
    #[verifier::rlimit(100)]
    pub fn finalize_canonical_ids(&mut self)
        requires
            old(self).arena_wf(),
            old(self).cats_ok(),
            old(self).keys_ok(),
            old(self).ids_fresh(),
        ensures
            final(self).arena_wf(),
            final(self).ids_bijective(),
            final(self).edges@ == old(self).edges@,
            final(self).vertices@ == old(self).vertices@,
            final(self).num_vertices == old(self).num_vertices,
            final(self).categories@ == old(self).categories@,
            forall|k1: int, k2: int|
                0 <= k1 < old(self).categories@.len() && 0 <= k2 < old(self).categories@.len()
                    && old(self).categories@[k1] < old(self).categories@[k2] ==> (
                #[trigger] final(self).canonical_ids@[k1]) < (
                #[trigger] final(self).canonical_ids@[k2]),
    {
        let n = self.vertices.len();
        if self.num_categories == n {
            proof {
                self.lemma_categories_distinct();
            }
            let mut k: usize = 0;
            while k < n
                invariant
                    k <= n,
                    n == self.vertices@.len(),
                    self.arena_wf(),
                    self.cats_ok(),
                    self.num_categories == n,
                    self.edges@ == old(self).edges@,
                    self.vertices@ == old(self).vertices@,
                    self.num_vertices == old(self).num_vertices,
                    self.categories@ == old(self).categories@,
                    forall|k1: int, k2: int|
                        0 <= k1 < k2 < self.categories@.len() ==> (#[trigger] self.categories@[k1])
                            != (#[trigger] self.categories@[k2]),
                    forall|i: int|
                        0 <= i < k ==> (#[trigger] self.canonical_ids@[i]) == self.categories@[i],
                decreases n - k,
            {
                self.canonical_ids[k] = self.categories[k];
                k += 1;
            }
        } else {
            self.next_canonical_id = 0;
            proof {
                lemma_assigned_none(self.canonical_ids@);
            }
            let mut i: usize = 0;
            while i < self.num_categories
                invariant
                    i <= self.num_categories,
                    n == self.vertices@.len(),
                    self.arena_wf(),
                    self.cats_ok(),
                    self.ids_partial(),
                    self.edges@ == old(self).edges@,
                    self.vertices@ == old(self).vertices@,
                    self.num_vertices == old(self).num_vertices,
                    self.categories@ == old(self).categories@,
                    self.num_categories == old(self).num_categories,
                    forall|k: int|
                        0 <= k < self.canonical_ids@.len() ==> ((#[trigger] self.canonical_ids@[k])
                            != unassigned() <==> self.categories@[k] < i),
                    forall|k1: int, k2: int|
                        0 <= k1 < self.categories@.len() && 0 <= k2 < self.categories@.len()
                            && self.canonical_ids@[k1] != unassigned() && self.canonical_ids@[k2]
                            != unassigned() && self.categories@[k1] < self.categories@[k2] ==> (
                        #[trigger] self.canonical_ids@[k1]) < (#[trigger] self.canonical_ids@[k2]),
                decreases self.num_categories - i,
            {
                let mut pending: Vec<usize> = Vec::new();
                let mut k: usize = 0;
                while k < n
                    invariant
                        k <= n,
                        n == self.vertices@.len(),
                        self.arena_wf(),
                        i < self.num_categories,
                        forall|p: int|
                            0 <= p < pending@.len() ==> (#[trigger] pending@[p]) < n,
                        forall|p: int, q: int|
                            0 <= p < q < pending@.len() ==> pending@[p] != pending@[q],
                        forall|p: int|
                            0 <= p < pending@.len() ==> self.categories@[(
                            #[trigger] pending@[p]) as int] == i,
                        forall|kk: int|
                            0 <= kk < k && self.categories@[kk] == i ==> pending@.contains(
                                kk as usize,
                            ),
                        forall|p: int|
                            0 <= p < pending@.len() ==> (#[trigger] pending@[p]) < k,
                    decreases n - k,
                {
                    if self.categories[k] == i {
                        let ghost pnd0 = pending@;
                        pending.push(k);
                        proof {
                            assert(forall|p: int| 0 <= p < pnd0.len() ==> pending@[p] == pnd0[p]);
                            assert(pending@[pnd0.len() as int] == k as usize);
                            assert forall|kk: int|
                                0 <= kk < k + 1 && self.categories@[kk] == i implies pending@
                                .contains(kk as usize) by {
                                if kk < k {
                                    assert(pnd0.contains(kk as usize));
                                    let p = choose|p: int|
                                        0 <= p < pnd0.len() && (#[trigger] pnd0[p]) == kk as usize;
                                    assert(pending@[p] == kk as usize);
                                } else {
                                    assert(pending@[pnd0.len() as int] == kk as usize);
                                }
                            }
                        }
                    }
                    k += 1;
                }
                let ghost pend_all = pending@;
                proof {
                    assert forall|p: int|
                        0 <= p < pending@.len() implies self.canonical_ids@[(
                    #[trigger] pending@[p]) as int] == unassigned() by {
                        assert(self.categories@[pending@[p] as int] == i);
                    }
                }
                let ghost next_before = self.next_canonical_id;
                let ghost ids_before = self.canonical_ids@;
                self.assign_canonical_ids_for_ties(&mut pending);
                proof {
                    assert forall|k1: int, k2: int|
                        0 <= k1 < self.categories@.len() && 0 <= k2 < self.categories@.len()
                            && self.canonical_ids@[k1] != unassigned() && self.canonical_ids@[k2]
                            != unassigned() && self.categories@[k1] < self.categories@[k2] implies (
                    #[trigger] self.canonical_ids@[k1]) < (
                    #[trigger] self.canonical_ids@[k2]) by {
                        if pend_all.contains(k1 as usize) {
                            let p = choose|p: int|
                                0 <= p < pend_all.len() && (#[trigger] pend_all[p]) == k1 as usize;
                            assert(self.categories@[k1] == i);
                            if pend_all.contains(k2 as usize) {
                                let q = choose|q: int|
                                    0 <= q < pend_all.len() && (#[trigger] pend_all[q])
                                        == k2 as usize;
                                assert(self.categories@[k2] == i);
                            } else {
                                assert(self.canonical_ids@[k2] == ids_before[k2]);
                                assert(ids_before[k2] != unassigned());
                                assert(self.categories@[k2] < i);
                            }
                        } else {
                            assert(self.canonical_ids@[k1] == ids_before[k1]);
                            if ids_before[k1] == unassigned() {
                                assert(self.categories@[k1] >= i);
                                if pend_all.contains(k2 as usize) {
                                    let q = choose|q: int|
                                        0 <= q < pend_all.len() && (#[trigger] pend_all[q])
                                            == k2 as usize;
                                    assert(self.categories@[k2] == i);
                                    assert(false);
                                } else {
                                    assert(self.canonical_ids@[k2] == ids_before[k2]);
                                    assert(self.categories@[k2] < i);
                                    assert(false);
                                }
                            } else {
                                assert(ids_before[k1] < next_before);
                                if pend_all.contains(k2 as usize) {
                                    let q = choose|q: int|
                                        0 <= q < pend_all.len() && (#[trigger] pend_all[q])
                                            == k2 as usize;
                                    assert(self.canonical_ids@[k2] >= next_before);
                                } else {
                                    assert(self.canonical_ids@[k2] == ids_before[k2]);
                                }
                            }
                        }
                    }
                    assert forall|kk: int|
                        0 <= kk < self.canonical_ids@.len() implies ((
                    #[trigger] self.canonical_ids@[kk]) != unassigned() <==> self.categories@[kk]
                        < i + 1) by {
                        if self.categories@[kk] == i {
                            assert(pend_all.contains(kk as usize));
                        } else if self.categories@[kk] < i {
                            if pend_all.contains(kk as usize) {
                                let p = choose|p: int|
                                    0 <= p < pend_all.len() && (#[trigger] pend_all[p])
                                        == kk as usize;
                                assert(self.categories@[pend_all[p] as int] == i);
                                assert(false);
                            }
                        } else {
                            if pend_all.contains(kk as usize) {
                                let p = choose|p: int|
                                    0 <= p < pend_all.len() && (#[trigger] pend_all[p])
                                        == kk as usize;
                                assert(self.categories@[pend_all[p] as int] == i);
                                assert(false);
                            }
                        }
                    }
                }
                i += 1;
            }
            proof {
                assert forall|k: int|
                    0 <= k < self.canonical_ids@.len() implies (#[trigger] self.canonical_ids@[k])
                    != unassigned() by {
                    assert(self.categories@[k] < self.num_categories);
                }
                lemma_assigned_full(self.canonical_ids@);
                assert(self.next_canonical_id == self.canonical_ids@.len());
            }
        }
    }

    /// With as many categories as vertices, no two vertices share a
    /// category: sharing one would mean sharing a key, leaving fewer than
    /// `n` distinct keys for the `n` distinct list entries.
    proof fn lemma_categories_distinct(&self)
        requires
            self.arena_wf(),
            self.cats_ok(),
            self.keys_ok(),
            self.num_categories == self.vertices@.len(),
        ensures
            forall|k1: int, k2: int|
                0 <= k1 < k2 < self.categories@.len() ==> (#[trigger] self.categories@[k1]) != (
                #[trigger] self.categories@[k2]),
    {
        let n = self.vertices@.len() as int;
        assert forall|k1: int, k2: int|
            0 <= k1 < k2 < self.categories@.len() implies (#[trigger] self.categories@[k1]) != (
        #[trigger] self.categories@[k2]) by {
            if self.categories@[k1] == self.categories@[k2] {
                self.lemma_partition(k1, k2);
                let lv = self.category_keys@.map_values(|x: Vec<i128>| x@);
                let vw = self.vertex_keys@.map_values(|x: Vec<i128>| x@);
                assert(lv.no_duplicates()) by {
                    assert(forall|i: int, j: int|
                        0 <= i < j < lv.len() ==> lv[i] != lv[j]);
                }
                lv.unique_seq_to_set();
                assert(lv.to_set().len() == n);
                assert(lv.to_set().subset_of(vw.to_set())) by {
                    assert forall|x: Seq<i128>| lv.to_set().contains(x) implies vw.to_set()
                        .contains(x) by {
                        let c = choose|c: int| 0 <= c < lv.len() && lv[c] == x;
                        assert(self.category_keys@[c]@ == x);
                        assert(key_of_some(x, self.vertex_keys@));
                        let k = choose|k: int|
                            0 <= k < self.vertex_keys@.len() && (#[trigger] self.vertex_keys@[k])@
                                == x;
                        assert(vw[k] == x);
                        assert(vw.contains(x));
                    }
                }
                let vr = vw.remove(k2);
                assert(vw.to_set().subset_of(vr.to_set())) by {
                    assert forall|x: Seq<i128>| vw.to_set().contains(x) implies vr.to_set()
                        .contains(x) by {
                        let k = choose|k: int| 0 <= k < vw.len() && vw[k] == x;
                        if k < k2 {
                            assert(vr[k] == x);
                        } else if k == k2 {
                            assert(vw[k1] == vw[k2]);
                            assert(vr[k1] == x);
                        } else {
                            assert(vr[k - 1] == x);
                        }
                        assert(vr.contains(x));
                    }
                }
                broadcast use vstd::seq_lib::seq_to_set_is_finite;

                vr.lemma_cardinality_of_set();
                vstd::set_lib::lemma_len_subset(lv.to_set(), vr.to_set());
                assert(n <= vr.len());
                assert(false);
            }
        }
    }

    /// Run the whole labeling: refine categories, break ties, and emit the
    /// relabeled edge list, each undirected edge once in its non-decreasing
    /// orientation, sorted.
    pub fn calc(&mut self) -> (r: Vec<Edge>)
        requires
            old(self).arena_wf(),
            old(self).ids_fresh(),
        ensures
            final(self).arena_wf(),
            final(self).ids_bijective(),
            final(self).edges@ == old(self).edges@,
            final(self).vertices@ == old(self).vertices@,
            final(self).num_vertices == old(self).num_vertices,
            pairs_sorted(r@),
            r@.to_multiset() == all_emissions(
                final(self).vertices@,
                final(self).canonical_ids@,
                final(self).vertices@.len() as int,
            ),
            r@.to_multiset() == image_of(
                final(self).vertices@,
                final(self).canonical_ids@,
                final(self).edges@,
            ),
            r@.len() == final(self).edges@.len(),
            forall|i: int|
                0 <= i < r@.len() ==> (#[trigger] r@[i]).0 <= r@[i].1
                    && r@[i].1 < final(self).num_vertices,
    {
        self.categorize_vertices_by_connections();
        self.finalize_canonical_ids();
        let n = self.vertices.len();
        let mut raw: Vec<Edge> = Vec::new();
        proof {
            broadcast use vstd::seq_lib::group_to_multiset_ensures;
            assert(raw@.to_multiset() =~= Multiset::<Edge>::empty());
        }
        let mut k: usize = 0;
        while k < n
            invariant
                k <= n,
                n == self.vertices@.len(),
                self.arena_wf(),
                self.ids_bijective(),
                raw@.to_multiset() == all_emissions(self.vertices@, self.canonical_ids@, k as int),
                forall|i: int|
                    0 <= i < raw@.len() ==> (#[trigger] raw@[i]).0 <= raw@[i].1 && raw@[i].1
                        < self.num_vertices,
            decreases n - k,
        {
            let nn = self.vertices[k].neighbors.len();
            let mut j: usize = 0;
            proof {
                assert(raw@.to_multiset().add(Multiset::<Edge>::empty()) =~= raw@.to_multiset());
            }
            while j < nn
                invariant
                    k < n,
                    n == self.vertices@.len(),
                    nn == self.vertices@[k as int].neighbors@.len(),
                    j <= nn,
                    self.arena_wf(),
                    self.ids_bijective(),
                    raw@.to_multiset() == all_emissions(
                        self.vertices@,
                        self.canonical_ids@,
                        k as int,
                    ).add(emissions_of(self.vertices@, self.canonical_ids@, k as int, j as int)),
                    forall|i: int|
                        0 <= i < raw@.len() ==> (#[trigger] raw@[i]).0 <= raw@[i].1 && raw@[i].1
                            < self.num_vertices,
                decreases nn - j,
            {
                let x = self.vertices[k].neighbors[j];
                proof {
                    broadcast use vstd::seq_lib::group_to_multiset_ensures;
                    assert(self.vertices@[k as int].neighbors@.contains(
                        self.vertices@[k as int].neighbors@[j as int],
                    ));
                    lemma_neighbors_in_vset(self.edges@, self.vertices@[k as int].raw_id, x);
                }
                let idx = self.find_vertex(x);
                proof {
                    lemma_arena_index_unique(self.vertices@, x, idx as int);
                }
                let a = self.canonical_ids[k];
                let b = self.canonical_ids[idx];
                let ghost alls = all_emissions(self.vertices@, self.canonical_ids@, k as int);
                let ghost ems = emissions_of(self.vertices@, self.canonical_ids@, k as int, j as int);
                if a <= b {
                    let ghost raw0 = raw@;
                    raw.push((a, b));
                    proof {
                        broadcast use vstd::seq_lib::group_to_multiset_ensures;
                        assert(forall|i: int| 0 <= i < raw0.len() ==> raw@[i] == raw0[i]);
                        assert(raw@[raw0.len() as int] == (a, b));
                        assert(raw@ =~= raw0 + seq![(a, b)]);
                        assert(raw@.to_multiset() =~= raw0.to_multiset().insert((a, b)));
                        assert(emissions_of(self.vertices@, self.canonical_ids@, k as int, j + 1)
                            == ems.insert((a, b)));
                        assert(alls.add(ems.insert((a, b))) =~= alls.add(ems).insert((a, b)));
                    }
                } else {
                    proof {
                        assert(emissions_of(self.vertices@, self.canonical_ids@, k as int, j + 1)
                            == ems);
                    }
                }
                j += 1;
            }
            proof {
                assert(all_emissions(self.vertices@, self.canonical_ids@, k + 1)
                    == all_emissions(self.vertices@, self.canonical_ids@, k as int).add(
                    emissions_of(
                        self.vertices@,
                        self.canonical_ids@,
                        k as int,
                        self.vertices@[k as int].neighbors@.len() as int,
                    ),
                ));
            }
            k += 1;
        }
        proof {
            lemma_emissions_are_image(self.vertices@, self.canonical_ids@, self.edges@);
            lemma_image_len(self.vertices@, self.canonical_ids@, self.edges@);
            broadcast use vstd::seq_lib::group_to_multiset_ensures;
        }
        let ghost rawm = raw@.to_multiset();
        let ghost raws = raw@;
        let out = sort_pairs(raw);
        proof {
            broadcast use vstd::seq_lib::group_to_multiset_ensures;
            assert forall|i: int|
                0 <= i < out@.len() implies (#[trigger] out@[i]).0 <= out@[i].1 && out@[i].1
                < self.num_vertices by {
                assert(out@.to_multiset().count(out@[i]) > 0) by {
                    assert(out@.contains(out@[i]));
                }
                assert(raws.to_multiset().count(out@[i]) > 0);
                assert(raws.contains(out@[i]));
                let w = choose|w: int| 0 <= w < raws.len() && raws[w] == out@[i];
            }
        }
        out
    }
}


// ---------------------------------------------------------------------------
// The labeler's output is the input edge multiset relabeled: each edge
// occurrence once, in its non-decreasing orientation under the bijection.
// ---------------------------------------------------------------------------

/// The canonical id of a raw vertex under the arena's assignment.
pub open spec fn cid_of(vs: Seq<Vertex>, ids: Seq<usize>, raw: usize) -> usize {
    ids[arena_index_of(vs, raw)]
}

/// One edge, relabeled and normalized.
pub open spec fn relabeled(vs: Seq<Vertex>, ids: Seq<usize>, e: Edge) -> Edge {
    let a = cid_of(vs, ids, e.0);
    let b = cid_of(vs, ids, e.1);
    if a <= b {
        (a, b)
    } else {
        (b, a)
    }
}

/// The whole edge list, relabeled, as a multiset.
pub open spec fn image_of(vs: Seq<Vertex>, ids: Seq<usize>, es: Seq<Edge>) -> Multiset<Edge>
    decreases es.len(),
{
    if es.len() == 0 {
        Multiset::empty()
    } else {
        image_of(vs, ids, es.drop_last()).insert(relabeled(vs, ids, es.last()))
    }
}

/// What vertex `v` emits for one listed neighbor.
pub open spec fn emit_one(vs: Seq<Vertex>, ids: Seq<usize>, v: usize) -> spec_fn(usize) -> Multiset<
    Edge,
> {
    |x: usize|
        {
            let a = cid_of(vs, ids, v);
            let b = cid_of(vs, ids, x);
            if a <= b {
                Multiset::empty().insert((a, b))
            } else {
                Multiset::empty()
            }
        }
}

/// Fold a multiset-valued function over a list.
pub open spec fn mfold(g: spec_fn(usize) -> Multiset<Edge>, xs: Seq<usize>) -> Multiset<Edge>
    decreases xs.len(),
{
    if xs.len() == 0 {
        Multiset::empty()
    } else {
        mfold(g, xs.drop_last()).add(g(xs.last()))
    }
}

proof fn lemma_mfold_remove(g: spec_fn(usize) -> Multiset<Edge>, xs: Seq<usize>, i: int)
    requires
        0 <= i < xs.len(),
    ensures
        mfold(g, xs) == mfold(g, xs.remove(i)).add(g(xs[i])),
    decreases xs.len(),
{
    if i == xs.len() - 1 {
        assert(xs.remove(i) =~= xs.drop_last());
    } else {
        assert(xs.remove(i).drop_last() =~= xs.drop_last().remove(i));
        assert(xs.remove(i).last() == xs.last());
        lemma_mfold_remove(g, xs.drop_last(), i);
        assert(mfold(g, xs.drop_last().remove(i)).add(g(xs.drop_last()[i])).add(g(xs.last()))
            =~= mfold(g, xs.drop_last().remove(i)).add(g(xs.last())).add(g(xs[i])));
        assert(mfold(g, xs) == mfold(g, xs.remove(i)).add(g(xs[i])));
    }
}

/// The fold reads only the multiset of its list.
proof fn lemma_mfold_perm(g: spec_fn(usize) -> Multiset<Edge>, a: Seq<usize>, b: Seq<usize>)
    requires
        a.to_multiset() == b.to_multiset(),
    ensures
        mfold(g, a) == mfold(g, b),
    decreases a.len(),
{
    broadcast use vstd::seq_lib::group_to_multiset_ensures;

    if a.len() == 0 {
        assert(b.to_multiset().len() == 0);
        assert(b.len() == 0);
    } else {
        let x = a.last();
        assert(a.to_multiset().count(x) > 0) by {
            assert(a.contains(x));
        }
        assert(b.to_multiset().count(x) > 0);
        assert(b.contains(x));
        let i = choose|i: int| 0 <= i < b.len() && b[i] == x;
        assert(a.drop_last() =~= a.remove(a.len() - 1));
        assert(a.remove(a.len() - 1).to_multiset() =~= a.to_multiset().remove(x));
        assert(b.remove(i).to_multiset() =~= b.to_multiset().remove(x));
        lemma_mfold_perm(g, a.drop_last(), b.remove(i));
        lemma_mfold_remove(g, b, i);
    }
}

/// The listed neighbors of `v` over an edge list, one per incident
/// occurrence, in edge order.
pub open spec fn neighbor_list(es: Seq<Edge>, v: usize) -> Seq<usize>
    decreases es.len(),
{
    if es.len() == 0 {
        Seq::empty()
    } else {
        neighbor_list(es.drop_last(), v) + contrib_list(es.last(), v)
    }
}

pub open spec fn contrib_list(e: Edge, v: usize) -> Seq<usize> {
    if e.0 == v {
        seq![e.1]
    } else if e.1 == v {
        seq![e.0]
    } else {
        Seq::empty()
    }
}

proof fn lemma_neighbor_list_multiset(es: Seq<Edge>, v: usize)
    ensures
        neighbor_list(es, v).to_multiset() == neighbors_of(es, v),
    decreases es.len(),
{
    broadcast use vstd::seq_lib::group_to_multiset_ensures;

    if es.len() > 0 {
        lemma_neighbor_list_multiset(es.drop_last(), v);
        let a = neighbor_list(es.drop_last(), v);
        let c = contrib_list(es.last(), v);
        if c.len() == 0 {
            assert(a + c =~= a);
            assert(edge_contrib(es.last(), v) =~= Multiset::<usize>::empty());
            assert(a.to_multiset().add(Multiset::<usize>::empty()) =~= a.to_multiset());
        } else {
            assert(a + c =~= a.push(c[0]));
            assert((a + c).to_multiset() =~= a.to_multiset().insert(c[0]));
            assert(edge_contrib(es.last(), v) =~= Multiset::singleton(c[0]));
            assert(a.to_multiset().insert(c[0]) =~= a.to_multiset().add(Multiset::singleton(c[0])));
        }
    }
}

proof fn lemma_mfold_snoc(g: spec_fn(usize) -> Multiset<Edge>, a: Seq<usize>, c: Seq<usize>)
    requires
        c.len() <= 1,
    ensures
        mfold(g, a + c) == if c.len() == 0 {
            mfold(g, a)
        } else {
            mfold(g, a).add(g(c[0]))
        },
{
    if c.len() == 0 {
        assert(a + c =~= a);
    } else {
        assert((a + c).drop_last() =~= a);
        assert((a + c).last() == c[0]);
    }
}

/// What the last edge contributes to the first `upto` arena vertices'
/// emissions, summed.
pub open spec fn last_sum(vs: Seq<Vertex>, ids: Seq<usize>, e: Edge, upto: int) -> Multiset<Edge>
    decreases upto,
{
    if upto <= 0 {
        Multiset::empty()
    } else {
        let v = vs[upto - 1].raw_id;
        last_sum(vs, ids, e, upto - 1).add(
            if contrib_list(e, v).len() == 0 {
                Multiset::empty()
            } else {
                emit_one(vs, ids, v)(contrib_list(e, v)[0])
            },
        )
    }
}

/// Summed per-vertex emissions over the neighbor lists of an edge list.
pub open spec fn vertex_sum(vs: Seq<Vertex>, ids: Seq<usize>, es: Seq<Edge>, upto: int) -> Multiset<
    Edge,
>
    decreases upto,
{
    if upto <= 0 {
        Multiset::empty()
    } else {
        let v = vs[upto - 1].raw_id;
        vertex_sum(vs, ids, es, upto - 1).add(mfold(emit_one(vs, ids, v), neighbor_list(es, v)))
    }
}

proof fn lemma_vertex_sum_split(vs: Seq<Vertex>, ids: Seq<usize>, es: Seq<Edge>, upto: int)
    requires
        es.len() > 0,
    ensures
        vertex_sum(vs, ids, es, upto) == vertex_sum(vs, ids, es.drop_last(), upto).add(
            last_sum(vs, ids, es.last(), upto),
        ),
    decreases upto,
{
    if upto <= 0 {
        assert(vertex_sum(vs, ids, es, upto).add(Multiset::<Edge>::empty()) =~= vertex_sum(
            vs,
            ids,
            es,
            upto,
        ));
        assert(vertex_sum(vs, ids, es.drop_last(), upto).add(last_sum(vs, ids, es.last(), upto))
            =~= vertex_sum(vs, ids, es, upto));
    } else {
        lemma_vertex_sum_split(vs, ids, es, upto - 1);
        let v = vs[upto - 1].raw_id;
        lemma_mfold_snoc(
            emit_one(vs, ids, v),
            neighbor_list(es.drop_last(), v),
            contrib_list(es.last(), v),
        );
        assert(neighbor_list(es, v) == neighbor_list(es.drop_last(), v) + contrib_list(
            es.last(),
            v,
        ));
        let p = vertex_sum(vs, ids, es.drop_last(), upto - 1);
        let q = last_sum(vs, ids, es.last(), upto - 1);
        let m = mfold(emit_one(vs, ids, v), neighbor_list(es.drop_last(), v));
        let c = if contrib_list(es.last(), v).len() == 0 {
            Multiset::<Edge>::empty()
        } else {
            emit_one(vs, ids, v)(contrib_list(es.last(), v)[0])
        };
        assert(vertex_sum(vs, ids, es, upto) == p.add(q).add(m.add(c)));
        assert(p.add(q).add(m.add(c)) =~= p.add(m).add(q.add(c)));
    }
}

/// Summing one edge's contributions over the whole (distinct) arena gives
/// exactly its relabeled pair once.
proof fn lemma_last_sum_singleton(vs: Seq<Vertex>, ids: Seq<usize>, e: Edge, upto: int)
    requires
        forall|p: int, q: int|
            0 <= p < q < vs.len() ==> raw_id_at(vs, p) != raw_id_at(vs, q),
        0 <= upto <= vs.len(),
        0 <= arena_index_of(vs, e.0) < vs.len(),
        vs[arena_index_of(vs, e.0)].raw_id == e.0,
        0 <= arena_index_of(vs, e.1) < vs.len(),
        vs[arena_index_of(vs, e.1)].raw_id == e.1,
    ensures
        ({
            let iu = arena_index_of(vs, e.0);
            let iw = arena_index_of(vs, e.1);
            let cu = cid_of(vs, ids, e.0);
            let cw = cid_of(vs, ids, e.1);
            last_sum(vs, ids, e, upto) == if e.0 == e.1 {
                if iu < upto {
                    Multiset::empty().insert(relabeled(vs, ids, e))
                } else {
                    Multiset::<Edge>::empty()
                }
            } else {
                (if iu < upto && cu <= cw {
                    Multiset::empty().insert((cu, cw))
                } else {
                    Multiset::<Edge>::empty()
                }).add(
                    if iw < upto && cw <= cu {
                        Multiset::empty().insert((cw, cu))
                    } else {
                        Multiset::<Edge>::empty()
                    },
                )
            }
        }),
    decreases upto,
{
    let iu = arena_index_of(vs, e.0);
    let iw = arena_index_of(vs, e.1);
    let cu = cid_of(vs, ids, e.0);
    let cw = cid_of(vs, ids, e.1);
    if upto > 0 {
        lemma_last_sum_singleton(vs, ids, e, upto - 1);
        let v = vs[upto - 1].raw_id;
        let prev = last_sum(vs, ids, e, upto - 1);
        let inc = if contrib_list(e, v).len() == 0 {
            Multiset::<Edge>::empty()
        } else {
            emit_one(vs, ids, v)(contrib_list(e, v)[0])
        };
        assert(last_sum(vs, ids, e, upto) == prev.add(inc));
        if v == e.0 || v == e.1 {
            lemma_arena_index_unique(vs, v, upto - 1);
        }
        if e.0 == e.1 {
            if v == e.0 {
                assert(iu == upto - 1);
                assert(contrib_list(e, v) == seq![e.1]);
                assert(inc =~= Multiset::empty().insert(relabeled(vs, ids, e)));
                assert(prev =~= Multiset::<Edge>::empty());
                assert(prev.add(inc) =~= Multiset::empty().insert(relabeled(vs, ids, e)));
            } else {
                assert(iu != upto - 1) by {
                    if iu == upto - 1 {
                        assert(vs[iu].raw_id == e.0);
                    }
                }
                assert(contrib_list(e, v).len() == 0);
                assert(prev.add(inc) =~= prev);
            }
        } else {
            assert(iu != iw) by {
                if iu == iw {
                    assert(vs[iu].raw_id == e.0 && vs[iw].raw_id == e.1);
                }
            }
            let pu_old: Multiset<Edge> = if iu < upto - 1 && cu <= cw {
                Multiset::empty().insert((cu, cw))
            } else {
                Multiset::<Edge>::empty()
            };
            let pw_old: Multiset<Edge> = if iw < upto - 1 && cw <= cu {
                Multiset::empty().insert((cw, cu))
            } else {
                Multiset::<Edge>::empty()
            };
            let pu_new: Multiset<Edge> = if iu < upto && cu <= cw {
                Multiset::empty().insert((cu, cw))
            } else {
                Multiset::<Edge>::empty()
            };
            let pw_new: Multiset<Edge> = if iw < upto && cw <= cu {
                Multiset::empty().insert((cw, cu))
            } else {
                Multiset::<Edge>::empty()
            };
            assert(prev == pu_old.add(pw_old));
            if v == e.0 {
                assert(iu == upto - 1);
                assert(contrib_list(e, v) == seq![e.1]);
                assert(inc == if cu <= cw {
                    Multiset::empty().insert((cu, cw))
                } else {
                    Multiset::<Edge>::empty()
                });
                assert(pu_old =~= Multiset::<Edge>::empty());
                assert(pw_new == pw_old);
                assert(pu_new == inc);
                assert(prev.add(inc) =~= pu_new.add(pw_new));
            } else if v == e.1 {
                assert(iw == upto - 1);
                assert(contrib_list(e, v) == seq![e.0]);
                assert(inc == if cw <= cu {
                    Multiset::empty().insert((cw, cu))
                } else {
                    Multiset::<Edge>::empty()
                });
                assert(pw_old =~= Multiset::<Edge>::empty());
                assert(pu_new == pu_old);
                assert(pw_new == inc);
                assert(prev.add(inc) =~= pu_new.add(pw_new));
            } else {
                assert(iu != upto - 1 && iw != upto - 1) by {
                    if iu == upto - 1 {
                        assert(vs[iu].raw_id == e.0);
                    }
                    if iw == upto - 1 {
                        assert(vs[iw].raw_id == e.1);
                    }
                }
                assert(contrib_list(e, v).len() == 0);
                assert(prev.add(inc) =~= prev);
                assert(pu_new == pu_old && pw_new == pw_old);
            }
        }
    }
}

/// The arena-wide emissions are exactly the relabeled input edges.
pub proof fn lemma_emissions_are_image(vs: Seq<Vertex>, ids: Seq<usize>, es: Seq<Edge>)
    requires
        forall|p: int, q: int|
            0 <= p < q < vs.len() ==> raw_id_at(vs, p) != raw_id_at(vs, q),
        forall|p: int, q: int| 0 <= p < q < ids.len() ==> ids[p] != ids[q],
        ids.len() == vs.len(),
        forall|i: int|
            0 <= i < vs.len() ==> (#[trigger] vs[i]).neighbors@.to_multiset() == neighbors_of(
                es,
                vs[i].raw_id,
            ),
        forall|v: usize|
            vset(es).contains(v) ==> exists|i: int| 0 <= i < vs.len() && raw_id_at(vs, i) == v,
    ensures
        all_emissions(vs, ids, vs.len() as int) == image_of(vs, ids, es),
{
    lemma_all_emissions_vertex_sum(vs, ids, es, vs.len() as int);
    lemma_vertex_sum_image(vs, ids, es);
}

proof fn lemma_all_emissions_vertex_sum(vs: Seq<Vertex>, ids: Seq<usize>, es: Seq<Edge>, upto: int)
    requires
        forall|p: int, q: int|
            0 <= p < q < vs.len() ==> raw_id_at(vs, p) != raw_id_at(vs, q),
        forall|i: int|
            0 <= i < vs.len() ==> (#[trigger] vs[i]).neighbors@.to_multiset() == neighbors_of(
                es,
                vs[i].raw_id,
            ),
        0 <= upto <= vs.len(),
    ensures
        all_emissions(vs, ids, upto) == vertex_sum(vs, ids, es, upto),
    decreases upto,
{
    if upto > 0 {
        lemma_all_emissions_vertex_sum(vs, ids, es, upto - 1);
        let k = upto - 1;
        let v = vs[k].raw_id;
        lemma_emissions_mfold(vs, ids, k, vs[k].neighbors@.len() as int);
        lemma_neighbor_list_multiset(es, v);
        lemma_mfold_perm(emit_one(vs, ids, v), vs[k].neighbors@, neighbor_list(es, v));
        assert(vs[k].neighbors@.take(vs[k].neighbors@.len() as int) =~= vs[k].neighbors@);
    }
}

/// Per-vertex emissions, restated as the fold over the listed neighbors.
proof fn lemma_emissions_mfold(vs: Seq<Vertex>, ids: Seq<usize>, k: int, upto: int)
    requires
        forall|p: int, q: int|
            0 <= p < q < vs.len() ==> raw_id_at(vs, p) != raw_id_at(vs, q),
        0 <= k < vs.len(),
        0 <= upto <= vs[k].neighbors@.len(),
    ensures
        emissions_of(vs, ids, k, upto) == mfold(
            emit_one(vs, ids, vs[k].raw_id),
            vs[k].neighbors@.take(upto),
        ),
    decreases upto,
{
    lemma_arena_index_unique(vs, vs[k].raw_id, k);
    if upto > 0 {
        lemma_emissions_mfold(vs, ids, k, upto - 1);
        assert(vs[k].neighbors@.take(upto).drop_last() =~= vs[k].neighbors@.take(upto - 1));
        assert(vs[k].neighbors@.take(upto).last() == vs[k].neighbors@[upto - 1]);
        let rest = emissions_of(vs, ids, k, upto - 1);
        let x = vs[k].neighbors@[upto - 1];
        let a = ids[k];
        let b = ids[arena_index_of(vs, x)];
        if a <= b {
            assert(rest.insert((a, b)) =~= rest.add(Multiset::empty().insert((a, b))));
        } else {
            assert(rest.add(Multiset::<Edge>::empty()) =~= rest);
        }
    }
}

proof fn lemma_vertex_sum_image(vs: Seq<Vertex>, ids: Seq<usize>, es: Seq<Edge>)
    requires
        forall|p: int, q: int|
            0 <= p < q < vs.len() ==> raw_id_at(vs, p) != raw_id_at(vs, q),
        forall|p: int, q: int| 0 <= p < q < ids.len() ==> ids[p] != ids[q],
        ids.len() == vs.len(),
        forall|v: usize|
            vset(es).contains(v) ==> exists|i: int| 0 <= i < vs.len() && raw_id_at(vs, i) == v,
    ensures
        vertex_sum(vs, ids, es, vs.len() as int) == image_of(vs, ids, es),
    decreases es.len(),
{
    if es.len() == 0 {
        lemma_vertex_sum_empty(vs, ids, es, vs.len() as int);
    } else {
        let e = es.last();
        let head = es.drop_last();
        assert(forall|v: usize|
            vset(head).contains(v) ==> vset(es).contains(v));
        lemma_vertex_sum_image(vs, ids, head);
        lemma_vertex_sum_split(vs, ids, es, vs.len() as int);
        assert(vset(es).contains(e.0) && vset(es).contains(e.1));
        let iu0 = choose|i: int| 0 <= i < vs.len() && raw_id_at(vs, i) == e.0;
        let iw0 = choose|i: int| 0 <= i < vs.len() && raw_id_at(vs, i) == e.1;
        lemma_arena_index_unique(vs, e.0, iu0);
        lemma_arena_index_unique(vs, e.1, iw0);
        lemma_last_sum_singleton(vs, ids, e, vs.len() as int);
        let iu = arena_index_of(vs, e.0);
        let iw = arena_index_of(vs, e.1);
        if e.0 == e.1 {
            assert(last_sum(vs, ids, e, vs.len() as int) == Multiset::empty().insert(
                relabeled(vs, ids, e),
            ));
        } else {
            assert(iu != iw);
            assert(ids[iu] != ids[iw]);
            assert(last_sum(vs, ids, e, vs.len() as int) == Multiset::empty().insert(
                relabeled(vs, ids, e),
            ));
        }
        assert(vertex_sum(vs, ids, head, vs.len() as int).add(
            Multiset::empty().insert(relabeled(vs, ids, e)),
        ) =~= image_of(vs, ids, head).insert(relabeled(vs, ids, e)));
    }
}

proof fn lemma_vertex_sum_empty(vs: Seq<Vertex>, ids: Seq<usize>, es: Seq<Edge>, upto: int)
    requires
        es.len() == 0,
    ensures
        vertex_sum(vs, ids, es, upto).len() == 0,
    decreases upto,
{
    if upto > 0 {
        lemma_vertex_sum_empty(vs, ids, es, upto - 1);
    }
}


/// Relabeling keeps the number of edge occurrences.
pub proof fn lemma_image_len(vs: Seq<Vertex>, ids: Seq<usize>, es: Seq<Edge>)
    ensures
        image_of(vs, ids, es).len() == es.len(),
    decreases es.len(),
{
    if es.len() > 0 {
        lemma_image_len(vs, ids, es.drop_last());
    }
}

} // verus!
