use vstd::prelude::*;

verus! {

/// The transposition table: canonical key text mapped to the stored net
/// score, backed by ahash's hash map as the search has always used. The
/// map type itself stays opaque; these wrappers are what the engine
/// relies on.
#[verifier::external_body]
pub struct MemoTable {
    table: ahash::AHashMap<String, i64>,
}

/// What the transposition table holds.
pub uninterp spec fn table_entries(m: MemoTable) -> Map<Seq<char>, int>;

/// The empty table contents.
pub open spec fn memo_empty() -> Map<Seq<char>, int> {
    Map::empty()
}

impl View for MemoTable {
    type V = Map<Seq<char>, int>;

    closed spec fn view(&self) -> Map<Seq<char>, int> {
        table_entries(*self)
    }
}

impl MemoTable {
    /// Relies on ahash::AHashMap::new: the newly built map has no entries.
    #[verifier::external_body]
    pub fn new() -> (r: MemoTable)
        ensures
            r@ == memo_empty() && table_entries(r) == memo_empty(),
    {
        MemoTable { table: ahash::AHashMap::new() }
    }

    /// Relies on ahash::AHashMap::get (std's HashMap::get underneath):
    /// hands back the value stored under the key, if one is.
    #[verifier::external_body]
    pub fn get(&self, k: &String) -> (r: Option<i64>)
        ensures
            r matches Some(v) ==> self@.contains_key(k@) && self@[k@] == v as int,
            r is None ==> !self@.contains_key(k@),
    {
        self.table.get(k).copied()
    }

    /// Relies on ahash::AHashMap::insert: afterwards the key holds the
    /// value, every other entry untouched.
    #[verifier::external_body]
    pub fn insert(&mut self, k: String, v: i64)
        ensures
            final(self)@ == old(self)@.insert(k@, v as int),
    {
        self.table.insert(k, v);
    }

    /// Relies on ahash::AHashMap::iter (std's HashMap::iter underneath):
    /// it visits every entry exactly once, in no promised order, and a
    /// map's keys are pairwise distinct.
    #[verifier::external_body]
    pub fn pairs(&self) -> (r: Vec<(String, i64)>)
        ensures
            forall|i: int|
                0 <= i < r@.len() ==> self@.contains_key((#[trigger] r@[i]).0@) && self@[r@[i].0@]
                    == r@[i].1 as int,
            forall|i: int, j: int| 0 <= i < j < r@.len() ==> r@[i].0@ != r@[j].0@,
            forall|k: Seq<char>|
                self@.contains_key(k) ==> exists|i: int|
                    0 <= i < r@.len() && (#[trigger] r@[i]).0@ == k,
    {
        self.table.iter().map(|(k, v)| (k.clone(), *v)).collect()
    }
}

} // verus!
