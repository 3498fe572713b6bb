//! The page-table store: a persistent ordered map from byte-string keys to
//! (empty) byte-string values, kept in an `ic_stable_structures` B-tree map
//! over its own `VectorMemory`. Only key existence matters; the keys record
//! which physical page belongs to which owner.

use vstd::prelude::*;

use crate::model::{keys_view, lex_lt};

verus! {

/// The durable page table. The one handle to the underlying map lives here,
/// so the recorded key set is a function of this value.
#[verifier::external_body]
pub struct TableStore {
    map: ic_stable_structures::StableBTreeMap<
        Vec<u8>,
        Vec<u8>,
        ic_stable_structures::VectorMemory,
    >,
}

/// The set of keys the store currently holds.
pub uninterp spec fn table_contents(t: TableStore) -> Set<Seq<u8>>;

impl TableStore {
    /// Relies on `StableBTreeMap::new` over a fresh `VectorMemory`: a new
    /// map holds no entries.
    #[verifier::external_body]
    pub fn new() -> (t: TableStore)
        ensures
            table_contents(t) == Set::<Seq<u8>>::empty(),
    {
        TableStore {
            map: ic_stable_structures::StableBTreeMap::new(
                ic_stable_structures::VectorMemory::default(),
            ),
        }
    }

    /// Relies on `StableBTreeMap::insert`: afterwards the key is present
    /// (with an empty value) and every other key is untouched. `Vec<u8>` is
    /// an unbounded `Storable`, so the insertion cannot be rejected.
    #[verifier::external_body]
    pub(crate) fn insert(&mut self, key: &Vec<u8>)
        ensures
            table_contents(*final(self)) == table_contents(*old(self)).insert(key@),
    {
        self.map.insert(key.clone(), Vec::new());
    }

    /// Relies on `StableBTreeMap::keys`: exactly the keys of the map, in
    /// ascending `Ord` order, which for `Vec<u8>` is byte-lexicographic.
    #[verifier::external_body]
    pub(crate) fn keys(&self) -> (r: Vec<Vec<u8>>)
        ensures
            keys_view(r).to_set() == table_contents(*self),
            forall|i: int, j: int|
                #![trigger keys_view(r)[i], keys_view(r)[j]]
                0 <= i < j < keys_view(r).len() ==> lex_lt(keys_view(r)[i], keys_view(r)[j]),
    {
        self.map.keys().collect()
    }
}

} // verus!
