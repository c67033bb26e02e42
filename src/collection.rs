use vstd::prelude::*;

use crate::dhash::DHash;

verus! {

/// What the collection holds, entry by entry: an item id and its fingerprints.
pub type CollectionView = Seq<(Seq<char>, Seq<DHash>)>;

/// No two entries share an id.
pub open spec fn unique_ids(items: CollectionView) -> bool {
    forall|i: int, j: int|
        0 <= i < items.len() && 0 <= j < items.len() && i != j ==> #[trigger] items[i].0
            != #[trigger] items[j].0
}

/// One entry of a collection.
struct Item {
    id: String,
    hashes: Vec<DHash>,
}

/// A mapping from item id to the item's fingerprints, kept in insertion order.
pub struct Collection {
    items: Vec<Item>,
}

impl View for Collection {
    type V = CollectionView;

    closed spec fn view(&self) -> CollectionView {
        self.items@.map_values(|it: Item| (it.id@, it.hashes@))
    }
}

impl Collection {
    pub open spec fn wf(&self) -> bool {
        unique_ids(self@)
    }

    pub fn new() -> (c: Collection)
        ensures
            c@ == Seq::<(Seq<char>, Seq<DHash>)>::empty(),
            c.wf(),
    {
        let c = Collection { items: Vec::new() };
        assert(c@ =~= Seq::<(Seq<char>, Seq<DHash>)>::empty());
        c
    }

    pub fn len(&self) -> (n: usize)
        ensures
            n == self@.len(),
    {
        self.items.len()
    }

    pub fn id(&self, i: usize) -> (id: &String)
        requires
            i < self@.len(),
        ensures
            id@ == self@[i as int].0,
    {
        &self.items[i].id
    }

    pub fn hashes(&self, i: usize) -> (hashes: &Vec<DHash>)
        requires
            i < self@.len(),
        ensures
            hashes@ == self@[i as int].1,
    {
        &self.items[i].hashes
    }

    /// The position of the first entry with the given id, if there is one.
    pub fn position(&self, id: &String) -> (r: Option<usize>)
        ensures
            r matches Some(i) ==> i < self@.len() && self@[i as int].0 == id@ && forall|k: int|
                0 <= k < i ==> self@[k].0 != id@,
            r is None ==> forall|i: int| 0 <= i < self@.len() ==> self@[i].0 != id@,
    {
        let mut i: usize = 0;
        while i < self.items.len()
            invariant
                i <= self@.len(),
                forall|k: int| 0 <= k < i ==> self@[k].0 != id@,
            decreases self@.len() - i,
        {
            if self.items[i].id == *id {
                return Some(i);
            }
            i = i + 1;
        }
        None
    }

    /// The fingerprints stored under the given id, if any.
    pub fn get(&self, id: &String) -> (r: Option<&Vec<DHash>>)
        ensures
            r matches Some(h) ==> exists|i: int|
                0 <= i < self@.len() && self@[i].0 == id@ && self@[i].1 == h@ && forall|k: int|
                    0 <= k < i ==> self@[k].0 != id@,
            r is None ==> forall|i: int| 0 <= i < self@.len() ==> self@[i].0 != id@,
    {
        match self.position(id) {
            Some(i) => Some(&self.items[i].hashes),
            None => None,
        }
    }

    /// Stores `hashes` under `id`, replacing what an entry with that id held.
    pub fn insert(&mut self, id: String, hashes: Vec<DHash>)
        requires
            old(self).wf(),
        ensures
            final(self).wf(),
            (exists|i: int| 0 <= i < old(self)@.len() && old(self)@[i].0 == id@) ==> exists|i: int|
                0 <= i < old(self)@.len() && old(self)@[i].0 == id@ && final(self)@ == old(
                    self,
                )@.update(i, (id@, hashes@)),
            (forall|i: int| 0 <= i < old(self)@.len() ==> old(self)@[i].0 != id@) ==> final(self)@
                == old(self)@.push((id@, hashes@)),
    {
        match self.position(&id) {
            Some(i) => {
                let ghost before = self@;
                self.items.set(i, Item { id, hashes });
                assert(self@ =~= before.update(i as int, (before[i as int].0, hashes@)));
            },
            None => {
                let ghost before = self@;
                let ghost entry = (id@, hashes@);
                self.items.push(Item { id, hashes });
                assert(self@ =~= before.push(entry));
            },
        }
    }
}

} // verus!
