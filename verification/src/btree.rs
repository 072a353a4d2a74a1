//! Metadata trees: ordered maps that are rooted at a block.

use crate::ordmap;
use crate::ordmap::OrdMap;
use vstd::prelude::*;

verus! {

/// One metadata tree: the block it is rooted at, the type of its nodes, and
/// the records it holds.
#[derive(Debug)]
pub struct BTree<V> {
    /// The block that the tree is rooted at.
    pub root_block: u64,
    /// The type of the tree's nodes.
    pub node_type: u32,
    /// The records, by key.
    pub records: OrdMap<V>,
}

impl<V> BTree<V> {
    /// The records, in key order.
    pub open spec fn entries(&self) -> Seq<(u64, V)> {
        self.records.entries()
    }

    /// The keys are strictly increasing.
    pub open spec fn wf(&self) -> bool {
        self.records.wf()
    }

    /// The records, by key.
    pub open spec fn view(&self) -> Map<u64, V> {
        self.records@
    }

    /// An empty tree rooted at `root_block`.
    pub fn new(root_block: u64, node_type: u32) -> (r: Self)
        ensures
            r.wf(),
            r.entries() == Seq::<(u64, V)>::empty(),
            r@ == Map::<u64, V>::empty(),
            r.root_block == root_block,
            r.node_type == node_type,
    {
        BTree { root_block, node_type, records: OrdMap::new() }
    }

    /// A tree over `entries`, which are sorted already.
    pub(crate) fn from_sorted(root_block: u64, node_type: u32, entries: Vec<(u64, V)>) -> (r: Self)
        requires
            ordmap::keys_sorted(entries@),
        ensures
            r.wf(),
            r.entries() == entries@,
            r.root_block == root_block,
            r.node_type == node_type,
    {
        BTree { root_block, node_type, records: OrdMap { entries } }
    }

    /// How many records the tree holds.
    pub fn len(&self) -> (n: usize)
        ensures
            n == self.entries().len(),
    {
        self.records.len()
    }

    /// Stores `value` under `key`, in place of the record that was there.
    pub fn insert(&mut self, key: u64, value: V)
        requires
            old(self).wf(),
        ensures
            final(self).wf(),
            final(self)@ == old(self)@.insert(key, value),
            final(self).root_block == old(self).root_block,
            final(self).node_type == old(self).node_type,
    {
        self.records.insert(key, value);
    }

    /// Removes `key`; whether it was there.
    pub fn remove(&mut self, key: u64) -> (existed: bool)
        requires
            old(self).wf(),
        ensures
            final(self).wf(),
            existed == old(self)@.contains_key(key),
            final(self)@ == old(self)@.remove(key),
            final(self).root_block == old(self).root_block,
            final(self).node_type == old(self).node_type,
    {
        self.records.remove(key)
    }

    /// The entry at position `i`, in key order.
    pub fn entry(&self, i: usize) -> (r: &(u64, V))
        requires
            i < self.entries().len(),
        ensures
            *r == self.entries()[i as int],
    {
        self.records.entry(i)
    }
}

impl<V: Copy> BTree<V> {
    /// The record stored under `key`.
    pub fn lookup(&self, key: u64) -> (r: Option<V>)
        requires
            self.wf(),
        ensures
            r == (if self@.contains_key(key) {
                Some(self@[key])
            } else {
                None
            }),
    {
        self.records.lookup(key)
    }

    /// The entry with the greatest key that is not above `key`.
    pub fn lookup_floor(&self, key: u64) -> (r: Option<(u64, V)>)
        requires
            self.wf(),
        ensures
            match r {
                Some((k, v)) => {
                    &&& k <= key
                    &&& self@.contains_key(k)
                    &&& self@[k] == v
                    &&& forall|q: u64| #[trigger] self@.contains_key(q) && q <= key ==> q <= k
                },
                None => forall|q: u64| #[trigger] self@.contains_key(q) ==> key < q,
            },
    {
        self.records.lookup_floor(key)
    }

    /// Every record with its key, in key order.
    pub fn iter_all(&self) -> (r: Vec<(u64, V)>)
        ensures
            r@ == self.entries(),
    {
        self.records.iter_all()
    }
}

} // verus!
