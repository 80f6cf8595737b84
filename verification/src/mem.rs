//! A block store in memory.
use crate::bytes::copy_bytes;
use crate::error::KvError;
use crate::kv::IntKv;
use std::collections::BTreeMap;
use vstd::prelude::*;

verus! {

/// A block store that keeps every block in memory. Nothing is persisted, and
/// no operation fails but for an absent block.
pub struct MemIntKv {
    pub map: BTreeMap<usize, Vec<u8>>,
}

impl MemIntKv {
    /// An empty store.
    pub fn new() -> (kv: Self)
        ensures
            kv.inv(),
            kv.reliable(),
            kv.blocks() == Map::<usize, Seq<u8>>::empty(),
    {
        let kv = MemIntKv { map: BTreeMap::new() };
        assert(kv.blocks() =~= Map::<usize, Seq<u8>>::empty());
        kv
    }

    /// The number of blocks.
    pub fn len(&self) -> (n: usize)
        ensures
            n == self.blocks().dom().len(),
    {
        assert(self.blocks().dom() =~= self.map@.dom());
        self.map.len()
    }
}

impl IntKv for MemIntKv {
    /// What holds of the layer between calls.
    open spec fn inv(&self) -> bool {
        true
    }

    /// The blocks that the layer holds.
    open spec fn blocks(&self) -> Map<usize, Seq<u8>> {
        Map::new(|i: usize| self.map@.contains_key(i), |i: usize| self.map@[i]@)
    }

    /// Whether no call fails for a reason of the store below.
    open spec fn reliable(&self) -> bool {
        true
    }

    /// The store has room for every block.
    open spec fn roomy(&self) -> bool {
        true
    }

    /// Nothing waits for a flush: the blocks are in memory and go no
    /// further.
    open spec fn persisted(&self) -> bool {
        true
    }

    /// A copy of the block at `index`.
    fn read(&mut self, index: usize) -> (r: Result<Vec<u8>, KvError>) {
        match self.map.get(&index) {
            Some(b) => Ok(copy_bytes(b.as_slice())),
            None => Err(KvError::NotFound),
        }
    }

    /// Puts `data` at `index`, in place of what was there.
    fn write(&mut self, index: usize, data: Vec<u8>) -> (r: Result<(), KvError>)
        ensures
            r is Ok,
    {
        self.map.insert(index, data);
        assert(self.blocks() =~= old(self).blocks().insert(index, data@));
        Ok(())
    }

    /// Removes the block at `index`, which must be there.
    fn remove(&mut self, index: usize) -> (r: Result<(), KvError>) {
        match self.map.remove(&index) {
            Some(_) => {
                assert(self.blocks() =~= old(self).blocks().remove(index));
                Ok(())
            },
            None => {
                assert(self.blocks() =~= old(self).blocks());
                Err(KvError::NotFound)
            },
        }
    }

    /// Whether there is a block at `index`.
    fn has(&mut self, index: usize) -> (r: Result<bool, KvError>) {
        Ok(self.map.contains_key(&index))
    }

    /// Nothing is to be done: the blocks are in memory.
    fn flush(&mut self) -> (r: Result<(), KvError>)
        ensures
            r is Ok,
    {
        Ok(())
    }
}

} // verus!
