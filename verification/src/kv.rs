//! The contract that every block store obeys.
use crate::error::{fails_with, KvError};
use vstd::prelude::*;

verus! {

/// A store of byte blocks keyed by integers.
///
/// A store is described by the blocks it currently answers for, changes
/// that are not yet persisted included. Layers stack: each one owns the
/// store below it and implements the same contract.
pub trait IntKv {
    /// The state of the store is consistent. (Where an implementation does
    /// not say otherwise: always.)
    open spec fn inv(&self) -> bool {
        true
    }

    /// The blocks that the store holds. (Where an implementation does not
    /// say otherwise: none.)
    open spec fn blocks(&self) -> Map<usize, Seq<u8>> {
        Map::empty()
    }

    /// The storage under this store does not fail: what an operation returns
    /// is decided by the blocks alone, except that a write or a flush may
    /// still find no room. A store stays so until a write or a flush fails.
    open spec fn reliable(&self) -> bool {
        false
    }

    /// The store has room: while the storage under it does not fail, it
    /// takes every write and every flush. A store stays so. (Where an
    /// implementation does not say otherwise: never; it then says itself
    /// when a write or a flush finds no room.)
    open spec fn roomy(&self) -> bool {
        false
    }

    /// Nothing waits for a flush: what the store is to persist of its
    /// blocks is persisted. A flush that succeeds makes it so, and reading
    /// keeps it so. (Where an implementation does not say otherwise:
    /// always.)
    open spec fn persisted(&self) -> bool {
        true
    }

    /// Reads the block at `index`.
    fn read(&mut self, index: usize) -> (r: Result<Vec<u8>, KvError>)
        requires
            old(self).inv(),
        ensures
            final(self).inv(),
            final(self).blocks() == old(self).blocks(),
            old(self).reliable() ==> final(self).reliable(),
            old(self).persisted() ==> final(self).persisted(),
            old(self).roomy() ==> final(self).roomy(),
            r matches Ok(b) ==> old(self).blocks().contains_key(index) && b@ == old(
                self,
            ).blocks()[index],
            !old(self).blocks().contains_key(index) <==> fails_with(r, KvError::NotFound),
            old(self).reliable() && old(self).blocks().contains_key(index) ==> r is Ok,
    ;

    /// Sets the block at `index`, whether or not there was one. A write
    /// that fails leaves every other block as it was.
    fn write(&mut self, index: usize, data: Vec<u8>) -> (r: Result<(), KvError>)
        requires
            old(self).inv(),
        ensures
            final(self).inv(),
            old(self).reliable() && r is Ok ==> final(self).reliable(),
            r is Ok ==> final(self).blocks() == old(self).blocks().insert(index, data@),
            r is Err ==> final(self).blocks().remove(index) == old(self).blocks().remove(index),
            old(self).reliable() ==> r is Ok || fails_with(r, KvError::WriteZero),
            old(self).reliable() && old(self).roomy() ==> r is Ok,
            old(self).roomy() ==> final(self).roomy(),
    ;

    /// Deletes the block at `index`. A removal that fails leaves every
    /// other block as it was.
    fn remove(&mut self, index: usize) -> (r: Result<(), KvError>)
        requires
            old(self).inv(),
        ensures
            final(self).inv(),
            old(self).reliable() ==> final(self).reliable(),
            r is Ok ==> old(self).blocks().contains_key(index) && final(self).blocks() == old(
                self,
            ).blocks().remove(index),
            fails_with(r, KvError::NotFound) ==> !old(self).blocks().contains_key(index),
            !old(self).blocks().contains_key(index) ==> r is Err && final(self).blocks() == old(
                self,
            ).blocks(),
            old(self).reliable() && !old(self).blocks().contains_key(index) ==> fails_with(
                r,
                KvError::NotFound,
            ),
            r is Err ==> final(self).blocks().remove(index) == old(self).blocks().remove(index),
            old(self).reliable() && old(self).blocks().contains_key(index) ==> r is Ok,
            old(self).roomy() ==> final(self).roomy(),
    ;

    /// Whether there is a block at `index`. An absent block is no failure.
    fn has(&mut self, index: usize) -> (r: Result<bool, KvError>)
        requires
            old(self).inv(),
        ensures
            final(self).inv(),
            final(self).blocks() == old(self).blocks(),
            old(self).reliable() ==> final(self).reliable(),
            old(self).persisted() ==> final(self).persisted(),
            old(self).roomy() ==> final(self).roomy(),
            r matches Ok(b) ==> b == old(self).blocks().contains_key(index),
            !fails_with(r, KvError::NotFound),
            old(self).reliable() ==> r is Ok,
    ;

    /// Persists pending changes: after a flush that succeeds nothing waits
    /// for a flush. The blocks stay as they are, whether or not all of
    /// them could be persisted.
    fn flush(&mut self) -> (r: Result<(), KvError>)
        requires
            old(self).inv(),
        ensures
            final(self).inv(),
            old(self).reliable() && r is Ok ==> final(self).reliable(),
            final(self).blocks() == old(self).blocks(),
            r is Ok ==> final(self).persisted(),
            old(self).reliable() ==> r is Ok || fails_with(r, KvError::WriteZero),
            old(self).reliable() && old(self).roomy() ==> r is Ok,
            old(self).roomy() ==> final(self).roomy(),
    ;
}

/// What a store holds after a block is written.
pub open spec fn after_write(blocks: Map<usize, Seq<u8>>, index: usize, data: Seq<u8>) -> Map<
    usize,
    Seq<u8>,
> {
    blocks.insert(index, data)
}

/// What a store holds after a block is removed.
pub open spec fn after_remove(blocks: Map<usize, Seq<u8>>, index: usize) -> Map<usize, Seq<u8>> {
    blocks.remove(index)
}

/// A block that was written is there, and reads as the bytes written, until
/// it is written or removed again.
pub proof fn lemma_written_block_is_read(blocks: Map<usize, Seq<u8>>, index: usize, data: Seq<u8>)
    ensures
        after_write(blocks, index, data).contains_key(index),
        after_write(blocks, index, data)[index] == data,
        forall|other: usize|
            other != index ==> (after_write(blocks, index, data).contains_key(other)
                == blocks.contains_key(other)),
        forall|other: usize|
            other != index && blocks.contains_key(other) ==> after_write(blocks, index, data)[other]
                == blocks[other],
{
}

/// A block that was written and then removed is absent.
pub proof fn lemma_removed_block_is_absent(blocks: Map<usize, Seq<u8>>, index: usize, data: Seq<u8>)
    ensures
        !after_remove(after_write(blocks, index, data), index).contains_key(index),
        !blocks.contains_key(index) ==> after_remove(after_write(blocks, index, data), index)
            == blocks,
{
    assert(!blocks.contains_key(index) ==> after_remove(after_write(blocks, index, data), index)
        =~= blocks);
}

/// Writing the same block twice gives what writing it once gives.
pub proof fn lemma_write_is_idempotent(blocks: Map<usize, Seq<u8>>, index: usize, data: Seq<u8>)
    ensures
        after_write(after_write(blocks, index, data), index, data) == after_write(
            blocks,
            index,
            data,
        ),
{
    assert(after_write(after_write(blocks, index, data), index, data) =~= after_write(
        blocks,
        index,
        data,
    ));
}

/// Stores that differ at one place hold the same blocks elsewhere.
pub proof fn lemma_same_elsewhere(a: Map<usize, Seq<u8>>, b: Map<usize, Seq<u8>>, index: usize)
    requires
        b.remove(index) == a.remove(index),
    ensures
        forall|j: usize| j != index ==> (#[trigger] b.contains_key(j) == a.contains_key(j)),
        forall|j: usize| j != index && #[trigger] a.contains_key(j) ==> b[j] == a[j],
{
    assert forall|j: usize| j != index implies (#[trigger] b.contains_key(j) == a.contains_key(j)) by {
        assert(b.remove(index).contains_key(j) == b.contains_key(j));
        assert(a.remove(index).contains_key(j) == a.contains_key(j));
    }
    assert forall|j: usize| j != index && #[trigger] a.contains_key(j) implies b[j] == a[j] by {
        assert(b.remove(index)[j] == b[j]);
        assert(a.remove(index)[j] == a[j]);
    }
}

} // verus!
