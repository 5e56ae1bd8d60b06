use vstd::prelude::*;

use crate::pointer::Pointer;

verus! {

/// The errors the heap allocator can surface.  Tracer operations propagate
/// them unchanged.
#[derive(Clone, Copy, Debug, PartialEq, Eq, Structural)]
pub enum HeapError {
    /// No block, or run of blocks, of the requested size is available,
    /// possibly after a collection attempt.
    OutOfMemory,
    /// A store or load addressed a cell outside a block, or a block that is
    /// no longer allocated.
    InvalidAccess,
}

/// A cell the heap can read or write: the addressed block is allocated and
/// the addressed offset lies inside it.
pub open spec fn cell_valid(m: Map<int, Seq<u64>>, p: Pointer) -> bool {
    m.dom().contains(p.block_num as int) && p.offset < m[p.block_num as int].len()
}

/// The value a heap state holds at a (block number, offset) cell.
pub open spec fn cell_at(m: Map<int, Seq<u64>>, c: (int, int)) -> u64 {
    m[c.0][c.1]
}

/// During a collection pass, every allocated block the tracer marked
/// survives, and every surviving block keeps its stored values.
pub open spec fn marked_preserved(
    m0: Map<int, Seq<u64>>,
    m1: Map<int, Seq<u64>>,
    marks: Set<int>,
) -> bool {
    &&& forall|b: int|
        m0.dom().contains(b) && marks.contains(b) ==> #[trigger] m1.dom().contains(b)
    &&& forall|b: int| m0.dom().contains(b) && #[trigger] m1.dom().contains(b) ==> m1[b] == m0[b]
}

/// Every block allocated in both heap states, other than the excluded
/// ones, holds the same values in both: the step from `m0` to `m1`
/// rewrote at most the excluded blocks.
pub open spec fn values_preserved_except(
    m0: Map<int, Seq<u64>>,
    m1: Map<int, Seq<u64>>,
    except: Set<int>,
) -> bool {
    forall|b: int|
        m0.dom().contains(b) && #[trigger] m1.dom().contains(b) && !except.contains(b) ==> m1[b]
            == m0[b]
}

/// Every block allocated in `m1` was already allocated in `m0` or is one
/// of the extra blocks: the step from `m0` to `m1` allocated at most the
/// extra blocks.
pub open spec fn dom_grew_by_at_most(
    m0: Map<int, Seq<u64>>,
    m1: Map<int, Seq<u64>>,
    extra: Set<int>,
) -> bool {
    forall|b: int|
        #[trigger] m1.dom().contains(b) ==> m0.dom().contains(b) || extra.contains(b)
}

/// The capability every object that can hold heap pointers must implement:
/// given the liveness bitmap of a collection pass, mark every block this
/// object still considers reachable.
pub trait Tracer {
    /// The blocks this tracer marks as reachable: its root set.
    spec fn marks(&self) -> Set<int>;

    /// Set `blocks_used[b]` for every root block `b`; leave every other
    /// entry as it was.  A pure read of the tracer: collection may run in
    /// the middle of an allocation, so tracing must neither allocate nor
    /// mutate the tracer's own state.
    fn trace(&self, blocks_used: &mut Vec<bool>)
        requires
            forall|b: int| #[trigger] self.marks().contains(b) ==> 0 <= b < old(blocks_used)@.len(),
        ensures
            final(blocks_used)@.len() == old(blocks_used)@.len(),
            forall|i: int|
                0 <= i < final(blocks_used)@.len() ==> final(blocks_used)@[i] == (old(
                    blocks_used,
                )@[i] || self.marks().contains(i)),
    ;
}

/// The external heap allocator this crate's tracers drive.  No type of this
/// crate implements it: a conforming allocator is supplied by the caller,
/// and everything proved here holds for any implementation that meets these
/// contracts.
///
/// The abstract state is a map from the number of each allocated block to
/// the values of that block's cells.
pub trait GarbageCollectingHeap {
    /// The allocated blocks and their stored cell values.
    spec fn mem(&self) -> Map<int, Seq<u64>>;

    /// Allocate `request` cells, as a chain of one or more fresh blocks.
    /// May first run a collection pass: blocks the given tracer marks
    /// survive it, anything else may be reclaimed.  Whether a request can
    /// be satisfied is the allocator's own affair, so no outcome promises
    /// success; every outcome leaves the marked blocks allocated and every
    /// surviving block unchanged.
    fn malloc<T: Tracer>(&mut self, request: usize, tracer: &T) -> (r: Result<Pointer, HeapError>)
        ensures
            marked_preserved(old(self).mem(), final(self).mem(), tracer.marks()),
            match r {
                Ok(p) => {
                    &&& p.chain_wf()
                    &&& p.chain_distinct()
                    &&& p.offset == 0
                    &&& p.total_len() == request as nat
                    &&& p.chain_valid(final(self).mem())
                    &&& p.chain_fresh(old(self).mem().dom())
                    &&& forall|b: int|
                        #[trigger] final(self).mem().dom().contains(b) ==> old(
                            self,
                        ).mem().dom().contains(b) || p.chain_blocks().contains(b)
                },
                Err(e) => forall|b: int|
                    #[trigger] final(self).mem().dom().contains(b) ==> old(
                        self,
                    ).mem().dom().contains(b),
            },
    ;

    /// Write one cell: the one the handle addresses.  Succeeds exactly when
    /// the cell is valid; on failure the heap is unchanged.
    fn store(&mut self, p: &Pointer, value: u64) -> (r: Result<(), HeapError>)
        ensures
            if cell_valid(old(self).mem(), *p) {
                &&& r == Ok::<(), HeapError>(())
                &&& final(self).mem() == old(self).mem().insert(
                    p.block_num as int,
                    old(self).mem()[p.block_num as int].update(p.offset as int, value),
                )
            } else {
                &&& r == Err::<(), HeapError>(HeapError::InvalidAccess)
                &&& final(self).mem() == old(self).mem()
            },
    ;

    /// Read one cell: the one the handle addresses.  Succeeds exactly when
    /// the cell is valid.
    fn load(&self, p: &Pointer) -> (r: Result<u64, HeapError>)
        ensures
            r == if cell_valid(self.mem(), *p) {
                Ok::<u64, HeapError>(self.mem()[p.block_num as int][p.offset as int])
            } else {
                Err::<u64, HeapError>(HeapError::InvalidAccess)
            },
    ;

    /// Liveness query: is this block currently allocated?  Used by harness
    /// assertions, never by mark/sweep logic itself.
    fn is_allocated(&self, block_num: usize) -> (r: bool)
        ensures
            r == self.mem().dom().contains(block_num as int),
    ;
}

} // verus!
