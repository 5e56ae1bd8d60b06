use vstd::prelude::*;

use crate::heap::{dom_grew_by_at_most, values_preserved_except, GarbageCollectingHeap, HeapError, Tracer};
use crate::pointer::{lemma_head_in_chain_blocks, lemma_single_cell, Pointer};

verus! {

/// A tracer whose one persistent root lives inside the heap it traces: a
/// counter object holding its own last-persisted value in heap storage.
///
/// `count_ptr`, when present, is the only root.  Every other block this
/// tracer allocates during a [`CountdownTracer::iterate`] step is scratch
/// and is deliberately left unmarked, so that each step's intermediate
/// allocations become reclaimable garbage.
#[derive(Debug)]
pub struct CountdownTracer {
    pub counts: u64,
    pub count_ptr: Option<Pointer>,
}

impl CountdownTracer {
    /// The tracer agrees with the heap state `m`: its root handle
    /// addresses an allocated one-cell block whose cell stores the current
    /// counter value.
    pub open spec fn valid(self, m: Map<int, Seq<u64>>) -> bool {
        match self.count_ptr {
            Some(p) => {
                &&& p.offset == 0
                &&& p.block_len == 1
                &&& p.next is None
                &&& m.dom().contains(p.block_num as int)
                &&& m[p.block_num as int].len() == 1
                &&& m[p.block_num as int][0] == self.counts
            },
            None => false,
        }
    }

    /// Seed a countdown at `start`: allocate a one-cell block, persist
    /// `start` in it, read it back, copy the read value into a second
    /// fresh one-cell block, and root that second block.  The write and
    /// the copy go through independent blocks, so a conforming allocator
    /// must keep stores to one block invisible to the other.
    ///
    /// Whatever the outcome, the call rewrites no already-allocated block
    /// other than the one it roots (which a collecting allocator may hand
    /// out anew after reclaiming it), and allocates at most one scratch
    /// block besides that root.
    pub fn new<H: GarbageCollectingHeap>(start: u64, allocator: &mut H) -> (r: Result<
        CountdownTracer,
        HeapError,
    >)
        ensures
            match r {
                Ok(t) => {
                    &&& t.counts == start
                    &&& t.valid(final(allocator).mem())
                    &&& match t.count_ptr {
                        Some(p) => {
                            &&& values_preserved_except(
                                old(allocator).mem(),
                                final(allocator).mem(),
                                Set::<int>::empty().insert(p.block_num as int),
                            )
                            &&& exists|c: int|
                                dom_grew_by_at_most(
                                    old(allocator).mem(),
                                    final(allocator).mem(),
                                    Set::<int>::empty().insert(c).insert(p.block_num as int),
                                )
                        },
                        None => false,
                    }
                },
                Err(e) => {
                    &&& values_preserved_except(
                        old(allocator).mem(),
                        final(allocator).mem(),
                        Set::<int>::empty(),
                    )
                    &&& exists|c: int|
                        dom_grew_by_at_most(
                            old(allocator).mem(),
                            final(allocator).mem(),
                            Set::<int>::empty().insert(c),
                        )
                },
            },
    {
        let mut result = CountdownTracer { counts: start, count_ptr: None };
        let literal_ptr = match allocator.malloc(1, &result) {
            Ok(p) => p,
            Err(e) => {
                proof {
                    assert(dom_grew_by_at_most(
                        old(allocator).mem(),
                        allocator.mem(),
                        Set::<int>::empty().insert(0),
                    ));
                }
                return Err(e);
            },
        };
        proof {
            lemma_single_cell(literal_ptr);
            lemma_head_in_chain_blocks(literal_ptr);
        }
        let ghost lb = literal_ptr.block_num as int;
        allocator.store(&literal_ptr, start).unwrap();
        let stored = allocator.load(&literal_ptr).unwrap();
        let ghost m2 = allocator.mem();
        let count_ptr = match allocator.malloc(1, &result) {
            Ok(p) => p,
            Err(e) => {
                proof {
                    assert(values_preserved_except(
                        old(allocator).mem(),
                        allocator.mem(),
                        Set::<int>::empty(),
                    ));
                    assert(dom_grew_by_at_most(
                        old(allocator).mem(),
                        allocator.mem(),
                        Set::<int>::empty().insert(lb),
                    ));
                }
                return Err(e);
            },
        };
        proof {
            lemma_single_cell(count_ptr);
            lemma_head_in_chain_blocks(count_ptr);
        }
        allocator.store(&count_ptr, stored).unwrap();
        result.count_ptr = Some(count_ptr);
        proof {
            assert(values_preserved_except(
                old(allocator).mem(),
                allocator.mem(),
                Set::<int>::empty().insert(count_ptr.block_num as int),
            ));
            assert(dom_grew_by_at_most(
                old(allocator).mem(),
                allocator.mem(),
                Set::<int>::empty().insert(lb).insert(count_ptr.block_num as int),
            ));
        }
        Ok(result)
    }

    /// The terminal state of the countdown: the counter has reached zero.
    /// `iterate` drives Running (`counts > 0`) to Complete (`counts == 0`);
    /// there is no transition out of Complete.
    pub fn countdown_complete(&self) -> (r: bool)
        ensures
            r == (self.counts == 0),
    {
        self.counts == 0
    }

    /// One countdown step, every part of it routed through the heap.
    ///
    /// The step allocates scratch blocks (one holding zero, one holding
    /// the largest `u64`, one holding the literal decrement of one),
    /// re-validates that the rooted block still loads back the in-memory
    /// counter, decrements the counter by the loaded amount, persists the
    /// new value in a fresh block and re-roots to it.  The previous root
    /// block and every scratch block are left unmarked, so the next
    /// collection pass may reclaim them all.
    ///
    /// On an allocation failure the error is propagated and the tracer is
    /// exactly as before; the root block survives even the failed pass,
    /// because it was marked during it.
    #[verifier::rlimit(30)]
    pub fn iterate<H: GarbageCollectingHeap>(&mut self, allocator: &mut H) -> (r: Result<
        (),
        HeapError,
    >)
        requires
            old(self).valid(old(allocator).mem()),
            old(self).counts > 0,
        ensures
            match r {
                Ok(u) => {
                    &&& final(self).counts == old(self).counts - 1
                    &&& final(self).valid(final(allocator).mem())
                    &&& match (old(self).count_ptr, final(self).count_ptr) {
                        (Some(po), Some(pn)) => {
                            &&& pn.block_num != po.block_num
                            &&& exists|c1: int, c2: int, c3: int|
                                values_preserved_except(
                                    old(allocator).mem(),
                                    final(allocator).mem(),
                                    Set::<int>::empty().insert(c1).insert(c2).insert(c3).insert(
                                        pn.block_num as int,
                                    ),
                                ) && dom_grew_by_at_most(
                                    old(allocator).mem(),
                                    final(allocator).mem(),
                                    Set::<int>::empty().insert(c1).insert(c2).insert(c3).insert(
                                        pn.block_num as int,
                                    ),
                                )
                        },
                        _ => false,
                    }
                },
                Err(e) => {
                    &&& *final(self) == *old(self)
                    &&& final(self).valid(final(allocator).mem())
                    &&& exists|c1: int, c2: int, c3: int|
                        values_preserved_except(
                            old(allocator).mem(),
                            final(allocator).mem(),
                            Set::<int>::empty().insert(c1).insert(c2).insert(c3),
                        ) && dom_grew_by_at_most(
                            old(allocator).mem(),
                            final(allocator).mem(),
                            Set::<int>::empty().insert(c1).insert(c2).insert(c3),
                        )
                },
            },
    {
        let cp = match &self.count_ptr {
            Some(c) => c.clone(),
            None => unreached(),
        };
        let ghost cb = cp.block_num as int;
        let p = match allocator.malloc(1, &*self) {
            Ok(p) => p,
            Err(e) => {
                proof {
                    assert(values_preserved_except(
                        old(allocator).mem(),
                        allocator.mem(),
                        Set::<int>::empty().insert(0).insert(0).insert(0),
                    ));
                    assert(dom_grew_by_at_most(
                        old(allocator).mem(),
                        allocator.mem(),
                        Set::<int>::empty().insert(0).insert(0).insert(0),
                    ));
                }
                return Err(e);
            },
        };
        proof {
            lemma_single_cell(p);
            lemma_head_in_chain_blocks(p);
            assert(allocator.mem().dom().contains(cb));
            assert(self.valid(allocator.mem()));
            assert(allocator.mem()[cb] == old(allocator).mem()[cb]);
            assert(p.block_num as int != cb);
        }
        allocator.store(&p, 0).unwrap();
        proof {
            assert(self.valid(allocator.mem()));
        }
        let count = allocator.load(&cp).unwrap();
        assert(count == self.counts);
        let zero = allocator.load(&p).unwrap();
        assert(zero == 0);
        let ghost m2 = allocator.mem();
        let p2 = match allocator.malloc(1, &*self) {
            Ok(p2) => p2,
            Err(e) => {
                proof {
                    assert(values_preserved_except(
                        old(allocator).mem(),
                        allocator.mem(),
                        Set::<int>::empty().insert(p.block_num as int).insert(p.block_num as int).insert(p.block_num as int),
                    ));
                    assert(dom_grew_by_at_most(
                        old(allocator).mem(),
                        allocator.mem(),
                        Set::<int>::empty().insert(p.block_num as int).insert(p.block_num as int).insert(p.block_num as int),
                    ));
                    assert(allocator.mem().dom().contains(cb));
                    assert(allocator.mem()[cb] == m2[cb]);
                    assert(self.valid(allocator.mem()));
                }
                return Err(e);
            },
        };
        proof {
            lemma_single_cell(p2);
            lemma_head_in_chain_blocks(p2);
            assert(allocator.mem().dom().contains(cb));
            assert(self.valid(allocator.mem()));
            assert(allocator.mem()[cb] == m2[cb]);
            assert(p2.block_num as int != cb);
        }
        allocator.store(&p2, u64::MAX).unwrap();
        proof {
            assert(self.valid(allocator.mem()));
        }
        let ghost m3 = allocator.mem();
        let p3 = match allocator.malloc(1, &*self) {
            Ok(p3) => p3,
            Err(e) => {
                proof {
                    assert(values_preserved_except(
                        old(allocator).mem(),
                        allocator.mem(),
                        Set::<int>::empty().insert(p.block_num as int).insert(p2.block_num as int).insert(p2.block_num as int),
                    ));
                    assert(dom_grew_by_at_most(
                        old(allocator).mem(),
                        allocator.mem(),
                        Set::<int>::empty().insert(p.block_num as int).insert(p2.block_num as int).insert(p2.block_num as int),
                    ));
                    assert(allocator.mem().dom().contains(cb));
                    assert(allocator.mem()[cb] == m3[cb]);
                    assert(self.valid(allocator.mem()));
                }
                return Err(e);
            },
        };
        proof {
            lemma_single_cell(p3);
            lemma_head_in_chain_blocks(p3);
            assert(allocator.mem().dom().contains(cb));
            assert(self.valid(allocator.mem()));
            assert(allocator.mem()[cb] == m3[cb]);
            assert(p3.block_num as int != cb);
        }
        allocator.store(&p3, 1).unwrap();
        proof {
            assert(self.valid(allocator.mem()));
        }
        let count2 = allocator.load(&cp).unwrap();
        assert(count2 == self.counts);
        let decrement = allocator.load(&p3).unwrap();
        let new_counts = count2 - decrement;
        let ghost m4 = allocator.mem();
        let p4 = match allocator.malloc(1, &*self) {
            Ok(p4) => p4,
            Err(e) => {
                proof {
                    assert(values_preserved_except(
                        old(allocator).mem(),
                        allocator.mem(),
                        Set::<int>::empty().insert(p.block_num as int).insert(p2.block_num as int).insert(p3.block_num as int),
                    ));
                    assert(dom_grew_by_at_most(
                        old(allocator).mem(),
                        allocator.mem(),
                        Set::<int>::empty().insert(p.block_num as int).insert(p2.block_num as int).insert(p3.block_num as int),
                    ));
                    assert(allocator.mem().dom().contains(cb));
                    assert(allocator.mem()[cb] == m4[cb]);
                    assert(self.valid(allocator.mem()));
                }
                return Err(e);
            },
        };
        proof {
            lemma_single_cell(p4);
            lemma_head_in_chain_blocks(p4);
            assert(allocator.mem().dom().contains(cb));
            assert(self.valid(allocator.mem()));
            assert(allocator.mem()[cb] == m4[cb]);
            assert(p4.block_num as int != cb);
        }
        allocator.store(&p4, new_counts).unwrap();
        self.counts = new_counts;
        self.count_ptr = Some(p4);
        proof {
            assert(values_preserved_except(
                old(allocator).mem(),
                allocator.mem(),
                Set::<int>::empty().insert(p.block_num as int).insert(p2.block_num as int).insert(
                    p3.block_num as int,
                ).insert(p4.block_num as int),
            ));
            assert(dom_grew_by_at_most(
                old(allocator).mem(),
                allocator.mem(),
                Set::<int>::empty().insert(p.block_num as int).insert(p2.block_num as int).insert(
                    p3.block_num as int,
                ).insert(p4.block_num as int),
            ));
        }
        Ok(())
    }
}

impl Tracer for CountdownTracer {
    /// The root set: only the persistent root block, when one is set.
    open spec fn marks(&self) -> Set<int> {
        match self.count_ptr {
            Some(p) => Set::<int>::empty().insert(p.block_num as int),
            None => Set::<int>::empty(),
        }
    }

    fn trace(&self, blocks_used: &mut Vec<bool>) {
        match &self.count_ptr {
            Some(p) => {
                proof {
                    assert(self.marks().contains(p.block_num as int));
                }
                blocks_used.set(p.block_num, true);
            },
            None => {},
        }
    }
}

/// Mark precision: the countdown tracer marks exactly its current root
/// block.  Every scratch block of every past `iterate` step is absent from
/// its mark set, so a collection pass may reclaim them all.
pub proof fn lemma_countdown_marks_precise(t: CountdownTracer, b: int)
    ensures
        t.marks().contains(b) <==> match t.count_ptr {
            Some(p) => b == p.block_num as int,
            None => false,
        },
{
}

} // verus!
