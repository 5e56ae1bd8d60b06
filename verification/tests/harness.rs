use vstd::prelude::*;

use gc_tracers::countdown::CountdownTracer;
use gc_tracers::heap::{GarbageCollectingHeap, HeapError, Tracer};
use gc_tracers::pointer::Pointer;
use gc_tracers::tracer::TestTracer;

/// A small conforming allocator: a fixed pool of blocks, each holding up
/// to `max_block_cells` cells.  A request larger than one block is split
/// into a chain.  When no blocks are free, `malloc` runs a collection
/// pass: it asks the tracer to mark the live blocks and frees the rest.
struct TestHeap {
    blocks: Vec<Option<Vec<u64>>>,
    max_block_cells: usize,
}

impl TestHeap {
    fn new(num_blocks: usize, max_block_cells: usize) -> Self {
        TestHeap { blocks: vec![None; num_blocks], max_block_cells }
    }

    fn collect<T: Tracer>(&mut self, tracer: &T) {
        let mut bitmap = vec![false; self.blocks.len()];
        tracer.trace(&mut bitmap);
        for (i, used) in bitmap.iter().enumerate() {
            if !used {
                self.blocks[i] = None;
            }
        }
    }

    fn allocated_count(&self) -> usize {
        self.blocks.iter().filter(|b| b.is_some()).count()
    }

    fn try_alloc(&mut self, request: usize) -> Option<Pointer> {
        let mut sizes: Vec<usize> = Vec::new();
        let mut left = request;
        while left > 0 {
            let c = left.min(self.max_block_cells);
            sizes.push(c);
            left -= c;
        }
        let free: Vec<usize> =
            (0..self.blocks.len()).filter(|i| self.blocks[*i].is_none()).collect();
        if free.len() < sizes.len() {
            return None;
        }
        let mut next: Option<Box<Pointer>> = None;
        for k in (0..sizes.len()).rev() {
            let b = free[k];
            self.blocks[b] = Some(vec![0; sizes[k]]);
            next = Some(Box::new(Pointer {
                block_num: b,
                offset: 0,
                block_len: sizes[k],
                next,
            }));
        }
        Some(*next.unwrap())
    }
}

impl GarbageCollectingHeap for TestHeap {
    // ghost state: never materialized at run time
    fn mem(&self) -> Map<int, Seq<u64>> {
        panic!()
    }

    fn malloc<T: Tracer>(&mut self, request: usize, tracer: &T) -> Result<Pointer, HeapError> {
        if request == 0 {
            return Err(HeapError::InvalidAccess);
        }
        if let Some(p) = self.try_alloc(request) {
            return Ok(p);
        }
        self.collect(tracer);
        match self.try_alloc(request) {
            Some(p) => Ok(p),
            None => Err(HeapError::OutOfMemory),
        }
    }

    fn store(&mut self, p: &Pointer, value: u64) -> Result<(), HeapError> {
        match self.blocks.get_mut(p.block_num) {
            Some(Some(cells)) if p.offset < cells.len() => {
                cells[p.offset] = value;
                Ok(())
            }
            _ => Err(HeapError::InvalidAccess),
        }
    }

    fn load(&self, p: &Pointer) -> Result<u64, HeapError> {
        match self.blocks.get(p.block_num) {
            Some(Some(cells)) if p.offset < cells.len() => Ok(cells[p.offset]),
            _ => Err(HeapError::InvalidAccess),
        }
    }

    fn is_allocated(&self, block_num: usize) -> bool {
        block_num < self.blocks.len() && self.blocks[block_num].is_some()
    }
}

#[test]
fn default_tracer_is_empty() {
    let heap = TestHeap::new(4, 4);
    let t = TestTracer::default();
    assert_eq!(t.len(), 0);
    assert_eq!(t.total_allocated(), 0);
    assert!(t.matches(&heap));
}

#[test]
fn allocate_appends_and_counts_cells() {
    let mut heap = TestHeap::new(8, 4);
    let mut t = TestTracer::default();
    let p = t.allocate_next(3, &mut heap).unwrap();
    assert_eq!(p.len(), 3);
    assert_eq!(t.len(), 1);
    assert_eq!(t.total_allocated(), 3);
    let q = t.allocate_next(5, &mut heap).unwrap();
    assert_eq!(q.len(), 5);
    assert_eq!(t.len(), 2);
    assert_eq!(t.total_allocated(), 8);
    assert!(t.matches(&heap));
}

#[test]
fn allocate_propagates_out_of_memory() {
    let mut heap = TestHeap::new(1, 1);
    let mut t = TestTracer::default();
    t.allocate_next(1, &mut heap).unwrap();
    let r = t.allocate_next(1, &mut heap);
    assert_eq!(r.unwrap_err(), HeapError::OutOfMemory);
    assert_eq!(t.len(), 1);
    assert!(t.matches(&heap));
}

#[test]
fn deallocate_next_is_oldest_first() {
    let mut heap = TestHeap::new(8, 1);
    let mut t = TestTracer::default();
    let a = t.allocate_next(1, &mut heap).unwrap();
    let b = t.allocate_next(1, &mut heap).unwrap();
    let c = t.allocate_next(1, &mut heap).unwrap();
    assert_eq!(t.deallocate_next().unwrap().block_num(), a.block_num());
    assert_eq!(t.deallocate_next().unwrap().block_num(), b.block_num());
    assert_eq!(t.deallocate_next().unwrap().block_num(), c.block_num());
    assert!(t.deallocate_next().is_none());
}

#[test]
fn deallocate_next_even_is_no_op_below_two_roots() {
    let mut heap = TestHeap::new(8, 1);
    let mut t = TestTracer::default();
    assert!(t.deallocate_next_even().is_none());
    assert_eq!(t.len(), 0);
    let a = t.allocate_next(1, &mut heap).unwrap();
    assert!(t.deallocate_next_even().is_none());
    assert_eq!(t.len(), 1);
    assert_eq!(t.deallocate_next().unwrap().block_num(), a.block_num());
}

#[test]
fn deallocate_next_even_removes_second_oldest() {
    let mut heap = TestHeap::new(8, 1);
    let mut t = TestTracer::default();
    let a = t.allocate_next(1, &mut heap).unwrap();
    let b = t.allocate_next(1, &mut heap).unwrap();
    let c = t.allocate_next(1, &mut heap).unwrap();
    let d = t.allocate_next(1, &mut heap).unwrap();
    let removed = t.deallocate_next_even().unwrap();
    assert_eq!(removed.block_num(), b.block_num());
    assert_eq!(t.len(), 3);
    // the oldest root is still rooted, rotated to the back: c, d, a
    assert_eq!(t.deallocate_next().unwrap().block_num(), c.block_num());
    assert_eq!(t.deallocate_next().unwrap().block_num(), d.block_num());
    assert_eq!(t.deallocate_next().unwrap().block_num(), a.block_num());
}

#[test]
fn deallocate_any_that_keeps_order() {
    let mut heap = TestHeap::new(16, 4);
    let mut t = TestTracer::default();
    let a = t.allocate_next(1, &mut heap).unwrap();
    t.allocate_next(2, &mut heap).unwrap();
    let c = t.allocate_next(3, &mut heap).unwrap();
    t.allocate_next(4, &mut heap).unwrap();
    t.deallocate_any_that(|p| p.len() % 2 == 0);
    assert_eq!(t.len(), 2);
    assert_eq!(t.total_allocated(), 4);
    assert_eq!(t.deallocate_next().unwrap().block_num(), a.block_num());
    assert_eq!(t.deallocate_next().unwrap().block_num(), c.block_num());
}

#[test]
fn trace_marks_exactly_the_roots() {
    let mut heap = TestHeap::new(8, 1);
    let mut t = TestTracer::default();
    let a = t.allocate_next(1, &mut heap).unwrap();
    let b = t.allocate_next(1, &mut heap).unwrap();
    let mut bitmap = vec![false; 8];
    bitmap[7] = true;
    t.trace(&mut bitmap);
    for i in 0..8 {
        let expect = i == a.block_num() || i == b.block_num() || i == 7;
        assert_eq!(bitmap[i], expect);
    }
}

#[test]
fn matches_detects_premature_reclamation() {
    let mut heap = TestHeap::new(8, 1);
    let mut t = TestTracer::default();
    t.allocate_next(1, &mut heap).unwrap();
    t.allocate_next(1, &mut heap).unwrap();
    assert!(t.matches(&heap));
    // a collection pass driven by an empty root set frees everything
    heap.collect(&TestTracer::default());
    assert!(!t.matches(&heap));
}

#[test]
fn mark_soundness_across_operations() {
    let mut heap = TestHeap::new(4, 1);
    let mut t = TestTracer::default();
    for _ in 0..4 {
        t.allocate_next(1, &mut heap).unwrap();
        assert!(t.matches(&heap));
    }
    // forget the two oldest roots; their blocks are reclaimed by the
    // collection pass inside the next allocation, the live ones survive
    t.deallocate_next().unwrap();
    t.deallocate_next().unwrap();
    t.allocate_next(1, &mut heap).unwrap();
    assert!(t.matches(&heap));
    assert_eq!(t.len(), 3);
    t.allocate_next(1, &mut heap).unwrap();
    assert!(t.matches(&heap));
    assert_eq!(t.len(), 4);
    assert_eq!(t.allocate_next(1, &mut heap).unwrap_err(), HeapError::OutOfMemory);
    assert!(t.matches(&heap));
}

#[test]
fn round_trip_across_chained_roots() {
    let mut heap = TestHeap::new(8, 3);
    let mut t = TestTracer::default();
    let p = t.allocate_next(5, &mut heap).unwrap();
    let q = t.allocate_next(4, &mut heap).unwrap();
    assert_eq!(p.len(), 5);
    assert_eq!(q.len(), 4);
    assert!(t.test_in_bounds(&mut heap));
    // the strictly increasing run is really in the heap afterwards
    let mut cur = Some(p);
    let mut expected: u64 = 0;
    while let Some(h) = cur {
        assert_eq!(heap.load(&h).unwrap(), expected);
        expected += 1;
        cur = h.next();
    }
    assert_eq!(expected, 5);
}

#[test]
fn pointer_walks_its_chain() {
    let p = Pointer {
        block_num: 2,
        offset: 0,
        block_len: 2,
        next: Some(Box::new(Pointer { block_num: 5, offset: 0, block_len: 1, next: None })),
    };
    assert_eq!(p.len(), 3);
    assert_eq!(p.block_num(), 2);
    assert_eq!(p.offset(), 0);
    let s1 = p.next().unwrap();
    assert_eq!((s1.block_num(), s1.offset()), (2, 1));
    let s2 = s1.next().unwrap();
    assert_eq!((s2.block_num(), s2.offset()), (5, 0));
    assert!(s2.next().is_none());
}

#[test]
fn stale_and_out_of_bounds_accesses_fail() {
    let mut heap = TestHeap::new(2, 1);
    let mut t = TestTracer::default();
    let p = t.allocate_next(1, &mut heap).unwrap();
    let oob = Pointer { block_num: p.block_num(), offset: 3, block_len: 1, next: None };
    assert_eq!(heap.store(&oob, 9), Err(HeapError::InvalidAccess));
    assert_eq!(heap.load(&oob), Err(HeapError::InvalidAccess));
    heap.collect(&TestTracer::default());
    assert_eq!(heap.load(&p), Err(HeapError::InvalidAccess));
}

#[test]
fn countdown_seeds_and_reports_state() {
    let mut heap = TestHeap::new(16, 1);
    let t = CountdownTracer::new(3, &mut heap).unwrap();
    assert_eq!(t.counts, 3);
    assert!(!t.countdown_complete());
    let root = t.count_ptr.as_ref().unwrap();
    assert_eq!(heap.load(root).unwrap(), 3);
}

#[test]
fn countdown_new_propagates_allocation_failure() {
    let mut heap = TestHeap::new(0, 1);
    let r = CountdownTracer::new(3, &mut heap);
    assert_eq!(r.unwrap_err(), HeapError::OutOfMemory);
}

#[test]
fn countdown_runs_to_completion() {
    let mut heap = TestHeap::new(4, 1);
    let mut t = CountdownTracer::new(3, &mut heap).unwrap();
    for step in 0..3 {
        assert!(!t.countdown_complete());
        t.iterate(&mut heap).unwrap();
        assert_eq!(t.counts, 2 - step);
        // a collection pass after the step retains exactly the one root
        // block and reclaims the step's scratch blocks
        heap.collect(&t);
        assert_eq!(heap.allocated_count(), 1);
        let root = t.count_ptr.as_ref().unwrap();
        assert!(heap.is_allocated(root.block_num()));
        assert_eq!(heap.load(root).unwrap(), t.counts);
    }
    assert!(t.countdown_complete());
    assert_eq!(t.counts, 0);
}

#[test]
fn countdown_precision_only_root_is_marked() {
    let mut heap = TestHeap::new(4, 1);
    let mut t = CountdownTracer::new(2, &mut heap).unwrap();
    t.iterate(&mut heap).unwrap();
    let mut bitmap = vec![false; 4];
    t.trace(&mut bitmap);
    let root_block = t.count_ptr.as_ref().unwrap().block_num();
    for i in 0..4 {
        assert_eq!(bitmap[i], i == root_block);
    }
}

#[test]
fn countdown_failed_step_changes_nothing() {
    let mut heap = TestHeap::new(1, 1);
    let mut t = CountdownTracer::new(5, &mut heap).unwrap();
    let root_before = t.count_ptr.as_ref().unwrap().block_num();
    assert_eq!(t.iterate(&mut heap), Err(HeapError::OutOfMemory));
    assert_eq!(t.counts, 5);
    let root = t.count_ptr.as_ref().unwrap();
    assert_eq!(root.block_num(), root_before);
    assert_eq!(heap.load(root).unwrap(), 5);
}
