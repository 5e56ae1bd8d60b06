use std::collections::VecDeque;

use vstd::prelude::*;

use crate::heap::{cell_at, cell_valid, marked_preserved, GarbageCollectingHeap, HeapError, Tracer};
use crate::pointer::{lemma_cells_blocks, lemma_cells_valid, lemma_chain_valid_stable, Pointer};

verus! {

/// A general root-set tracer: an ordered sequence of currently rooted
/// `Pointer`s, oldest first (insertion order is allocation order).
#[derive(Debug)]
pub struct TestTracer {
    pub allocations: VecDeque<Pointer>,
}

impl TestTracer {
    /// The rooted handles, oldest first.
    pub open spec fn roots(self) -> Seq<Pointer> {
        self.allocations@
    }

    /// Every root's block is allocated in the heap state `m`: no live root
    /// was reclaimed.
    pub open spec fn roots_allocated(self, m: Map<int, Seq<u64>>) -> bool {
        forall|i: int|
            0 <= i < self.roots().len() ==> m.dom().contains(
                (#[trigger] self.roots()[i]).block_num as int,
            )
    }
}

impl Default for TestTracer {
    /// A tracer with no roots.
    fn default() -> (r: Self)
        ensures
            r.roots() == Seq::<Pointer>::empty(),
    {
        TestTracer { allocations: VecDeque::new() }
    }
}

impl Tracer for TestTracer {
    /// The root set: the block of every rooted handle.
    open spec fn marks(&self) -> Set<int> {
        Set::new(
            |b: int|
                exists|i: int|
                    0 <= i < self.roots().len() && (#[trigger] self.roots()[i]).block_num == b,
        )
    }

    fn trace(&self, blocks_used: &mut Vec<bool>) {
        let n = self.allocations.len();
        let mut k: usize = 0;
        while k < n
            invariant
                k <= n,
                n == self.roots().len(),
                forall|b: int| #[trigger]
                    self.marks().contains(b) ==> 0 <= b < blocks_used@.len(),
                blocks_used@.len() == old(blocks_used)@.len(),
                forall|i: int|
                    0 <= i < blocks_used@.len() ==> blocks_used@[i] == (old(blocks_used)@[i]
                        || exists|j: int|
                        0 <= j < k && (#[trigger] self.roots()[j]).block_num == i),
            decreases n - k,
        {
            let b = self.allocations[k].block_num;
            proof {
                assert(self.marks().contains(b as int));
            }
            blocks_used.set(b, true);
            k = k + 1;
        }
        proof {
            assert forall|i: int| 0 <= i < blocks_used@.len() implies blocks_used@[i] == (old(
                blocks_used,
            )@[i] || self.marks().contains(i)) by {
                if self.marks().contains(i) {
                    let j = choose|j: int|
                        0 <= j < self.roots().len() && (#[trigger] self.roots()[j]).block_num == i;
                    assert(0 <= j < k && self.roots()[j].block_num == i);
                }
            }
        }
    }
}

impl TestTracer {
    /// Ask the allocator for `request` cells and, on success, append the
    /// returned handle at the end of the rooted sequence.  On failure the
    /// allocator's own error is propagated and the root set is exactly as
    /// before.  Either way the collection pass that the allocation may have
    /// triggered preserves every block this tracer had marked, so a root
    /// set whose blocks were all allocated stays that way.
    pub fn allocate_next<H: GarbageCollectingHeap>(
        &mut self,
        request: usize,
        allocator: &mut H,
    ) -> (r: Result<Pointer, HeapError>)
        ensures
            marked_preserved(old(allocator).mem(), final(allocator).mem(), old(self).marks()),
            match r {
                Ok(p) => {
                    &&& final(self).roots() == old(self).roots().push(p)
                    &&& p.chain_wf()
                    &&& p.chain_distinct()
                    &&& p.offset == 0
                    &&& p.total_len() == request as nat
                    &&& p.chain_valid(final(allocator).mem())
                    &&& p.chain_fresh(old(allocator).mem().dom())
                },
                Err(e) => {
                    &&& final(self).roots() == old(self).roots()
                    &&& forall|b: int|
                        #[trigger] final(allocator).mem().dom().contains(b) ==> old(
                            allocator,
                        ).mem().dom().contains(b)
                },
            },
            old(self).roots_allocated(old(allocator).mem()) ==> final(self).roots_allocated(
                final(allocator).mem(),
            ),
    {
        let r = allocator.malloc(request, &*self);
        match r {
            Ok(p) => {
                self.allocations.push_back(p.clone());
                proof {
                    assert forall|i: int|
                        0 <= i < old(self).roots().len() implies self.marks().contains(
                        (#[trigger] old(self).roots()[i]).block_num as int,
                    ) by {
                        assert(old(self).roots()[i] == self.roots()[i]);
                    }
                    if old(self).roots_allocated(old(allocator).mem()) {
                        assert forall|i: int|
                            0 <= i < self.roots().len() implies allocator.mem().dom().contains(
                            (#[trigger] self.roots()[i]).block_num as int,
                        ) by {
                            if i < old(self).roots().len() {
                                let b = self.roots()[i].block_num as int;
                                assert(old(self).marks().contains(b));
                            } else {
                                assert(self.roots()[i] == p);
                                assert(p.chain_blocks()[0] == p.block_num as int);
                                assert(p.chain_blocks().contains(p.block_num as int));
                            }
                        }
                    }
                }
                Ok(p)
            },
            Err(e) => {
                proof {
                    if old(self).roots_allocated(old(allocator).mem()) {
                        assert forall|i: int|
                            0 <= i < self.roots().len() implies allocator.mem().dom().contains(
                            (#[trigger] self.roots()[i]).block_num as int,
                        ) by {
                            let b = self.roots()[i].block_num as int;
                            assert(old(self).marks().contains(b));
                        }
                    }
                }
                Err(e)
            },
        }
    }

    /// Remove and return the oldest root, if any: forget the oldest live
    /// reference first.  The heap is not touched, so removing roots never
    /// un-allocates anything.
    pub fn deallocate_next(&mut self) -> (r: Option<Pointer>)
        ensures
            match r {
                Some(p) => {
                    &&& old(self).roots().len() > 0
                    &&& p == old(self).roots()[0]
                    &&& final(self).roots() == old(self).roots().subrange(
                        1,
                        old(self).roots().len() as int,
                    )
                },
                None => {
                    &&& old(self).roots().len() == 0
                    &&& final(self).roots() == old(self).roots()
                },
            },
            forall|m: Map<int, Seq<u64>>|
                old(self).roots_allocated(m) ==> #[trigger] final(self).roots_allocated(m),
    {
        let r = self.allocations.pop_front();
        proof {
            assert forall|m: Map<int, Seq<u64>>|
                old(self).roots_allocated(m) implies #[trigger] self.roots_allocated(m) by {
                assert forall|i: int|
                    0 <= i < self.roots().len() implies m.dom().contains(
                    (#[trigger] self.roots()[i]).block_num as int,
                ) by {
                    if old(self).roots().len() > 0 {
                        assert(self.roots()[i] == old(self).roots()[i + 1]);
                    }
                }
            }
        }
        r
    }

    /// Remove and return the second-oldest root, keeping the oldest rooted:
    /// the oldest is popped, the second-oldest is removed for good, and the
    /// oldest is pushed back at the tail (a rotate-pop-push).  With fewer
    /// than two roots this is a no-op.
    pub fn deallocate_next_even(&mut self) -> (r: Option<Pointer>)
        ensures
            match r {
                Some(p) => {
                    &&& old(self).roots().len() >= 2
                    &&& p == old(self).roots()[1]
                    &&& final(self).roots() == old(self).roots().subrange(
                        2,
                        old(self).roots().len() as int,
                    ).push(old(self).roots()[0])
                },
                None => {
                    &&& old(self).roots().len() < 2
                    &&& final(self).roots() == old(self).roots()
                },
            },
            forall|m: Map<int, Seq<u64>>|
                old(self).roots_allocated(m) ==> #[trigger] final(self).roots_allocated(m),
    {
        if self.allocations.len() >= 2 {
            let popped = self.allocations.pop_front().unwrap();
            let result = self.allocations.pop_front();
            self.allocations.push_back(popped);
            proof {
                assert(final(self).roots() =~= old(self).roots().subrange(
                    2,
                    old(self).roots().len() as int,
                ).push(old(self).roots()[0]));
                assert forall|m: Map<int, Seq<u64>>|
                    old(self).roots_allocated(m) implies #[trigger] self.roots_allocated(m) by {
                    assert forall|i: int|
                        0 <= i < self.roots().len() implies m.dom().contains(
                        (#[trigger] self.roots()[i]).block_num as int,
                    ) by {
                        if i < self.roots().len() - 1 {
                            assert(self.roots()[i] == old(self).roots()[i + 2]);
                        } else {
                            assert(self.roots()[i] == old(self).roots()[0]);
                        }
                    }
                }
            }
            result
        } else {
            None
        }
    }

    /// The number of currently rooted handles.
    pub fn len(&self) -> (r: usize)
        ensures
            r == self.roots().len(),
    {
        self.allocations.len()
    }

    /// True exactly when every rooted handle's block is still reported
    /// allocated by the heap: the harness's detector for premature
    /// reclamation.
    pub fn matches<H: GarbageCollectingHeap>(&self, allocator: &H) -> (r: bool)
        ensures
            r == self.roots_allocated(allocator.mem()),
    {
        let n = self.allocations.len();
        let mut i: usize = 0;
        while i < n
            invariant
                i <= n,
                n == self.roots().len(),
                forall|j: int|
                    0 <= j < i ==> allocator.mem().dom().contains(
                        (#[trigger] self.roots()[j]).block_num as int,
                    ),
            decreases n - i,
        {
            if !allocator.is_allocated(self.allocations[i].block_num) {
                return false;
            }
            i = i + 1;
        }
        true
    }
}

/// Mark soundness, at the root set: every rooted block is in the
/// tracer's mark set, so a collection pass driven by this tracer must
/// leave every root's block allocated — a live root is never misreported
/// as dead.
pub proof fn lemma_roots_marked(t: TestTracer, i: int)
    requires
        0 <= i < t.roots().len(),
    ensures
        t.marks().contains(t.roots()[i].block_num as int),
{
}

/// The roots kept by a removal pass: those whose entry of `keep` is true,
/// in their original order.
pub open spec fn kept_roots(s: Seq<Pointer>, keep: Seq<bool>) -> Seq<Pointer>
    decreases s.len(),
{
    if s.len() == 0 {
        Seq::<Pointer>::empty()
    } else {
        (if keep[0] {
            seq![s[0]]
        } else {
            Seq::<Pointer>::empty()
        }) + kept_roots(s.drop_first(), keep.drop_first())
    }
}

proof fn lemma_kept_roots_snoc(s: Seq<Pointer>, keep: Seq<bool>, x: Pointer, b: bool)
    requires
        s.len() == keep.len(),
    ensures
        kept_roots(s.push(x), keep.push(b)) == kept_roots(s, keep) + (if b {
            seq![x]
        } else {
            Seq::<Pointer>::empty()
        }),
    decreases s.len(),
{
    if s.len() == 0 {
        assert(s.push(x).drop_first() =~= Seq::<Pointer>::empty());
        assert(keep.push(b).drop_first() =~= Seq::<bool>::empty());
        assert(s.push(x)[0] == x);
        assert(keep.push(b)[0] == b);
        assert(kept_roots(s.push(x), keep.push(b)) == (if b {
            seq![x]
        } else {
            Seq::<Pointer>::empty()
        }) + kept_roots(s.push(x).drop_first(), keep.push(b).drop_first()));
        assert(kept_roots(s.push(x).drop_first(), keep.push(b).drop_first())
            == Seq::<Pointer>::empty());
        assert(kept_roots(s, keep) == Seq::<Pointer>::empty());
        assert(kept_roots(s.push(x), keep.push(b)) =~= kept_roots(s, keep) + (if b {
            seq![x]
        } else {
            Seq::<Pointer>::empty()
        }));
    } else {
        lemma_kept_roots_snoc(s.drop_first(), keep.drop_first(), x, b);
        assert(s.push(x).drop_first() =~= s.drop_first().push(x));
        assert(keep.push(b).drop_first() =~= keep.drop_first().push(b));
        assert(s.push(x)[0] == s[0]);
        assert(keep.push(b)[0] == keep[0]);
        assert(kept_roots(s.push(x), keep.push(b)) == (if keep[0] {
            seq![s[0]]
        } else {
            Seq::<Pointer>::empty()
        }) + kept_roots(s.drop_first().push(x), keep.drop_first().push(b)));
        assert(kept_roots(s.drop_first().push(x), keep.drop_first().push(b)) == kept_roots(
            s.drop_first(),
            keep.drop_first(),
        ) + (if b {
            seq![x]
        } else {
            Seq::<Pointer>::empty()
        }));
        assert(kept_roots(s.push(x), keep.push(b)) =~= kept_roots(s, keep) + (if b {
            seq![x]
        } else {
            Seq::<Pointer>::empty()
        }));
    }
}

/// Every root a removal pass keeps was a root before the pass.
pub proof fn lemma_kept_roots_elems(s: Seq<Pointer>, keep: Seq<bool>)
    ensures
        forall|j: int|
            0 <= j < kept_roots(s, keep).len() ==> s.contains(#[trigger] kept_roots(s, keep)[j]),
    decreases s.len(),
{
    if s.len() != 0 {
        lemma_kept_roots_elems(s.drop_first(), keep.drop_first());
        assert forall|j: int|
            0 <= j < kept_roots(s, keep).len() implies s.contains(
            #[trigger] kept_roots(s, keep)[j],
        ) by {
            let headl: int = if keep[0] {
                1
            } else {
                0
            };
            if j < headl {
                assert(kept_roots(s, keep)[j] == s[0]);
            } else {
                let x = kept_roots(s.drop_first(), keep.drop_first())[j - headl];
                assert(kept_roots(s, keep)[j] == x);
                assert(s.drop_first().contains(x));
                let k = choose|k: int|
                    0 <= k < s.drop_first().len() && s.drop_first()[k] == x;
                assert(s[k + 1] == x);
            }
        }
    }
}

/// What a removal pass did: `keep` records, root by root in the original
/// order, whether the root stayed, consistently with what the caller's
/// predicate answered for it; the new roots are exactly the kept ones.
pub open spec fn removal_described<F: Fn(Pointer) -> bool>(
    old_roots: Seq<Pointer>,
    new_roots: Seq<Pointer>,
    cond: F,
    keep: Seq<bool>,
) -> bool {
    &&& keep.len() == old_roots.len()
    &&& new_roots == kept_roots(old_roots, keep)
    &&& forall|i: int| 0 <= i < keep.len() ==> cond.ensures((old_roots[i],), !(#[trigger] keep[i]))
}

impl TestTracer {
    /// Remove every rooted handle the caller's predicate selects; the
    /// remaining roots keep their order.  The predicate sees a copy of
    /// each handle, not a stable identity reference.
    pub fn deallocate_any_that<F: Fn(Pointer) -> bool>(&mut self, deallocate_condition: F)
        requires
            forall|p: Pointer|
                old(self).roots().contains(p) ==> #[trigger] deallocate_condition.requires((p,)),
        ensures
            exists|keep: Seq<bool>|
                #[trigger] removal_described(
                    old(self).roots(),
                    final(self).roots(),
                    deallocate_condition,
                    keep,
                ),
            forall|m: Map<int, Seq<u64>>|
                old(self).roots_allocated(m) ==> #[trigger] final(self).roots_allocated(m),
    {
        let n = self.allocations.len();
        let mut kept: VecDeque<Pointer> = VecDeque::new();
        let ghost mut keep: Seq<bool> = Seq::<bool>::empty();
        let mut i: usize = 0;
        proof {
            assert(self.roots().take(0) =~= Seq::<Pointer>::empty());
        }
        while i < n
            invariant
                i <= n,
                n == self.roots().len(),
                self.roots() == old(self).roots(),
                keep.len() == i as int,
                kept@ == kept_roots(self.roots().take(i as int), keep),
                forall|j: int|
                    0 <= j < i ==> deallocate_condition.ensures(
                        (self.roots()[j],),
                        !(#[trigger] keep[j]),
                    ),
                forall|p: Pointer|
                    old(self).roots().contains(p) ==> #[trigger] deallocate_condition.requires(
                        (p,),
                    ),
            decreases n - i,
        {
            let p = self.allocations[i].clone();
            proof {
                assert(self.roots().contains(self.roots()[i as int]));
            }
            let c = deallocate_condition(p);
            if !c {
                kept.push_back(self.allocations[i].clone());
            }
            proof {
                lemma_kept_roots_snoc(
                    self.roots().take(i as int),
                    keep,
                    self.roots()[i as int],
                    !c,
                );
                assert(self.roots().take(i + 1) =~= self.roots().take(i as int).push(
                    self.roots()[i as int],
                ));
                keep = keep.push(!c);
            }
            i = i + 1;
        }
        proof {
            assert(self.roots().take(n as int) =~= self.roots());
        }
        self.allocations = kept;
        proof {
            assert(removal_described(
                old(self).roots(),
                self.roots(),
                deallocate_condition,
                keep,
            ));
            lemma_kept_roots_elems(old(self).roots(), keep);
            assert forall|m: Map<int, Seq<u64>>|
                old(self).roots_allocated(m) implies #[trigger] self.roots_allocated(m) by {
                assert forall|i: int|
                    0 <= i < self.roots().len() implies m.dom().contains(
                    (#[trigger] self.roots()[i]).block_num as int,
                ) by {
                    let x = self.roots()[i];
                    assert(old(self).roots().contains(x));
                    let k = choose|k: int|
                        0 <= k < old(self).roots().len() && old(self).roots()[k] == x;
                    assert(old(self).roots()[k] == x);
                }
            }
        }
    }
}

/// The sum of the logical lengths of a sequence of handles.
pub open spec fn seq_total_len(roots: Seq<Pointer>) -> nat
    decreases roots.len(),
{
    if roots.len() == 0 {
        0nat
    } else {
        (roots[0].total_len() + seq_total_len(roots.drop_first())) as nat
    }
}

impl TestTracer {
    /// The sum of cell counts across all roots.
    pub fn total_allocated(&self) -> (r: usize)
        requires
            seq_total_len(self.roots()) <= usize::MAX,
        ensures
            r == seq_total_len(self.roots()),
    {
        let n = self.allocations.len();
        let mut total: usize = 0;
        let mut i: usize = 0;
        proof {
            assert(self.roots().skip(0) =~= self.roots());
        }
        while i < n
            invariant
                i <= n,
                n == self.roots().len(),
                total + seq_total_len(self.roots().skip(i as int)) == seq_total_len(self.roots()),
                seq_total_len(self.roots()) <= usize::MAX,
            decreases n - i,
        {
            proof {
                assert(self.roots().skip(i as int).drop_first() =~= self.roots().skip(i + 1));
                assert(self.roots().skip(i as int)[0] == self.roots()[i as int]);
            }
            let c = self.allocations[i].len();
            total = total + c;
            i = i + 1;
        }
        proof {
            assert(self.roots().skip(n as int) =~= Seq::<Pointer>::empty());
        }
        total
    }
}

/// The cells of a sequence of handles, each root's walk in turn.
pub open spec fn seq_cells(roots: Seq<Pointer>) -> Seq<(int, int)>
    decreases roots.len(),
{
    if roots.len() == 0 {
        Seq::<(int, int)>::empty()
    } else {
        roots[0].cells_from() + seq_cells(roots.drop_first())
    }
}

proof fn lemma_seq_cells_snoc(roots: Seq<Pointer>, x: Pointer)
    ensures
        seq_cells(roots.push(x)) == seq_cells(roots) + x.cells_from(),
    decreases roots.len(),
{
    if roots.len() == 0 {
        assert(roots.push(x).drop_first() =~= Seq::<Pointer>::empty());
        assert(roots.push(x)[0] == x);
        assert(seq_cells(roots.push(x)) == x.cells_from() + seq_cells(
            roots.push(x).drop_first(),
        ));
        assert(seq_cells(roots.push(x)) =~= seq_cells(roots) + x.cells_from());
    } else {
        lemma_seq_cells_snoc(roots.drop_first(), x);
        assert(roots.push(x).drop_first() =~= roots.drop_first().push(x));
        assert(roots.push(x)[0] == roots[0]);
        assert(seq_cells(roots.push(x)) =~= seq_cells(roots) + x.cells_from());
    }
}

impl TestTracer {
    /// Every root is a well-formed chain of distinct blocks that agrees
    /// with the heap state `m`.
    pub open spec fn roots_valid(self, m: Map<int, Seq<u64>>) -> bool {
        forall|i: int|
            0 <= i < self.roots().len() ==> {
                &&& (#[trigger] self.roots()[i]).chain_wf()
                &&& self.roots()[i].chain_distinct()
                &&& self.roots()[i].chain_valid(m)
            }
    }

    /// No block belongs to the chains of two different roots.
    pub open spec fn roots_disjoint(self) -> bool {
        forall|i: int, j: int, b: int|
            0 <= i < self.roots().len() && 0 <= j < self.roots().len() && i != j && (
            #[trigger] self.roots()[i].chain_blocks().contains(b)) ==> !(
            #[trigger] self.roots()[j].chain_blocks().contains(b))
    }
}

/// The cell of a flattened walk, located in the root it came from: an
/// index pair naming the root and the position inside that root's walk.
proof fn lemma_seq_cells_root(roots: Seq<Pointer>, j: int) -> (w: (int, int))
    requires
        0 <= j < seq_cells(roots).len(),
    ensures
        0 <= w.0 < roots.len(),
        0 <= w.1 < roots[w.0].cells_from().len(),
        seq_cells(roots)[j] == roots[w.0].cells_from()[w.1],
    decreases roots.len(),
{
    let headl = roots[0].cells_from().len() as int;
    if j < headl {
        (0, j)
    } else {
        let ww = lemma_seq_cells_root(roots.drop_first(), j - headl);
        assert(roots.drop_first()[ww.0] == roots[ww.0 + 1]);
        (ww.0 + 1, ww.1)
    }
}

/// The number of cells in the walk of `cur`.
fn cells_count(cur: &Pointer) -> (r: u64)
    requires
        cur.chain_wf(),
        cur.cells_from().len() <= u64::MAX,
    ensures
        r == cur.cells_from().len(),
    decreases cur.chain_len(),
{
    let here = cur.block_len - cur.offset;
    match &cur.next {
        Some(n) => {
            let rest = cells_count(&**n);
            (here as u64) + rest
        },
        None => here as u64,
    }
}

impl TestTracer {
    /// The round-trip check across all rooted, possibly multi-block
    /// allocations: write the strictly increasing run 0, 1, 2, ... across
    /// every cell of every root, chasing successor links until each root's
    /// length is exhausted, then re-read it all and report whether the
    /// identical run came back.  Under the stated validity it always does,
    /// and only the roots' own cells are touched.
    pub fn test_in_bounds<H: GarbageCollectingHeap>(&self, allocator: &mut H) -> (r: bool)
        requires
            self.roots_valid(old(allocator).mem()),
            self.roots_disjoint(),
            seq_cells(self.roots()).len() <= u64::MAX,
        ensures
            r == true,
            final(allocator).mem().dom() == old(allocator).mem().dom(),
            forall|b: int| #[trigger]
                final(allocator).mem().dom().contains(b) ==> final(allocator).mem()[b].len() == old(
                    allocator,
                ).mem()[b].len(),
            forall|j: int|
                0 <= j < seq_cells(self.roots()).len() ==> cell_at(
                    final(allocator).mem(),
                    #[trigger] seq_cells(self.roots())[j],
                ) == j,
            forall|b: int, o: int|
                old(allocator).mem().dom().contains(b) && 0 <= o < old(allocator).mem()[b].len()
                    && !seq_cells(self.roots()).contains((b, o)) ==> cell_at(
                    final(allocator).mem(),
                    (b, o),
                ) == cell_at(old(allocator).mem(), (b, o)),
    {
        let ghost m0 = allocator.mem();
        let ghost all = seq_cells(self.roots());
        let n = self.allocations.len();
        let mut i: usize = 0;
        let mut val: u64 = 0;
        proof {
            assert(self.roots().take(0) =~= Seq::<Pointer>::empty());
            assert(self.roots().skip(0) =~= self.roots());
        }
        while i < n
            invariant
                i <= n,
                n == self.roots().len(),
                self.roots_valid(m0),
                self.roots_disjoint(),
                all == seq_cells(self.roots()),
                all.len() <= u64::MAX,
                val == seq_cells(self.roots().take(i as int)).len(),
                all =~= seq_cells(self.roots().take(i as int)) + seq_cells(
                    self.roots().skip(i as int),
                ),
                allocator.mem().dom() == m0.dom(),
                forall|b: int| #[trigger]
                    allocator.mem().dom().contains(b) ==> allocator.mem()[b].len() == m0[b].len(),
                forall|j: int|
                    0 <= j < val ==> cell_at(allocator.mem(), #[trigger] all[j]) == j,
                forall|b: int, o: int|
                    m0.dom().contains(b) && 0 <= o < m0[b].len() && !all.contains((b, o))
                        ==> cell_at(allocator.mem(), (b, o)) == cell_at(m0, (b, o)),
            decreases n - i,
        {
            let ghost pre = seq_cells(self.roots().take(i as int));
            let ghost cur = self.roots()[i as int];
            proof {
                assert(self.roots().skip(i as int).drop_first() =~= self.roots().skip(i + 1));
                assert(self.roots().skip(i as int)[0] == cur);
                assert(seq_cells(self.roots().skip(i as int)) == cur.cells_from() + seq_cells(
                    self.roots().skip(i + 1),
                ));
                lemma_seq_cells_snoc(self.roots().take(i as int), cur);
                assert(self.roots().take(i + 1) =~= self.roots().take(i as int).push(cur));
                assert(all.len() == val + cur.cells_from().len() + seq_cells(
                    self.roots().skip(i + 1),
                ).len());
                lemma_chain_valid_stable(cur, m0, allocator.mem());
                lemma_cells_blocks(cur);
                assert forall|j: int|
                    0 <= j < cur.cells_from().len() implies all[val + j] == (
                #[trigger] cur.cells_from()[j]) by {
                    assert(all[pre.len() + j] == seq_cells(self.roots().skip(i as int))[j]);
                }
            }
            let ghost mw = allocator.mem();
            write_cells(&self.allocations[i], val, allocator);
            proof {
                assert forall|j: int|
                    0 <= j < val + cur.cells_from().len() implies cell_at(
                    allocator.mem(),
                    #[trigger] all[j],
                ) == j by {
                    if j < val {
                        let w = lemma_seq_cells_root(self.roots().take(i as int), j);
                        let owner = self.roots()[w.0];
                        assert(self.roots().take(i as int)[w.0] == owner);
                        lemma_cells_blocks(owner);
                        lemma_cells_valid(owner, m0);
                        assert(m0.dom().contains(all[j].0) && 0 <= all[j].1 < m0[all[j].0].len());
                        if cur.cells_from().contains(all[j]) {
                            let k = choose|k: int|
                                0 <= k < cur.cells_from().len() && cur.cells_from()[k] == all[j];
                            assert(cur.chain_blocks().contains(cur.cells_from()[k].0));
                            assert(owner.chain_blocks().contains(all[j].0));
                            assert(false);
                        }
                        assert(cell_at(mw, all[j]) == j);
                    } else {
                        assert(all[j] == cur.cells_from()[j - val]);
                    }
                }
                assert forall|b: int, o: int|
                    m0.dom().contains(b) && 0 <= o < m0[b].len() && !all.contains(
                        (b, o),
                    ) implies cell_at(allocator.mem(), (b, o)) == cell_at(m0, (b, o)) by {
                    if cur.cells_from().contains((b, o)) {
                        let k = choose|k: int|
                            0 <= k < cur.cells_from().len() && cur.cells_from()[k] == (b, o);
                        assert(all[val + k] == (b, o));
                        assert(all.contains((b, o)));
                        assert(false);
                    }
                    assert(cell_at(mw, (b, o)) == cell_at(m0, (b, o)));
                }
                assert(all =~= seq_cells(self.roots().take(i + 1)) + seq_cells(
                    self.roots().skip(i + 1),
                ));
            }
            let cnt = cells_count(&self.allocations[i]);
            val = val + cnt;
            i = i + 1;
        }
        proof {
            assert(self.roots().take(n as int) =~= self.roots());
        }
        let mut ok = true;
        let mut i2: usize = 0;
        let mut val2: u64 = 0;
        proof {
            assert(self.roots().take(0) =~= Seq::<Pointer>::empty());
            assert(self.roots().skip(0) =~= self.roots());
        }
        while i2 < n
            invariant
                i2 <= n,
                n == self.roots().len(),
                self.roots_valid(m0),
                all == seq_cells(self.roots()),
                all.len() <= u64::MAX,
                val2 == seq_cells(self.roots().take(i2 as int)).len(),
                all =~= seq_cells(self.roots().take(i2 as int)) + seq_cells(
                    self.roots().skip(i2 as int),
                ),
                allocator.mem().dom() == m0.dom(),
                forall|b: int| #[trigger]
                    allocator.mem().dom().contains(b) ==> allocator.mem()[b].len() == m0[b].len(),
                forall|j: int|
                    0 <= j < all.len() ==> cell_at(allocator.mem(), #[trigger] all[j]) == j,
                ok == true,
            decreases n - i2,
        {
            let ghost pre = seq_cells(self.roots().take(i2 as int));
            let ghost cur = self.roots()[i2 as int];
            proof {
                assert(self.roots().skip(i2 as int).drop_first() =~= self.roots().skip(i2 + 1));
                assert(self.roots().skip(i2 as int)[0] == cur);
                assert(seq_cells(self.roots().skip(i2 as int)) == cur.cells_from() + seq_cells(
                    self.roots().skip(i2 + 1),
                ));
                lemma_seq_cells_snoc(self.roots().take(i2 as int), cur);
                assert(self.roots().take(i2 + 1) =~= self.roots().take(i2 as int).push(cur));
                assert(all.len() == val2 + cur.cells_from().len() + seq_cells(
                    self.roots().skip(i2 + 1),
                ).len());
                lemma_chain_valid_stable(cur, m0, allocator.mem());
                assert forall|j: int|
                    0 <= j < cur.cells_from().len() implies cell_at(
                    allocator.mem(),
                    #[trigger] cur.cells_from()[j],
                ) == val2 + j by {
                    assert(all[pre.len() + j] == seq_cells(self.roots().skip(i2 as int))[j]);
                    assert(cell_at(allocator.mem(), all[pre.len() + j]) == pre.len() + j);
                }
            }
            let good = check_cells(&self.allocations[i2], val2, allocator);
            ok = ok && good;
            let cnt = cells_count(&self.allocations[i2]);
            val2 = val2 + cnt;
            i2 = i2 + 1;
        }
        ok
    }
}

/// Write the walk of `cur` with the run of values `start`, `start + 1`,
/// ...: one per cell, in walking order.  Touches exactly those cells.
fn write_cells<H: GarbageCollectingHeap>(cur: &Pointer, start: u64, allocator: &mut H)
    requires
        cur.chain_wf(),
        cur.chain_distinct(),
        cur.chain_valid(old(allocator).mem()),
        start + cur.cells_from().len() <= u64::MAX,
    ensures
        final(allocator).mem().dom() == old(allocator).mem().dom(),
        forall|b: int| #[trigger]
            final(allocator).mem().dom().contains(b) ==> final(allocator).mem()[b].len() == old(
                allocator,
            ).mem()[b].len(),
        forall|j: int|
            0 <= j < cur.cells_from().len() ==> cell_at(
                final(allocator).mem(),
                #[trigger] cur.cells_from()[j],
            ) == start + j,
        forall|b: int, o: int|
            old(allocator).mem().dom().contains(b) && 0 <= o < old(allocator).mem()[b].len()
                && !cur.cells_from().contains((b, o)) ==> cell_at(
                final(allocator).mem(),
                (b, o),
            ) == cell_at(old(allocator).mem(), (b, o)),
    decreases cur.chain_len(),
{
    let ghost m0 = allocator.mem();
    let ghost cells = cur.cells_from();
    let ghost segl = cur.block_len - cur.offset;
    let mut o: usize = cur.offset;
    let mut val: u64 = start;
    while o < cur.block_len
        invariant
            cur.offset <= o <= cur.block_len,
            val == start + (o - cur.offset),
            cur.chain_wf(),
            cur.chain_valid(m0),
            start + cells.len() <= u64::MAX,
            cells == cur.cells_from(),
            segl == cur.block_len - cur.offset,
            segl <= cells.len(),
            allocator.mem().dom() == m0.dom(),
            forall|b: int| #[trigger]
                allocator.mem().dom().contains(b) ==> allocator.mem()[b].len() == m0[b].len(),
            forall|j: int|
                0 <= j < o - cur.offset ==> cell_at(allocator.mem(), #[trigger] cells[j]) == start
                    + j,
            forall|b: int, oo: int|
                m0.dom().contains(b) && 0 <= oo < m0[b].len() && !(b == cur.block_num as int
                    && cur.offset <= oo < o) ==> cell_at(allocator.mem(), (b, oo)) == cell_at(
                    m0,
                    (b, oo),
                ),
        decreases cur.block_len - o,
    {
        let tmp = Pointer {
            block_num: cur.block_num,
            offset: o,
            block_len: cur.block_len,
            next: None,
        };
        proof {
            assert(cell_valid(allocator.mem(), tmp));
        }
        allocator.store(&tmp, val).unwrap();
        proof {
            assert(cells[o - cur.offset] == (cur.block_num as int, o as int));
        }
        o = o + 1;
        val = val + 1;
    }
    let ghost m1 = allocator.mem();
    match &cur.next {
        Some(n) => {
            proof {
                lemma_chain_valid_stable(**n, m0, m1);
                lemma_cells_blocks(**n);
                assert((**n).cells_from().len() == cells.len() - segl);
            }
            write_cells(&**n, val, allocator);
            proof {
                assert forall|j: int|
                    0 <= j < cells.len() implies cell_at(allocator.mem(), #[trigger] cells[j])
                    == start + j by {
                    if j < segl {
                        let c = cells[j];
                        assert(c == (cur.block_num as int, cur.offset + j));
                        assert(cell_at(m1, c) == start + j);
                        assert forall|k: int|
                            0 <= k < (**n).cells_from().len() implies (#[trigger] (
                        **n).cells_from()[k]) != c by {
                            assert((**n).chain_blocks().contains((**n).cells_from()[k].0));
                        }
                        assert(!(**n).cells_from().contains(c));
                    } else {
                        assert(cells[j] == (**n).cells_from()[j - segl]);
                    }
                }
                assert forall|b: int, oo: int|
                    m0.dom().contains(b) && 0 <= oo < m0[b].len() && !cells.contains(
                        (b, oo),
                    ) implies cell_at(allocator.mem(), (b, oo)) == cell_at(m0, (b, oo)) by {
                    assert forall|j: int|
                        0 <= j < cells.len() implies (#[trigger] cells[j]) != (b, oo) by {
                        assert(!cells.contains((b, oo)));
                    }
                    if (**n).cells_from().contains((b, oo)) {
                        let k = choose|k: int|
                            0 <= k < (**n).cells_from().len() && (**n).cells_from()[k] == (b, oo);
                        assert(cells[segl + k] == (b, oo));
                        assert(false);
                    }
                    if b == cur.block_num as int && cur.offset <= oo < cur.block_len {
                        assert(cells[oo - cur.offset] == (b, oo));
                    }
                    assert(!(b == cur.block_num as int && cur.offset <= oo < cur.block_len));
                }
            }
        },
        None => {
            proof {
                assert forall|b: int, oo: int|
                    m0.dom().contains(b) && 0 <= oo < m0[b].len() && !cells.contains(
                        (b, oo),
                    ) implies cell_at(allocator.mem(), (b, oo)) == cell_at(m0, (b, oo)) by {
                    if b == cur.block_num as int && cur.offset <= oo < cur.block_len {
                        assert(cells[oo - cur.offset] == (b, oo));
                        assert(cells.contains((b, oo)));
                    }
                }
            }
        },
    }
}

/// Re-read the walk of `cur` and report whether it holds exactly the run
/// of values `start`, `start + 1`, ...: one per cell, in walking order.
fn check_cells<H: GarbageCollectingHeap>(cur: &Pointer, start: u64, allocator: &H) -> (r: bool)
    requires
        cur.chain_wf(),
        cur.chain_valid(allocator.mem()),
        start + cur.cells_from().len() <= u64::MAX,
    ensures
        r == (forall|j: int|
            0 <= j < cur.cells_from().len() ==> cell_at(
                allocator.mem(),
                #[trigger] cur.cells_from()[j],
            ) == start + j),
    decreases cur.chain_len(),
{
    let ghost cells = cur.cells_from();
    let ghost segl = cur.block_len - cur.offset;
    let mut o: usize = cur.offset;
    let mut val: u64 = start;
    while o < cur.block_len
        invariant
            cur.offset <= o <= cur.block_len,
            val == start + (o - cur.offset),
            cur.chain_wf(),
            cur.chain_valid(allocator.mem()),
            start + cells.len() <= u64::MAX,
            cells == cur.cells_from(),
            segl == cur.block_len - cur.offset,
            segl <= cells.len(),
            forall|j: int|
                0 <= j < o - cur.offset ==> cell_at(allocator.mem(), #[trigger] cells[j]) == start
                    + j,
        decreases cur.block_len - o,
    {
        let tmp = Pointer {
            block_num: cur.block_num,
            offset: o,
            block_len: cur.block_len,
            next: None,
        };
        let got = allocator.load(&tmp).unwrap();
        proof {
            assert(cells[o - cur.offset] == (cur.block_num as int, o as int));
        }
        if got != val {
            proof {
                assert(cell_at(allocator.mem(), cells[o - cur.offset]) != start + (o - cur.offset));
            }
            return false;
        }
        o = o + 1;
        val = val + 1;
    }
    match &cur.next {
        Some(n) => {
            proof {
                assert((**n).cells_from().len() == cells.len() - segl);
            }
            let rest = check_cells(&**n, val, allocator);
            proof {
                if rest {
                    assert forall|j: int|
                        0 <= j < cells.len() implies cell_at(allocator.mem(), #[trigger] cells[j])
                        == start + j by {
                        if j >= segl {
                            assert(cells[j] == (**n).cells_from()[j - segl]);
                        }
                    }
                } else {
                    let k = choose|k: int|
                        0 <= k < (**n).cells_from().len() && cell_at(
                            allocator.mem(),
                            (**n).cells_from()[k],
                        ) != val + k;
                    assert(cells[segl + k] == (**n).cells_from()[k]);
                    assert(cell_at(allocator.mem(), cells[segl + k]) != start + (segl + k));
                }
            }
            rest
        },
        None => true,
    }
}

} // verus!
