use vstd::prelude::*;

verus! {

/// A non-owning handle to one heap allocation.
///
/// A `Pointer` addresses a single storage cell: cell `offset` of block
/// `block_num`.  The block holds `block_len` cells in all.  When an
/// allocation spans several blocks, `next` links to the handle of the
/// successor block; the allocator, not the holder of the handle, owns the
/// underlying storage.
#[derive(Debug)]
pub struct Pointer {
    pub block_num: usize,
    pub offset: usize,
    pub block_len: usize,
    pub next: Option<Box<Pointer>>,
}

impl Pointer {
    /// Well-formedness of the whole chain: every block has at least one
    /// cell, the addressed cell lies inside its block, and every successor
    /// handle starts at cell zero of its block.
    pub open spec fn chain_wf(self) -> bool
        decreases self,
    {
        &&& 0 < self.block_len
        &&& self.offset < self.block_len
        &&& match self.next {
            Some(n) => (*n).offset == 0 && (*n).chain_wf(),
            None => true,
        }
    }

    /// Number of links in the chain, this handle included.
    pub open spec fn chain_len(self) -> nat
        decreases self,
    {
        (1 + (match self.next {
            Some(n) => (*n).chain_len(),
            None => 0nat,
        })) as nat
    }

    /// The block numbers of the chain, in order.
    pub open spec fn chain_blocks(self) -> Seq<int>
        decreases self,
    {
        seq![self.block_num as int] + (match self.next {
            Some(n) => (*n).chain_blocks(),
            None => Seq::<int>::empty(),
        })
    }

    /// No block number occurs twice in the chain.
    pub open spec fn chain_distinct(self) -> bool
        decreases self,
    {
        match self.next {
            Some(n) => !(*n).chain_blocks().contains(self.block_num as int)
                && (*n).chain_distinct(),
            None => true,
        }
    }

    /// Total number of storage cells of the allocation, all chained blocks
    /// counted from their first cell.
    pub open spec fn total_len(self) -> nat
        decreases self,
    {
        (self.block_len + (match self.next {
            Some(n) => (*n).total_len(),
            None => 0nat,
        })) as nat
    }

    /// The chain agrees with the heap state `m`: every chained block is
    /// allocated and holds exactly the cell count its handle records.
    pub open spec fn chain_valid(self, m: Map<int, Seq<u64>>) -> bool
        decreases self,
    {
        &&& m.dom().contains(self.block_num as int)
        &&& m[self.block_num as int].len() == self.block_len
        &&& match self.next {
            Some(n) => (*n).chain_valid(m),
            None => true,
        }
    }

    /// No block of the chain was allocated before: the whole chain is new.
    pub open spec fn chain_fresh(self, dom: Set<int>) -> bool {
        forall|b: int| self.chain_blocks().contains(b) ==> !(#[trigger] dom.contains(b))
    }

    /// The cells reachable from this handle, in walking order: the rest of
    /// the current block, then every cell of each successor block.  A cell
    /// is named by its (block number, offset) pair.
    pub open spec fn cells_from(self) -> Seq<(int, int)>
        decreases self,
    {
        Seq::new((self.block_len - self.offset) as nat, |i: int| (self.block_num as int, self.offset + i))
            + (match self.next {
            Some(n) => (*n).cells_from(),
            None => Seq::<(int, int)>::empty(),
        })
    }

    /// The handle one cell further along the walk: the next cell of this
    /// block, or the first cell of the successor block, or nothing.
    pub open spec fn spec_next(self) -> Option<Pointer> {
        if self.offset + 1 < self.block_len {
            Some(Pointer {
                block_num: self.block_num,
                offset: (self.offset + 1) as usize,
                block_len: self.block_len,
                next: self.next,
            })
        } else {
            match self.next {
                Some(n) => Some(*n),
                None => None,
            }
        }
    }

    pub fn block_num(&self) -> (r: usize)
        ensures
            r == self.block_num,
    {
        self.block_num
    }

    pub fn offset(&self) -> (r: usize)
        ensures
            r == self.offset,
    {
        self.offset
    }

    /// The logical length of the allocation: its cell count summed over the
    /// whole chain.
    pub fn len(&self) -> (r: usize)
        requires
            self.total_len() <= usize::MAX,
        ensures
            r == self.total_len(),
    {
        let mut total: usize = 0;
        let mut cur: &Pointer = self;
        loop
            invariant
                total + cur.total_len() == self.total_len(),
                self.total_len() <= usize::MAX,
            decreases cur.chain_len(),
        {
            total = total + cur.block_len;
            match &cur.next {
                Some(n) => {
                    cur = &**n;
                },
                None => {
                    return total;
                },
            }
        }
    }

    /// The handle one cell further along the walk.
    pub fn next(&self) -> (r: Option<Pointer>)
        requires
            self.chain_wf(),
        ensures
            r == self.spec_next(),
    {
        if self.offset + 1 < self.block_len {
            Some(Pointer {
                block_num: self.block_num,
                offset: self.offset + 1,
                block_len: self.block_len,
                next: clone_link(&self.next),
            })
        } else {
            match &self.next {
                Some(n) => Some((**n).clone()),
                None => None,
            }
        }
    }
}

/// The head block of a chain is one of its chain blocks.
pub proof fn lemma_head_in_chain_blocks(p: Pointer)
    ensures
        p.chain_blocks()[0] == p.block_num as int,
        p.chain_blocks().contains(p.block_num as int),
{
    assert(p.chain_blocks()[0] == p.block_num as int);
}

/// A well-formed chain covers at least one cell, and at least as many as
/// its first block holds.
pub proof fn lemma_total_len_lower(p: Pointer)
    requires
        p.chain_wf(),
    ensures
        p.total_len() >= p.block_len,
        p.total_len() >= 1,
    decreases p,
{
    match p.next {
        Some(n) => lemma_total_len_lower(*n),
        None => {},
    }
}

/// A well-formed one-cell allocation is a single block of one cell,
/// addressed at its only cell.
pub proof fn lemma_single_cell(p: Pointer)
    requires
        p.chain_wf(),
        p.total_len() == 1,
    ensures
        p.block_len == 1,
        p.next is None,
        p.offset == 0,
{
    match p.next {
        Some(n) => lemma_total_len_lower(*n),
        None => {},
    }
}

/// Every cell of a walk lies in one of the chain's blocks.
pub proof fn lemma_cells_blocks(p: Pointer)
    ensures
        forall|j: int|
            0 <= j < p.cells_from().len() ==> p.chain_blocks().contains(
                (#[trigger] p.cells_from()[j]).0,
            ),
    decreases p,
{
    match p.next {
        Some(n) => {
            lemma_cells_blocks(*n);
            let segl = p.cells_from().len() - (*n).cells_from().len();
            assert forall|j: int| 0 <= j < p.cells_from().len() implies p.chain_blocks().contains(
                (p.cells_from()[j]).0,
            ) by {
                if j < segl {
                    assert(p.cells_from()[j].0 == p.block_num as int);
                    assert(p.chain_blocks()[0] == p.block_num as int);
                } else {
                    assert(p.cells_from()[j] == (*n).cells_from()[j - segl]);
                    let x = (*n).cells_from()[j - segl].0;
                    let k = choose|k: int|
                        0 <= k < (*n).chain_blocks().len() && (*n).chain_blocks()[k] == x;
                    assert(p.chain_blocks()[k + 1] == x);
                }
            }
        },
        None => {
            assert forall|j: int| 0 <= j < p.cells_from().len() implies p.chain_blocks().contains(
                (p.cells_from()[j]).0,
            ) by {
                assert(p.cells_from()[j].0 == p.block_num as int);
                assert(p.chain_blocks()[0] == p.block_num as int);
            }
        },
    }
}

/// Every cell of the walk of a valid chain is a cell the heap can read or
/// write: its block is allocated and its offset lies inside the block.
pub proof fn lemma_cells_valid(p: Pointer, m: Map<int, Seq<u64>>)
    requires
        p.chain_wf(),
        p.chain_valid(m),
    ensures
        forall|j: int|
            0 <= j < p.cells_from().len() ==> m.dom().contains(
                (#[trigger] p.cells_from()[j]).0,
            ) && 0 <= p.cells_from()[j].1 < m[p.cells_from()[j].0].len(),
    decreases p,
{
    let segl = p.block_len - p.offset;
    match p.next {
        Some(n) => {
            lemma_cells_valid(*n, m);
            assert forall|j: int| 0 <= j < p.cells_from().len() implies m.dom().contains(
                (p.cells_from()[j]).0,
            ) && 0 <= p.cells_from()[j].1 < m[p.cells_from()[j].0].len() by {
                if j >= segl {
                    assert(p.cells_from()[j] == (*n).cells_from()[j - segl]);
                }
            }
        },
        None => {},
    }
}

/// Chain validity depends only on which blocks are allocated and how many
/// cells each holds, not on the stored values.
pub proof fn lemma_chain_valid_stable(p: Pointer, m0: Map<int, Seq<u64>>, m1: Map<int, Seq<u64>>)
    requires
        p.chain_valid(m0),
        m1.dom() == m0.dom(),
        forall|b: int| #[trigger] m1.dom().contains(b) ==> m1[b].len() == m0[b].len(),
    ensures
        p.chain_valid(m1),
    decreases p,
{
    match p.next {
        Some(n) => lemma_chain_valid_stable(*n, m0, m1),
        None => {},
    }
}

impl Clone for Pointer {
    fn clone(&self) -> (r: Self)
        ensures
            r == *self,
        decreases *self,
    {
        Pointer {
            block_num: self.block_num,
            offset: self.offset,
            block_len: self.block_len,
            next: clone_link(&self.next),
        }
    }
}

fn clone_link(link: &Option<Box<Pointer>>) -> (r: Option<Box<Pointer>>)
    ensures
        r == *link,
    decreases *link,
{
    match link {
        Some(n) => Some(Box::new((**n).clone())),
        None => None,
    }
}

} // verus!
