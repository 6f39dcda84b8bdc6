//! A transposition table: search results cached by position hash.
use vstd::prelude::*;
use crate::board::Move;

verus! {

/// A cached search result.
#[derive(Debug, Copy, Clone)]
pub struct TTEntry {
    pub hash: u64,
    pub value: i64,
    pub depth: u32,
    pub flag: Flag,
    pub best_move: Move,
}

/// Whether a cached value is exact or only a bound.
#[derive(Debug, Copy, Clone, PartialEq, Eq, Structural)]
pub enum Flag {
    Lower,
    Exact,
    Upper,
}

/// A table of `mask + 1` slots; an entry goes to the slot its hash selects
/// through `mask`.
pub struct TT {
    table: Vec<Option<TTEntry>>,
    mask: usize,
}

pub open spec fn slot_of(hash: u64, mask: usize) -> int {
    ((hash as usize) & mask) as int
}

/// `old` in the slot is kept: it is for the same position and was searched
/// deeper than `e`.
pub open spec fn keeps(old: Option<TTEntry>, e: TTEntry) -> bool {
    old matches Some(o) && o.hash == e.hash && o.depth > e.depth
}

impl TT {
    pub closed spec fn slots(&self) -> Seq<Option<TTEntry>> {
        self.table@
    }

    pub closed spec fn mask_spec(&self) -> usize {
        self.mask
    }

    /// One slot for each value of the mask.
    pub open spec fn wf(&self) -> bool {
        self.slots().len() == self.mask_spec() + 1
    }

    /// An empty table with `size + 1` slots; `size` must be of the form
    /// `2^n - 1`, so that masking a hash with it spreads entries over every
    /// slot.
    pub fn new(size: usize) -> (r: Self)
        requires
            size < usize::MAX,
            size & ((size + 1) as usize) == 0,
        ensures
            r.wf(),
            r.mask_spec() == size,
            r.slots().len() == size + 1,
            forall|i: int| 0 <= i <= size ==> r.slots()[i] is None,
    {
        let mut table: Vec<Option<TTEntry>> = Vec::new();
        let mut i: usize = 0;
        while i <= size
            invariant
                i <= size + 1,
                size < usize::MAX,
                table@.len() == i,
                forall|j: int| 0 <= j < i ==> table@[j] is None,
            decreases size + 1 - i,
        {
            table.push(None);
            i += 1;
        }
        Self { table, mask: size }
    }

    fn slot(&self, hash: u64) -> (r: usize)
        requires
            self.wf(),
        ensures
            r == slot_of(hash, self.mask_spec()),
            r < self.slots().len(),
    {
        let m = self.mask;
        let h = hash as usize;
        assert(h & m <= m) by (bit_vector);
        h & m
    }

    /// The entry cached for `hash`, if its slot holds one for that very hash.
    pub fn get(&self, hash: u64) -> (r: Option<TTEntry>)
        requires
            self.wf(),
        ensures
            r == (match self.slots()[slot_of(hash, self.mask_spec())] {
                Some(e) => if e.hash == hash {
                    Some(e)
                } else {
                    None
                },
                None => None,
            }),
    {
        let idx = self.slot(hash);
        match self.table[idx] {
            Some(e) => if e.hash == hash {
                Some(e)
            } else {
                None
            },
            None => None,
        }
    }

    /// Stores `e` in its slot, unless the slot holds a deeper result for the
    /// same hash.
    pub fn put(&mut self, e: TTEntry)
        requires
            old(self).wf(),
        ensures
            final(self).wf(),
            final(self).mask_spec() == old(self).mask_spec(),
            final(self).slots() == if keeps(
                old(self).slots()[slot_of(e.hash, old(self).mask_spec())],
                e,
            ) {
                old(self).slots()
            } else {
                old(self).slots().update(slot_of(e.hash, old(self).mask_spec()), Some(e))
            },
    {
        let idx = self.slot(e.hash);
        match self.table[idx] {
            Some(old) => {
                if old.hash == e.hash && old.depth > e.depth {
                    return ;
                }
            },
            None => {},
        }
        self.table.set(idx, Some(e));
    }
}

} // verus!
