//! Zobrist hashing of board positions.
use vstd::prelude::*;
use crate::board::{Board, BoardModel, Move, Stone, lemma_board_wf};
use rand::Rng;

verus! {

broadcast use lemma_board_wf;

/// One random key per cell and cell state; the hash of a board is the XOR of
/// the keys its cells select, empty cells included.
pub struct Zobrist {
    h: [u64; 675],
}

impl View for Zobrist {
    type V = Seq<u64>;

    closed spec fn view(&self) -> Seq<u64> {
        self.h@
    }
}

/// Every key table has a key per cell and state.
pub broadcast proof fn lemma_zobrist_len(z: &Zobrist)
    ensures
        (#[trigger] z@).len() == 675,
{
    assert(z.h@.len() == 675);
}

pub open spec fn state_num(s: Stone) -> int {
    match s {
        Stone::Empty => 0,
        Stone::Black => 1,
        Stone::White => 2,
    }
}

/// The key of cell `i` in state `s`.
pub open spec fn key_of(keys: Seq<u64>, i: int, s: Stone) -> u64 {
    keys[i * 3 + state_num(s)]
}

/// XOR of the keys selected by the first `k` cells.
pub open spec fn hash_upto(keys: Seq<u64>, cells: Seq<Stone>, k: int) -> u64
    decreases k,
{
    if k <= 0 {
        0
    } else {
        hash_upto(keys, cells, k - 1) ^ key_of(keys, k - 1, cells[k - 1])
    }
}

/// The hash of a board's cells.
pub open spec fn hash_of(keys: Seq<u64>, cells: Seq<Stone>) -> u64 {
    hash_upto(keys, cells, 225)
}

/// Relies on rand's `Rng::gen::<u64>` on `thread_rng()`: a random 64-bit
/// value.
#[verifier::external_body]
fn random_u64() -> (r: u64) {
    rand::thread_rng().gen::<u64>()
}

fn stone_num(s: Stone) -> (r: usize)
    ensures
        r == state_num(s),
{
    match s {
        Stone::Empty => 0,
        Stone::Black => 1,
        Stone::White => 2,
    }
}

impl Zobrist {
    /// A table of fresh random keys.
    pub fn init() -> (r: Self) {
        let mut h = [0u64; 675];
        let mut i: usize = 0;
        while i < 675
            invariant
                i <= 675,
            decreases 675 - i,
        {
            h[i] = random_u64();
            i += 1;
        }
        Self { h }
    }

    /// The hash of `board`, computed over all cells.
    pub fn hash(&self, board: &Board) -> (r: u64)
        ensures
            r == hash_of(self@, board@.cells),
    {
        let mut h: u64 = 0;
        let mut i: usize = 0;
        while i < 225
            invariant
                i <= 225,
                board@.wf(),
                self@ == self.h@,
                h == hash_upto(self@, board@.cells, i as int),
            decreases 225 - i,
        {
            let cell = Move { x: i % 15, y: i / 15 };
            assert(cell.index() == i);
            let num = stone_num(board.get(cell));
            h = h ^ self.h[i * 3 + num];
            i += 1;
        }
        h
    }

    /// The hash after the cell `mv` changes from `old_stone` to
    /// `new_stone`: the old state's key is XORed out and the new one's in.
    pub fn update(&self, hash: u64, mv: Move, old_stone: Stone, new_stone: Stone) -> (r: u64)
        requires
            mv.wf(),
        ensures
            r == hash ^ key_of(self@, mv.index(), old_stone) ^ key_of(self@, mv.index(), new_stone),
    {
        let i = mv.y * 15 + mv.x;
        hash ^ self.h[i * 3 + stone_num(old_stone)] ^ self.h[i * 3 + stone_num(new_stone)]
    }
}

proof fn lemma_hash_upto_update(keys: Seq<u64>, cells: Seq<Stone>, i: int, s: Stone, k: int)
    requires
        0 <= i < cells.len(),
        k <= cells.len(),
    ensures
        hash_upto(keys, cells.update(i, s), k) == if k > i {
            hash_upto(keys, cells, k) ^ key_of(keys, i, cells[i]) ^ key_of(keys, i, s)
        } else {
            hash_upto(keys, cells, k)
        },
    decreases k,
{
    if k > 0 {
        lemma_hash_upto_update(keys, cells, i, s, k - 1);
        let a = hash_upto(keys, cells, k - 1);
        let ko = key_of(keys, i, cells[i]);
        let kn = key_of(keys, i, s);
        let t = key_of(keys, k - 1, cells[k - 1]);
        if k - 1 == i {
            assert(a ^ kn == (a ^ ko) ^ ko ^ kn) by (bit_vector);
        } else if k - 1 > i {
            assert((a ^ ko ^ kn) ^ t == (a ^ t) ^ ko ^ kn) by (bit_vector);
        }
    }
}

/// Updating the hash after one cell changes gives the hash of the new board,
/// the same as hashing it again from scratch.
pub proof fn lemma_update_rehash(z: &Zobrist, b: BoardModel, mv: Move, s: Stone)
    requires
        b.wf(),
        mv.wf(),
    ensures
        hash_of(z@, b.cells.update(mv.index(), s)) == hash_of(z@, b.cells) ^ key_of(
            z@,
            mv.index(),
            b.at(mv),
        ) ^ key_of(z@, mv.index(), s),
{
    lemma_hash_upto_update(z@, b.cells, mv.index(), s, 225);
}

} // verus!
