//! Candidate generators: the moves the search looks at from a position.
use vstd::prelude::*;
use crate::board::{Board, BoardModel, Move, Stone, lemma_board_wf};

verus! {

broadcast use lemma_board_wf;

/// Produces the moves to search from a position, given the last move.
pub trait Prune {
    spec fn possible_spec(&self, b: BoardModel, last: Move) -> Seq<Move>;

    /// Every candidate lies on the board.
    proof fn lemma_possible_wf(&self, b: BoardModel, last: Move)
        requires
            b.wf(),
        ensures
            forall|i: int|
                0 <= i < self.possible_spec(b, last).len() ==> (#[trigger] self.possible_spec(
                    b,
                    last,
                )[i]).wf(),
    ;

    fn possible(&self, board: &Board, mv: Move) -> (r: Vec<Move>)
        requires
            mv.wf(),
        ensures
            r@ == self.possible_spec(board@, mv),
            forall|i: int| 0 <= i < r@.len() ==> (#[trigger] r@[i]).wf(),
    ;
}

/// Every empty cell, row after row.
#[derive(Debug, Copy, Clone)]
pub struct NoPrune;

/// Only empty cells next to a stone, nearest to the last move and to the
/// centre first.
#[derive(Debug, Copy, Clone)]
pub struct NeighborPrune;

pub open spec fn center() -> Move {
    Move { x: 7, y: 7 }
}

/// The empty cells among the first `k` cells, in row-major order.
pub open spec fn empty_cells(b: BoardModel, k: int) -> Seq<Move>
    decreases k,
{
    if k <= 0 {
        Seq::empty()
    } else {
        empty_cells(b, k - 1) + if b.cells[k - 1] == Stone::Empty {
            seq![Move::at_index(k - 1)]
        } else {
            Seq::empty()
        }
    }
}

/// Some cell at Chebyshev distance 1 from `m` holds a stone.
pub open spec fn near_stone(b: BoardModel, m: Move) -> bool {
    exists|dx: int, dy: int|
        -1 <= dx <= 1 && -1 <= dy <= 1 && (dx != 0 || dy != 0) && #[trigger] holds_stone(
            b,
            m.x + dx,
            m.y + dy,
        )
}

/// `(x, y)` lies on the board and holds a stone.
pub open spec fn holds_stone(b: BoardModel, x: int, y: int) -> bool {
    0 <= x < 15 && 0 <= y < 15 && b.cells[y * 15 + x] != Stone::Empty
}

/// The empty cells next to a stone among the first `k` cells, in row-major
/// order.
pub open spec fn frontier_cells(b: BoardModel, k: int) -> Seq<Move>
    decreases k,
{
    if k <= 0 {
        Seq::empty()
    } else {
        frontier_cells(b, k - 1) + if b.cells[k - 1] == Stone::Empty && near_stone(
            b,
            Move::at_index(k - 1),
        ) {
            seq![Move::at_index(k - 1)]
        } else {
            Seq::empty()
        }
    }
}

pub open spec fn cheb(a: Move, b: Move) -> int {
    let dx = if a.x >= b.x {
        a.x - b.x
    } else {
        b.x - a.x
    };
    let dy = if a.y >= b.y {
        a.y - b.y
    } else {
        b.y - a.y
    };
    if dx >= dy {
        dx
    } else {
        dy
    }
}

/// Ordering key of a candidate: ten times its distance to the last move
/// plus its distance to the centre.
pub open spec fn order_key(last: Move, m: Move) -> int {
    10 * cheb(last, m) + cheb(center(), m)
}

/// The first position from `p` on whose key exceeds `k`.
pub open spec fn insert_pos(r: Seq<Move>, last: Move, k: int, p: int) -> int
    decreases r.len() - p,
{
    if p < 0 || p >= r.len() {
        r.len() as int
    } else if order_key(last, r[p]) > k {
        p
    } else {
        insert_pos(r, last, k, p + 1)
    }
}

/// `s` sorted by `order_key`, stably: each element is inserted after every
/// earlier one whose key is not larger.
pub open spec fn sorted_by_key(s: Seq<Move>, last: Move) -> Seq<Move>
    decreases s.len(),
{
    if s.len() == 0 {
        s
    } else {
        let r = sorted_by_key(s.drop_last(), last);
        r.insert(insert_pos(r, last, order_key(last, s.last()), 0), s.last())
    }
}

/// The centre alone when `v` is empty, else `v`.
pub open spec fn or_center(v: Seq<Move>) -> Seq<Move> {
    if v.len() == 0 {
        seq![center()]
    } else {
        v
    }
}

proof fn lemma_cells_wf(b: BoardModel, k: int)
    requires
        k <= 225,
    ensures
        forall|i: int| 0 <= i < frontier_cells(b, k).len() ==> (#[trigger] frontier_cells(b, k)[i]).wf(),
        forall|i: int| 0 <= i < empty_cells(b, k).len() ==> (#[trigger] empty_cells(b, k)[i]).wf(),
        k >= 0 ==> frontier_cells(b, k).len() <= k,
        k >= 0 ==> empty_cells(b, k).len() <= k,
    decreases k,
{
    if k > 0 {
        lemma_cells_wf(b, k - 1);
        let j = k - 1;
        assert(0 <= j % 15 < 15 && 0 <= j / 15 < 15) by (nonlinear_arith)
            requires
                0 <= j < 225,
        ;
        assert(Move::at_index(j).wf());
        let f = frontier_cells(b, j);
        let e = empty_cells(b, j);
        assert forall|i: int| 0 <= i < frontier_cells(b, k).len() implies (#[trigger] frontier_cells(b, k)[i]).wf() by {
            if i < f.len() {
                assert(frontier_cells(b, k)[i] == f[i]);
            }
        }
        assert forall|i: int| 0 <= i < empty_cells(b, k).len() implies (#[trigger] empty_cells(b, k)[i]).wf() by {
            if i < e.len() {
                assert(empty_cells(b, k)[i] == e[i]);
            }
        }
    }
}

proof fn lemma_sorted_wf(s: Seq<Move>, last: Move)
    requires
        forall|i: int| 0 <= i < s.len() ==> (#[trigger] s[i]).wf(),
    ensures
        sorted_by_key(s, last).len() == s.len(),
        forall|i: int|
            0 <= i < sorted_by_key(s, last).len() ==> (#[trigger] sorted_by_key(s, last)[i]).wf(),
    decreases s.len(),
{
    if s.len() > 0 {
        let t = s.drop_last();
        assert forall|i: int| 0 <= i < t.len() implies (#[trigger] t[i]).wf() by {
            assert(t[i] == s[i]);
        }
        lemma_sorted_wf(t, last);
        let r = sorted_by_key(t, last);
        let p = insert_pos(r, last, order_key(last, s.last()), 0);
        lemma_insert_pos_range(r, last, order_key(last, s.last()), 0);
        assert(s.last() == s[s.len() - 1]);
        r.insert_ensures(p, s.last());
    }
}

proof fn lemma_insert_pos_range(r: Seq<Move>, last: Move, k: int, p: int)
    requires
        0 <= p,
    ensures
        0 <= insert_pos(r, last, k, p) <= r.len(),
    decreases r.len() - p,
{
    if p < r.len() {
        lemma_insert_pos_range(r, last, k, p + 1);
    }
}

impl Prune for NoPrune {
    open spec fn possible_spec(&self, b: BoardModel, last: Move) -> Seq<Move> {
        or_center(empty_cells(b, 225))
    }

    proof fn lemma_possible_wf(&self, b: BoardModel, last: Move) {
        lemma_cells_wf(b, 225);
    }

    fn possible(&self, board: &Board, mv: Move) -> (r: Vec<Move>) {
        let mut v: Vec<Move> = Vec::new();
        let mut i: usize = 0;
        while i < 225
            invariant
                i <= 225,
                board@.wf(),
                v@ == empty_cells(board@, i as int),
            decreases 225 - i,
        {
            let cell = Move { x: i % 15, y: i / 15 };
            assert(cell == Move::at_index(i as int));
            if board.get(cell) == Stone::Empty {
                v.push(cell);
            }
            i += 1;
        }
        proof {
            lemma_cells_wf(board@, 225);
        }
        if v.len() == 0 {
            vec![Move { x: 7, y: 7 }]
        } else {
            v
        }
    }
}

/// Whether a cell at Chebyshev distance 1 from `m` holds a stone.
fn has_stone_near(board: &Board, m: Move) -> (r: bool)
    requires
        m.wf(),
    ensures
        r == near_stone(board@, m),
{
    let mut k: usize = 0;
    while k < 9
        invariant
            k <= 9,
            m.wf(),
            board@.wf(),
            forall|dx: int, dy: int|
                -1 <= dx <= 1 && -1 <= dy <= 1 && (dx + 1) * 3 + (dy + 1) < k && (dx != 0 || dy
                    != 0) ==> !#[trigger] holds_stone(board@, m.x + dx, m.y + dy),
        decreases 9 - k,
    {
        let dx: i64 = (k / 3) as i64 - 1;
        let dy: i64 = (k % 3) as i64 - 1;
        let x: i64 = m.x as i64 + dx;
        let y: i64 = m.y as i64 + dy;
        if (dx != 0 || dy != 0) && 0 <= x && x < 15 && 0 <= y && y < 15 {
            let cell = Move { x: x as usize, y: y as usize };
            if board.get(cell) != Stone::Empty {
                assert(holds_stone(board@, m.x + dx, m.y + dy));
                return true;
            }
        }
        assert((dx + 1) * 3 + (dy + 1) == k);
        k += 1;
    }
    false
}

/// Chebyshev distance between two cells.
fn chebyshev_dist(mv1: Move, mv2: Move) -> (r: usize)
    ensures
        r == cheb(mv1, mv2),
{
    let dx = if mv1.x >= mv2.x {
        mv1.x - mv2.x
    } else {
        mv2.x - mv1.x
    };
    let dy = if mv1.y >= mv2.y {
        mv1.y - mv2.y
    } else {
        mv2.y - mv1.y
    };
    if dx >= dy {
        dx
    } else {
        dy
    }
}

/// The ordering key of candidate `m` after `last`.
fn order_key_of(last: Move, m: Move) -> (r: usize)
    requires
        last.wf(),
        m.wf(),
    ensures
        r == order_key(last, m),
{
    chebyshev_dist(last, m) * 10 + chebyshev_dist(Move { x: 7, y: 7 }, m)
}

impl Prune for NeighborPrune {
    open spec fn possible_spec(&self, b: BoardModel, last: Move) -> Seq<Move> {
        or_center(sorted_by_key(frontier_cells(b, 225), last))
    }

    proof fn lemma_possible_wf(&self, b: BoardModel, last: Move) {
        lemma_cells_wf(b, 225);
        lemma_sorted_wf(frontier_cells(b, 225), last);
    }

    fn possible(&self, board: &Board, mv: Move) -> (r: Vec<Move>) {
        let mut v: Vec<Move> = Vec::new();
        let mut i: usize = 0;
        while i < 225
            invariant
                i <= 225,
                board@.wf(),
                v@ == frontier_cells(board@, i as int),
            decreases 225 - i,
        {
            let cell = Move { x: i % 15, y: i / 15 };
            assert(cell == Move::at_index(i as int));
            if board.get(cell) == Stone::Empty && has_stone_near(board, cell) {
                v.push(cell);
            }
            i += 1;
        }
        proof {
            lemma_cells_wf(board@, 225);
        }
        // nearest to the last move first, then nearest to the centre
        let mut sorted: Vec<Move> = Vec::new();
        let mut j: usize = 0;
        while j < v.len()
            invariant
                j <= v@.len(),
                v@.len() <= 225,
                mv.wf(),
                forall|i: int| 0 <= i < v@.len() ==> (#[trigger] v@[i]).wf(),
                sorted@ == sorted_by_key(v@.take(j as int), mv),
            decreases v@.len() - j,
        {
            let item = v[j];
            proof {
                let t = v@.take(j as int);
                assert forall|i: int| 0 <= i < t.len() implies (#[trigger] t[i]).wf() by {
                    assert(t[i] == v@[i]);
                }
                lemma_sorted_wf(t, mv);
            }
            let key = order_key_of(mv, item);
            let mut p: usize = 0;
            while p < sorted.len() && order_key_of(mv, sorted[p]) <= key
                invariant
                    p <= sorted@.len(),
                    mv.wf(),
                    forall|i: int| 0 <= i < sorted@.len() ==> (#[trigger] sorted@[i]).wf(),
                    insert_pos(sorted@, mv, key as int, 0) == insert_pos(
                        sorted@,
                        mv,
                        key as int,
                        p as int,
                    ),
                decreases sorted@.len() - p,
            {
                p += 1;
            }
            proof {
                let t = v@.take(j as int + 1);
                assert(t.drop_last() =~= v@.take(j as int));
                assert(t.last() == item);
            }
            sorted.insert(p, item);
            j += 1;
        }
        proof {
            assert(v@.take(v@.len() as int) =~= v@);
            lemma_sorted_wf(v@, mv);
        }
        if sorted.len() == 0 {
            vec![Move { x: 7, y: 7 }]
        } else {
            sorted
        }
    }
}

/// `r` is in ascending `order_key` order.
pub open spec fn keys_ascending(r: Seq<Move>, last: Move) -> bool {
    forall|i: int, j: int| 0 <= i < j < r.len() ==> order_key(last, r[i]) <= order_key(last, r[j])
}

proof fn lemma_insert_pos_bounds(r: Seq<Move>, last: Move, k: int, p: int)
    requires
        0 <= p <= r.len(),
        forall|i: int| 0 <= i < p ==> order_key(last, #[trigger] r[i]) <= k,
    ensures
        p <= insert_pos(r, last, k, p) <= r.len(),
        forall|i: int| 0 <= i < insert_pos(r, last, k, p) ==> order_key(last, #[trigger] r[i]) <= k,
        insert_pos(r, last, k, p) < r.len() ==> order_key(last, r[insert_pos(r, last, k, p)]) > k,
    decreases r.len() - p,
{
    if p < r.len() && order_key(last, r[p]) <= k {
        lemma_insert_pos_bounds(r, last, k, p + 1);
    }
}

proof fn lemma_insert_ascending(r: Seq<Move>, last: Move, p: int, e: Move)
    requires
        keys_ascending(r, last),
        0 <= p <= r.len(),
        forall|i: int| 0 <= i < p ==> order_key(last, #[trigger] r[i]) <= order_key(last, e),
        p < r.len() ==> order_key(last, r[p]) > order_key(last, e),
    ensures
        keys_ascending(r.insert(p, e), last),
{
    let t = r.insert(p, e);
    r.insert_ensures(p, e);
    assert forall|i: int, j: int| 0 <= i < j < t.len() implies order_key(last, t[i]) <= order_key(
        last,
        t[j],
    ) by {
        let ki = if i < p {
            order_key(last, r[i])
        } else if i == p {
            order_key(last, e)
        } else {
            order_key(last, r[i - 1])
        };
        let kj = if j < p {
            order_key(last, r[j])
        } else if j == p {
            order_key(last, e)
        } else {
            order_key(last, r[j - 1])
        };
        assert(order_key(last, t[i]) == ki);
        assert(order_key(last, t[j]) == kj);
        if i == p && j > p {
            assert(order_key(last, r[p]) <= order_key(last, r[j - 1]));
        }
    }
}

/// The stable sort puts candidates in ascending key order.
pub proof fn lemma_sorted_ascending(s: Seq<Move>, last: Move)
    ensures
        keys_ascending(sorted_by_key(s, last), last),
        sorted_by_key(s, last).len() == s.len(),
    decreases s.len(),
{
    if s.len() > 0 {
        let r = sorted_by_key(s.drop_last(), last);
        lemma_sorted_ascending(s.drop_last(), last);
        let e = s.last();
        let k = order_key(last, e);
        lemma_insert_pos_bounds(r, last, k, 0);
        let p = insert_pos(r, last, k, 0);
        lemma_insert_ascending(r, last, p, e);
    }
}

/// The neighbour generator hands out its candidates nearest-first: in
/// ascending order of ten times the distance to the last move plus the
/// distance to the centre.
pub proof fn lemma_neighbor_order(b: BoardModel, last: Move)
    ensures
        keys_ascending(NeighborPrune.possible_spec(b, last), last),
{
    lemma_sorted_ascending(frontier_cells(b, 225), last);
}

proof fn lemma_cells_empty(b: BoardModel, k: int)
    requires
        b.wf(),
        k <= 225,
    ensures
        forall|i: int|
            0 <= i < empty_cells(b, k).len() ==> b.at(#[trigger] empty_cells(b, k)[i])
                == Stone::Empty,
        forall|i: int|
            0 <= i < frontier_cells(b, k).len() ==> b.at(#[trigger] frontier_cells(b, k)[i])
                == Stone::Empty,
    decreases k,
{
    if k > 0 {
        lemma_cells_empty(b, k - 1);
        let j = k - 1;
        assert(Move::at_index(j).index() == j) by (nonlinear_arith)
            requires
                0 <= j < 225,
        ;
        let f = frontier_cells(b, j);
        let e = empty_cells(b, j);
        assert forall|i: int| 0 <= i < frontier_cells(b, k).len() implies b.at(
            #[trigger] frontier_cells(b, k)[i],
        ) == Stone::Empty by {
            if i < f.len() {
                assert(frontier_cells(b, k)[i] == f[i]);
            }
        }
        assert forall|i: int| 0 <= i < empty_cells(b, k).len() implies b.at(
            #[trigger] empty_cells(b, k)[i],
        ) == Stone::Empty by {
            if i < e.len() {
                assert(empty_cells(b, k)[i] == e[i]);
            }
        }
    }
}

proof fn lemma_sorted_members(s: Seq<Move>, last: Move)
    ensures
        forall|i: int|
            0 <= i < sorted_by_key(s, last).len() ==> s.contains(
                #[trigger] sorted_by_key(s, last)[i],
            ),
    decreases s.len(),
{
    if s.len() > 0 {
        let t = s.drop_last();
        lemma_sorted_members(t, last);
        lemma_sorted_ascending(t, last);
        let r = sorted_by_key(t, last);
        let p = insert_pos(r, last, order_key(last, s.last()), 0);
        lemma_insert_pos_range(r, last, order_key(last, s.last()), 0);
        r.insert_ensures(p, s.last());
        assert forall|i: int| 0 <= i < sorted_by_key(s, last).len() implies s.contains(
            #[trigger] sorted_by_key(s, last)[i],
        ) by {
            let u = sorted_by_key(s, last);
            if i == p {
                assert(u[i] == s[s.len() - 1]);
            } else {
                let i2 = if i < p {
                    i
                } else {
                    i - 1
                };
                assert(u[i] == r[i2]);
                assert(t.contains(r[i2]));
                let j = choose|j: int| 0 <= j < t.len() && t[j] == r[i2];
                assert(s[j] == t[j]);
            }
        }
    }
}

/// The exhaustive generator only hands out empty cells, except for the
/// centre when there is none.
pub proof fn lemma_no_prune_empty(b: BoardModel, last: Move)
    requires
        b.wf(),
    ensures
        forall|i: int|
            0 <= i < NoPrune.possible_spec(b, last).len() ==> (#[trigger] NoPrune.possible_spec(
                b,
                last,
            )[i] == center() && empty_cells(b, 225).len() == 0) || b.at(
                NoPrune.possible_spec(b, last)[i],
            ) == Stone::Empty,
{
    lemma_cells_empty(b, 225);
}

/// The neighbour generator only hands out empty cells next to a stone,
/// except for the centre when there is none.
pub proof fn lemma_neighbor_prune_empty(b: BoardModel, last: Move)
    requires
        b.wf(),
    ensures
        forall|i: int|
            0 <= i < NeighborPrune.possible_spec(b, last).len() ==> (
            #[trigger] NeighborPrune.possible_spec(b, last)[i] == center() && frontier_cells(
                b,
                225,
            ).len() == 0) || (b.at(NeighborPrune.possible_spec(b, last)[i]) == Stone::Empty
                && near_stone(b, NeighborPrune.possible_spec(b, last)[i])),
{
    lemma_cells_empty(b, 225);
    lemma_frontier_near(b, 225);
    let f = frontier_cells(b, 225);
    lemma_sorted_members(f, last);
    lemma_sorted_ascending(f, last);
    assert forall|i: int| 0 <= i < sorted_by_key(f, last).len() implies b.at(
        #[trigger] sorted_by_key(f, last)[i],
    ) == Stone::Empty && near_stone(b, sorted_by_key(f, last)[i]) by {
        let m = sorted_by_key(f, last)[i];
        assert(f.contains(m));
        let j = choose|j: int| 0 <= j < f.len() && f[j] == m;
        assert(b.at(f[j]) == Stone::Empty);
        assert(near_stone(b, f[j]));
    }
}

proof fn lemma_frontier_near(b: BoardModel, k: int)
    requires
        k <= 225,
    ensures
        forall|i: int|
            0 <= i < frontier_cells(b, k).len() ==> near_stone(b, #[trigger] frontier_cells(b, k)[i]),
    decreases k,
{
    if k > 0 {
        lemma_frontier_near(b, k - 1);
        let f = frontier_cells(b, k - 1);
        assert forall|i: int| 0 <= i < frontier_cells(b, k).len() implies near_stone(
            b,
            #[trigger] frontier_cells(b, k)[i],
        ) by {
            if i < f.len() {
                assert(frontier_cells(b, k)[i] == f[i]);
            }
        }
    }
}

/// The stable sort only reorders: it holds the same moves, each as often.
pub proof fn lemma_sorted_permutation(s: Seq<Move>, last: Move)
    ensures
        sorted_by_key(s, last).to_multiset() == s.to_multiset(),
    decreases s.len(),
{
    if s.len() > 0 {
        let t = s.drop_last();
        lemma_sorted_permutation(t, last);
        let r = sorted_by_key(t, last);
        let p = insert_pos(r, last, order_key(last, s.last()), 0);
        lemma_insert_pos_range(r, last, order_key(last, s.last()), 0);
        vstd::seq_lib::to_multiset_insert(r, p, s.last());
        t.to_multiset_ensures();
        assert(t.push(s.last()) =~= s);
    }
}

/// The neighbour generator's candidates are exactly the empty cells next to
/// a stone, each once, reordered (or the centre alone when there is none).
pub proof fn lemma_neighbor_permutation(b: BoardModel, last: Move)
    ensures
        frontier_cells(b, 225).len() > 0 ==> NeighborPrune.possible_spec(b, last).to_multiset()
            == frontier_cells(b, 225).to_multiset(),
{
    lemma_sorted_permutation(frontier_cells(b, 225), last);
    lemma_sorted_ascending(frontier_cells(b, 225), last);
}

} // verus!
