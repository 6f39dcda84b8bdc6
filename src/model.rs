//! Move choosers: a depth-limited negamax search with alpha-beta pruning,
//! and a random mover.
use vstd::prelude::*;
use crate::board::{Board, BoardModel, Move, Player, Stone, lemma_board_wf, lemma_put_undo};
use crate::eval::Eval;
use crate::prune::{Prune, cheb};
use crate::rule::{PutError, PutOutcome, Rule, put_spec};
use rand::Rng;

verus! {

broadcast use lemma_board_wf;

/// Bound of every search score; an illegal move scores `-INF`.
pub const INF: i64 = 1000000000000;

/// Score of a win, to which the remaining depth is added so that sooner wins
/// score higher. It lies far above `EVAL_BOUND`, so no heuristic score
/// outweighs a win.
pub const MATE_SCORE: i64 = 10000000;

pub open spec fn max_int(a: int, b: int) -> int {
    if b > a {
        b
    } else {
        a
    }
}

/// What a fail-soft alpha-beta search may return for a node of true value
/// `v` searched with window `(alpha, beta)`: at most `alpha` only when `v`
/// is at most that, at least `beta` only when `v` is at least that, and `v`
/// itself strictly inside the window.
pub open spec fn ab_sound(r: int, alpha: int, beta: int, v: int) -> bool {
    &&& (r <= alpha ==> v <= r)
    &&& (r >= beta ==> v >= r)
    &&& (alpha < r < beta ==> v == r)
}

/// Chooses the next move for the side to move; `None` means it resigns.
pub trait Model {
    /// `r` is an answer this model may give.
    spec fn answers(&self, b: BoardModel, last: Move, r: Option<Move>) -> bool;

    /// The position is one this model can search from.
    spec fn ready(&self, b: BoardModel) -> bool;

    fn next_move(&self, board: &Board, mv: Move) -> (r: Option<Move>)
        requires
            mv.wf(),
            self.ready(board@),
        ensures
            self.answers(board@, mv, r),
    ;
}

/// Plays next to the last move when it can, else at a random empty cell.
#[derive(Debug, Copy, Clone)]
pub struct RandomBaboModel;

/// Negamax search of `depth` plies with alpha-beta pruning.
#[derive(Debug)]
pub struct NegamaxModel<E: Eval, P: Prune, R: Rule> {
    pub depth: u32,
    pub eval: E,
    pub prune: P,
    pub rule: R,
}

/// Relies on rand's `Rng::gen_range` on `thread_rng()`: a value drawn from
/// `0..n`, which it panics on only when the range is empty.
#[verifier::external_body]
fn random_below(n: usize) -> (r: usize)
    requires
        n > 0,
    ensures
        r < n,
{
    rand::thread_rng().gen_range(0..n)
}

/// The step `(dx, dy)` of direction `k`; the neighbour lies at `mv - (dx, dy)`.
pub open spec fn neighbor_delta(k: int) -> (int, int) {
    if k == 0 {
        (1, 1)
    } else if k == 1 {
        (1, 0)
    } else if k == 2 {
        (1, -1)
    } else if k == 3 {
        (0, -1)
    } else if k == 4 {
        (-1, -1)
    } else if k == 5 {
        (-1, 0)
    } else if k == 6 {
        (-1, 1)
    } else {
        (0, 1)
    }
}

/// The neighbour of `mv` in direction `k` (0 to 7), when on the board.
pub open spec fn neighbor_spec(mv: Move, k: int) -> Option<Move> {
    let (dx, dy) = neighbor_delta(k);
    if 0 <= mv.x - dx < 15 && 0 <= mv.y - dy < 15 {
        Some(Move { x: (mv.x - dx) as usize, y: (mv.y - dy) as usize })
    } else {
        None
    }
}

/// Some cell next to `last` is empty.
pub open spec fn has_empty_neighbor(b: BoardModel, last: Move) -> bool {
    exists|m: Move| m.wf() && cheb(last, m) == 1 && #[trigger] b.at(m) == Stone::Empty
}

fn neighbor(mv: Move, k: usize) -> (r: Option<Move>)
    requires
        mv.wf(),
        k < 8,
    ensures
        r == neighbor_spec(mv, k as int),
        r matches Some(m) ==> m.wf() && cheb(mv, m) == 1,
{
    let (dx, dy): (i32, i32) = if k == 0 {
        (1, 1)
    } else if k == 1 {
        (1, 0)
    } else if k == 2 {
        (1, -1)
    } else if k == 3 {
        (0, -1)
    } else if k == 4 {
        (-1, -1)
    } else if k == 5 {
        (-1, 0)
    } else if k == 6 {
        (-1, 1)
    } else {
        (0, 1)
    };
    mv.shift(dx, dy)
}

/// Every cell next to `mv` is the neighbour of some direction.
proof fn lemma_neighbor_direction(mv: Move, m: Move) -> (k: int)
    requires
        mv.wf(),
        m.wf(),
        cheb(mv, m) == 1,
    ensures
        0 <= k < 8,
        neighbor_spec(mv, k) == Some(m),
{
    let dx = mv.x - m.x;
    let dy = mv.y - m.y;
    let k = if dx == 1 && dy == 1 {
        0
    } else if dx == 1 && dy == 0 {
        1
    } else if dx == 1 && dy == -1 {
        2
    } else if dx == 0 && dy == -1 {
        3
    } else if dx == -1 && dy == -1 {
        4
    } else if dx == -1 && dy == 0 {
        5
    } else if dx == -1 && dy == 1 {
        6
    } else {
        7
    };
    k
}

/// Direction `j` steps after `dir`, round the eight.
pub open spec fn rotate(dir: int, j: int) -> int {
    if dir + j >= 8 {
        dir + j - 8
    } else {
        dir + j
    }
}

/// Once every rotated direction has shown a stone or the edge, no cell next
/// to `mv` is empty.
proof fn lemma_all_directions_seen(b: BoardModel, mv: Move, dir: int)
    requires
        mv.wf(),
        b.wf(),
        0 <= dir < 8,
        forall|j: int|
            0 <= j < 8 ==> (#[trigger] neighbor_spec(mv, rotate(dir, j)) matches Some(m) ==> b.at(m)
                != Stone::Empty),
    ensures
        !has_empty_neighbor(b, mv),
{
    if has_empty_neighbor(b, mv) {
        let m = choose|m: Move| m.wf() && cheb(mv, m) == 1 && #[trigger] b.at(m) == Stone::Empty;
        let k = lemma_neighbor_direction(mv, m);
        let j = if k >= dir {
            k - dir
        } else {
            k + 8 - dir
        };
        assert(rotate(dir, j) == k);
        assert(neighbor_spec(mv, rotate(dir, j)) == Some(m));
    }
}

/// The first empty cell next to `mv` met when trying the directions
/// `rotate(dir, j)` for `j` from `from` up to 7.
pub open spec fn near_pick_from(b: BoardModel, mv: Move, dir: int, from: int) -> Option<Move>
    decreases 8 - from,
{
    if from < 0 || from >= 8 {
        None
    } else {
        match neighbor_spec(mv, rotate(dir, from)) {
            Some(m) => if b.at(m) == Stone::Empty {
                Some(m)
            } else {
                near_pick_from(b, mv, dir, from + 1)
            },
            None => near_pick_from(b, mv, dir, from + 1),
        }
    }
}

/// The first empty cell next to `mv`, trying the eight directions from
/// `dir` on, round the eight.
pub open spec fn near_pick(b: BoardModel, mv: Move, dir: int) -> Option<Move> {
    near_pick_from(b, mv, dir, 0)
}

/// The first empty cell next to `mv` in the directions `dir`, `dir + 1`,
/// ... round the eight; `None` when no cell next to `mv` is empty.
pub fn pick_near(board: &Board, mv: Move, dir: usize) -> (r: Option<Move>)
    requires
        mv.wf(),
        dir < 8,
    ensures
        r == near_pick(board@, mv, dir as int),
        r is Some <==> has_empty_neighbor(board@, mv),
        r matches Some(m) ==> m.wf() && cheb(mv, m) == 1 && board@.at(m) == Stone::Empty,
{
    let mut i: usize = 0;
    while i < 8
        invariant
            mv.wf(),
            dir < 8,
            i <= 8,
            board@.wf(),
            near_pick(board@, mv, dir as int) == near_pick_from(board@, mv, dir as int, i as int),
            forall|j: int|
                0 <= j < i ==> (#[trigger] neighbor_spec(mv, rotate(dir as int, j)) matches Some(m)
                    ==> board@.at(m) != Stone::Empty),
        decreases 8 - i,
    {
        let k = if dir + i >= 8 {
            dir + i - 8
        } else {
            dir + i
        };
        let shifted = neighbor(mv, k);
        if let Some(m) = shifted {
            if board.get(m) == Stone::Empty {
                return Some(m);
            }
        }
        i += 1;
    }
    proof {
        lemma_all_directions_seen(board@, mv, dir as int);
    }
    None
}

/// The cell `(x, y)` if it is empty.
pub fn try_cell(board: &Board, x: usize, y: usize) -> (r: Option<Move>)
    requires
        x < 15,
        y < 15,
    ensures
        r == (if board@.at(Move { x, y }) == Stone::Empty {
            Some(Move { x, y })
        } else {
            None
        }),
{
    let m = Move { x, y };
    if board.get(m) == Stone::Empty {
        Some(m)
    } else {
        None
    }
}

impl Model for RandomBaboModel {
    /// An empty cell, or resignation. Whenever a cell next to the last move
    /// is empty, the answer is `near_pick` from some starting direction
    /// (drawn at random), hence such a cell; otherwise it is a randomly
    /// drawn cell that `try_cell` found empty, or resignation.
    open spec fn answers(&self, b: BoardModel, last: Move, r: Option<Move>) -> bool {
        &&& r matches Some(m) ==> m.wf() && b.at(m) == Stone::Empty
        &&& has_empty_neighbor(b, last) ==> exists|d: int| 0 <= d < 8 && r == near_pick(b, last, d)
        &&& has_empty_neighbor(b, last) ==> (r matches Some(m) && cheb(last, m) == 1)
    }

    open spec fn ready(&self, b: BoardModel) -> bool {
        true
    }

    fn next_move(&self, board: &Board, mv: Move) -> (r: Option<Move>) {
        let dir = random_below(8);
        let near = pick_near(board, mv, dir);
        if near.is_some() {
            return near;
        }
        let mut tries: usize = 0;
        while tries < 100
            invariant
                board@.wf(),
                !has_empty_neighbor(board@, mv),
            decreases 100 - tries,
        {
            let cell = try_cell(board, random_below(15), random_below(15));
            if cell.is_some() {
                return cell;
            }
            tries += 1;
        }
        None
    }
}

impl<E: Eval, P: Prune, R: Rule> NegamaxModel<E, P, R> {
    pub fn new(depth: u32, eval: E, prune: P, rule: R) -> (r: Self)
        ensures
            r.depth == depth,
            r.eval == eval,
            r.prune == prune,
            r.rule == rule,
    {
        Self { depth, eval, prune, rule }
    }

    /// Value of a frontier node for the side to move: the evaluator's score
    /// for the side that just moved, negated.
    pub open spec fn leaf(&self, b: BoardModel, mv: Move) -> int {
        -self.eval.eval_spec(b, mv, b.turn().next_spec())
    }

    /// The full-window negamax value of the position `b` reached by `mv`,
    /// searched `d` plies deep, for the side to move.
    pub open spec fn value(&self, b: BoardModel, mv: Move, d: nat) -> int
        decreases d, 2int, 0int,
    {
        if d == 0 {
            self.leaf(b, mv)
        } else {
            let cands = self.prune.possible_spec(b, mv);
            if cands.len() == 0 {
                self.leaf(b, mv)
            } else {
                self.best_of(b, d, cands, cands.len() as int)
            }
        }
    }

    /// The largest child value among the first `k` candidates (`-INF` for none).
    pub open spec fn best_of(&self, b: BoardModel, d: nat, cands: Seq<Move>, k: int) -> int
        decreases d, 1int, k,
    {
        if k <= 0 {
            -INF
        } else {
            max_int(self.best_of(b, d, cands, k - 1), self.child_value(b, d, cands[k - 1]))
        }
    }

    /// Value for the side to move of playing `m` from `b` with `d` plies left:
    /// `-INF` if the rule refuses it, `MATE_SCORE + d` if it wins, 0 for a
    /// draw, else minus the value of the position after it.
    pub open spec fn child_value(&self, b: BoardModel, d: nat, m: Move) -> int
        decreases d, 0int, 0int,
    {
        let p = b.turn();
        match self.put_result(b, m) {
            Err(_) => -INF,
            Ok(PutOutcome::Win) => MATE_SCORE + d,
            Ok(PutOutcome::Draw) => 0,
            Ok(PutOutcome::Continue) => if d > 0 {
                -self.value(b.placed(m, p.stone_spec()), m, (d - 1) as nat)
            } else {
                -self.leaf(b.placed(m, p.stone_spec()), m)
            },
        }
    }

    /// What the rule answers to the side to move playing `m` from `b`.
    pub open spec fn put_result(&self, b: BoardModel, m: Move) -> Result<PutOutcome, PutError> {
        put_spec(
            self.rule.valid_spec(b, m, b.turn()),
            self.rule.winning_spec(b, m, b.turn()),
            b,
            m,
            b.turn(),
        )
    }

    /// The rule lets the side to move play `m`.
    pub open spec fn legal(&self, b: BoardModel, m: Move) -> bool {
        self.put_result(b, m) is Ok
    }

    /// The best legal candidate so far and its value, over the first `k`
    /// candidates: the first legal one is taken, and a later one replaces it
    /// only with a strictly larger value.
    pub open spec fn root_pick(&self, b: BoardModel, cands: Seq<Move>, k: int) -> (int, Option<Move>)
        decreases k,
    {
        if k <= 0 {
            (-INF, None)
        } else {
            let (best, mv) = self.root_pick(b, cands, k - 1);
            let c = cands[k - 1];
            let v = self.child_value(b, self.depth as nat, c);
            if self.legal(b, c) && (mv is None || v > best) {
                (v, Some(c))
            } else {
                (best, mv)
            }
        }
    }

    /// The move this search picks after `last`.
    pub open spec fn best_move(&self, b: BoardModel, last: Move) -> Option<Move> {
        let cands = self.prune.possible_spec(b, last);
        self.root_pick(b, cands, cands.len() as int).1
    }

    proof fn lemma_leaf_bound(&self, b: BoardModel, mv: Move)
        requires
            b.wf(),
            mv.wf(),
        ensures
            -INF <= self.leaf(b, mv) <= INF,
    {
        self.eval.lemma_eval_bound(b, mv, b.turn().next_spec());
    }

    proof fn lemma_value_bound(&self, b: BoardModel, mv: Move, d: nat)
        requires
            b.wf(),
            mv.wf(),
            d <= u32::MAX,
        ensures
            -INF <= self.value(b, mv, d) <= INF,
        decreases d, 2int, 0int,
    {
        self.lemma_leaf_bound(b, mv);
        if d > 0 {
            let cands = self.prune.possible_spec(b, mv);
            self.prune.lemma_possible_wf(b, mv);
            self.lemma_best_bound(b, d, cands, cands.len() as int);
        }
    }

    proof fn lemma_best_bound(&self, b: BoardModel, d: nat, cands: Seq<Move>, k: int)
        requires
            b.wf(),
            d <= u32::MAX,
            k <= cands.len(),
            forall|i: int| 0 <= i < cands.len() ==> (#[trigger] cands[i]).wf(),
        ensures
            -INF <= self.best_of(b, d, cands, k) <= INF,
        decreases d, 1int, k,
    {
        if k > 0 {
            self.lemma_best_bound(b, d, cands, k - 1);
            self.lemma_child_bound(b, d, cands[k - 1]);
        }
    }

    proof fn lemma_child_bound(&self, b: BoardModel, d: nat, m: Move)
        requires
            b.wf(),
            m.wf(),
            d <= u32::MAX,
        ensures
            -INF <= self.child_value(b, d, m) <= INF,
        decreases d, 0int, 0int,
    {
        let nb = b.placed(m, b.turn().stone_spec());
        if d > 0 {
            self.lemma_value_bound(nb, m, (d - 1) as nat);
        } else {
            self.lemma_leaf_bound(nb, m);
        }
    }

    proof fn lemma_best_of_monotone(&self, b: BoardModel, d: nat, cands: Seq<Move>, j: int, k: int)
        requires
            j <= k,
        ensures
            self.best_of(b, d, cands, j) <= self.best_of(b, d, cands, k),
        decreases k - j,
    {
        if j < k {
            self.lemma_best_of_monotone(b, d, cands, j, k - 1);
        }
    }

    /// Frontier value of the position reached by `mv`.
    fn leaf_value(&self, board: &Board, mv: Move) -> (r: i64)
        requires
            mv.wf(),
        ensures
            r == self.leaf(board@, mv),
            -INF <= r <= INF,
    {
        let e = self.eval.eval(board, mv, board.turn().next());
        proof {
            self.eval.lemma_eval_bound(board@, mv, board@.turn().next_spec());
        }
        -e
    }

    /// Alpha-beta negamax: searches the position reached by `mv` `d` plies
    /// deep within the window `(alpha, beta)` and leaves the board as it was.
    /// Inside the window the result is the full-window value; below or above
    /// it, the result is a bound on that value on the same side, so pruning
    /// never changes a decision. At the frontier (no depth left, or no
    /// candidate) it is the frontier value itself.
    pub fn negamax(&self, board: &mut Board, d: u32, alpha: i64, beta: i64, mv: Move) -> (r: i64)
        requires
            mv.wf(),
            -INF <= alpha < beta <= INF,
            old(board)@.ply + d < u32::MAX,
        ensures
            final(board)@ == old(board)@,
            -INF <= r <= INF,
            ab_sound(r as int, alpha as int, beta as int, self.value(old(board)@, mv, d as nat)),
            d == 0 || self.prune.possible_spec(old(board)@, mv).len() == 0 ==> r == self.leaf(
                old(board)@,
                mv,
            ),
        decreases d, 2int,
    {
        if d == 0 {
            return self.leaf_value(board, mv);
        }
        let possible = self.prune.possible(board, mv);
        if possible.len() == 0 {
            return self.leaf_value(board, mv);
        }
        let ghost b = board@;
        let ghost cands = possible@;
        let mut max: i64 = -INF;
        let mut a: i64 = alpha;
        let mut i: usize = 0;
        while i < possible.len()
            invariant
                board@ == b,
                b == old(board)@,
                cands == possible@,
                cands == self.prune.possible_spec(b, mv),
                forall|j: int| 0 <= j < cands.len() ==> (#[trigger] cands[j]).wf(),
                0 < d,
                b.ply + d < u32::MAX,
                i <= cands.len(),
                -INF <= alpha < beta <= INF,
                -INF <= max <= INF,
                a == max_int(alpha as int, max as int),
                a < beta,
                self.best_of(b, d as nat, cands, i as int) <= max,
                max > alpha ==> self.best_of(b, d as nat, cands, i as int) == max,
            decreases cands.len() - i,
        {
            let m = possible[i];
            let eval = match self.eval_after_move(board, d, a, beta, m) {
                Some(v) => v,
                None => -INF,
            };
            proof {
                assert(self.best_of(b, d as nat, cands, i as int + 1) == max_int(
                    self.best_of(b, d as nat, cands, i as int),
                    self.child_value(b, d as nat, m),
                ));
            }
            if eval > max {
                max = eval;
            }
            if eval > a {
                a = eval;
            }
            if a >= beta {
                proof {
                    self.lemma_best_of_monotone(b, d as nat, cands, i as int + 1, cands.len() as int);
                }
                return max;
            }
            i += 1;
        }
        max
    }

    /// Plays `mv` for the side to move, scores it with `d` plies left within
    /// the window `(alpha, beta)`, and takes it back; `None` when the rule
    /// refuses the move (the board is then untouched). A win scores exactly
    /// `MATE_SCORE + d` and a draw exactly 0.
    fn eval_after_move(&self, board: &mut Board, d: u32, alpha: i64, beta: i64, mv: Move) -> (r: Option<i64>)
        requires
            mv.wf(),
            -INF <= alpha < beta <= INF,
            old(board)@.ply + d < u32::MAX,
        ensures
            final(board)@ == old(board)@,
            r is None <==> self.put_result(old(board)@, mv) is Err,
            r matches Some(v) ==> -INF <= v <= INF && ab_sound(
                v as int,
                alpha as int,
                beta as int,
                self.child_value(old(board)@, d as nat, mv),
            ),
            self.put_result(old(board)@, mv) == Ok::<PutOutcome, PutError>(PutOutcome::Win) ==> r
                == Some((MATE_SCORE + d) as i64),
            self.put_result(old(board)@, mv) == Ok::<PutOutcome, PutError>(PutOutcome::Draw) ==> r
                == Some(0i64),
        decreases d, 1int,
    {
        let ghost b = board@;
        let turn = board.turn();
        let result = self.rule.put(board, mv, turn);
        match result {
            Ok(outcome) => {
                let value = match outcome {
                    PutOutcome::Continue => {
                        if d > 0 {
                            let v = self.negamax(board, d - 1, -beta, -alpha, mv);
                            -v
                        } else {
                            let v = self.leaf_value(board, mv);
                            -v
                        }
                    },
                    PutOutcome::Win => MATE_SCORE + d as i64,
                    PutOutcome::Draw => 0,
                };
                proof {
                    lemma_put_undo(b, mv, turn.stone_spec());
                }
                board.undo(mv);
                Some(value)
            },
            Err(_) => None,
        }
    }
}

impl<E: Eval, P: Prune, R: Rule> Model for NegamaxModel<E, P, R> {
    /// Exactly the first legal candidate with the largest full-window
    /// negamax value; resignation only when no candidate is legal. The
    /// alpha-beta search below reaches it: pruning never changes the move.
    open spec fn answers(&self, b: BoardModel, last: Move, r: Option<Move>) -> bool {
        r == self.best_move(b, last)
    }

    open spec fn ready(&self, b: BoardModel) -> bool {
        b.ply + self.depth < u32::MAX
    }

    fn next_move(&self, board: &Board, mv: Move) -> (r: Option<Move>) {
        let mut best: i64 = -INF;
        let mut best_mv: Option<Move> = None;
        let mut clone_board = *board;
        let possible = self.prune.possible(board, mv);
        let ghost b = board@;
        let ghost cands = possible@;
        let mut i: usize = 0;
        while i < possible.len()
            invariant
                clone_board@ == b,
                cands == possible@,
                cands == self.prune.possible_spec(b, mv),
                forall|j: int| 0 <= j < cands.len() ==> (#[trigger] cands[j]).wf(),
                b.ply + self.depth < u32::MAX,
                b.wf(),
                i <= cands.len(),
                self.root_pick(b, cands, i as int) == (best as int, best_mv),
            decreases cands.len() - i,
        {
            let m = possible[i];
            let scored = self.eval_after_move(&mut clone_board, self.depth, -INF, INF, m);
            proof {
                self.lemma_child_bound(b, self.depth as nat, m);
            }
            if let Some(eval) = scored {
                if best_mv.is_none() || eval > best {
                    best = eval;
                    best_mv = Some(m);
                }
            }
            i += 1;
        }
        best_mv
    }
}

/// On a board with no empty cell every candidate is refused, so the search
/// resigns.
pub proof fn lemma_full_board_resigns<E: Eval, P: Prune, R: Rule>(
    model: NegamaxModel<E, P, R>,
    b: BoardModel,
    last: Move,
)
    requires
        b.wf(),
        b.is_full(),
    ensures
        model.best_move(b, last) == None::<Move>,
{
    let cands = model.prune.possible_spec(b, last);
    model.prune.lemma_possible_wf(b, last);
    lemma_root_pick_full(model, b, cands, cands.len() as int);
}

proof fn lemma_root_pick_full<E: Eval, P: Prune, R: Rule>(
    model: NegamaxModel<E, P, R>,
    b: BoardModel,
    cands: Seq<Move>,
    k: int,
)
    requires
        b.wf(),
        b.is_full(),
        k <= cands.len(),
        forall|i: int| 0 <= i < cands.len() ==> (#[trigger] cands[i]).wf(),
    ensures
        model.root_pick(b, cands, k).1 == None::<Move>,
    decreases k,
{
    if k > 0 {
        lemma_root_pick_full(model, b, cands, k - 1);
        let m = cands[k - 1];
        assert(b.cells[m.index()] != Stone::Empty);
    }
}

/// A winning move scores above every frontier evaluation: win scores and
/// heuristic scores never overlap.
pub proof fn lemma_win_outscores_heuristics<E: Eval, P: Prune, R: Rule>(
    model: NegamaxModel<E, P, R>,
    b: BoardModel,
    d: nat,
    m: Move,
    other: BoardModel,
    last: Move,
)
    requires
        other.wf(),
        last.wf(),
        model.put_result(b, m) == Ok::<PutOutcome, PutError>(PutOutcome::Win),
    ensures
        model.child_value(b, d, m) > model.leaf(other, last),
        model.child_value(b, d, m) > crate::eval::EVAL_BOUND,
{
    model.eval.lemma_eval_bound(other, last, other.turn().next_spec());
}

proof fn lemma_root_pick_legal<E: Eval, P: Prune, R: Rule>(
    model: NegamaxModel<E, P, R>,
    b: BoardModel,
    cands: Seq<Move>,
    k: int,
)
    requires
        0 <= k <= cands.len(),
    ensures
        model.root_pick(b, cands, k).1 is None <==> forall|i: int|
            0 <= i < k ==> !model.legal(b, #[trigger] cands[i]),
        model.root_pick(b, cands, k).1 matches Some(c) ==> model.legal(b, c) && cands.contains(c),
    decreases k,
{
    if k > 0 {
        lemma_root_pick_legal(model, b, cands, k - 1);
        if model.root_pick(b, cands, k - 1).1 is None && !model.legal(b, cands[k - 1]) {
            assert forall|i: int| 0 <= i < k implies !model.legal(b, #[trigger] cands[i]) by {
                if i < k - 1 {
                }
            }
        }
    }
}

/// The search resigns exactly when no candidate is legal, and any move it
/// picks is a legal candidate.
pub proof fn lemma_resigns_only_without_legal_move<E: Eval, P: Prune, R: Rule>(
    model: NegamaxModel<E, P, R>,
    b: BoardModel,
    last: Move,
)
    ensures
        model.best_move(b, last) is None <==> forall|i: int|
            0 <= i < model.prune.possible_spec(b, last).len() ==> !model.legal(
                b,
                #[trigger] model.prune.possible_spec(b, last)[i],
            ),
        model.best_move(b, last) matches Some(c) ==> model.legal(b, c)
            && model.prune.possible_spec(b, last).contains(c),
{
    let cands = model.prune.possible_spec(b, last);
    lemma_root_pick_legal(model, b, cands, cands.len() as int);
}

} // verus!
