//! The placement rules: legality (no double open three), win detection
//! (exactly five in a row) and the placement itself.
use vstd::prelude::*;
use crate::board::{Board, BoardModel, Move, Player, Stone, lemma_board_wf};

verus! {

broadcast use lemma_board_wf;

/// A step between neighbouring cells: each component in -1..=1, not both 0.
pub open spec fn unit_dir(dx: int, dy: int) -> bool {
    -1 <= dx <= 1 && -1 <= dy <= 1 && (dx != 0 || dy != 0)
}

/// How many more steps of `-(dx, dy)` can be taken from `(x, y)` at most
/// before leaving the board.
pub open spec fn steps_left(x: int, y: int, dx: int, dy: int) -> int {
    (if dx > 0 { x } else if dx < 0 { 14 - x } else { 0 }) + (if dy > 0 {
        y
    } else if dy < 0 {
        14 - y
    } else {
        0
    })
}

/// Number of consecutive `s` stones met when walking from `(x, y)` (not
/// included) in steps of `-(dx, dy)`.
pub open spec fn side_count(b: BoardModel, x: int, y: int, dx: int, dy: int, s: Stone) -> nat
    decreases steps_left(x, y, dx, dy),
    when unit_dir(dx, dy) && 0 <= x < 15 && 0 <= y < 15
{
    match b.at_xy(x - dx, y - dy) {
        Some(t) => if t == s {
            1 + side_count(b, x - dx, y - dy, dx, dy, s)
        } else {
            0
        },
        None => 0,
    }
}

/// Whether the walk of `side_count` ends on an empty cell (rather than on
/// the edge or on a stone of another colour).
pub open spec fn side_open(b: BoardModel, x: int, y: int, dx: int, dy: int, s: Stone) -> bool
    decreases steps_left(x, y, dx, dy),
    when unit_dir(dx, dy) && 0 <= x < 15 && 0 <= y < 15
{
    match b.at_xy(x - dx, y - dy) {
        Some(t) => if t == s {
            side_open(b, x - dx, y - dy, dx, dy, s)
        } else {
            t == Stone::Empty
        },
        None => false,
    }
}

/// Length of the run through `mv` along `(dx, dy)`, counting `mv` itself as
/// holding a stone of `p`.
pub open spec fn line_len(b: BoardModel, mv: Move, p: Player, dx: int, dy: int) -> nat {
    1 + side_count(b, mv.x as int, mv.y as int, dx, dy, p.stone_spec()) + side_count(
        b,
        mv.x as int,
        mv.y as int,
        -dx,
        -dy,
        p.stone_spec(),
    )
}

/// How many ends of the run through `mv` along `(dx, dy)` touch an empty cell.
pub open spec fn line_open(b: BoardModel, mv: Move, p: Player, dx: int, dy: int) -> OpenType {
    let o1 = side_open(b, mv.x as int, mv.y as int, dx, dy, p.stone_spec());
    let o2 = side_open(b, mv.x as int, mv.y as int, -dx, -dy, p.stone_spec());
    if o1 && o2 {
        OpenType::Open
    } else if o1 != o2 {
        OpenType::HalfOpen
    } else {
        OpenType::Closed
    }
}

/// The four line directions, in the order they are checked.
pub open spec fn dir_delta(i: int) -> (int, int) {
    if i == 0 {
        (1, 0)
    } else if i == 1 {
        (0, 1)
    } else if i == 2 {
        (1, 1)
    } else {
        (1, -1)
    }
}

pub open spec fn dir_line_len(b: BoardModel, mv: Move, p: Player, i: int) -> nat {
    line_len(b, mv, p, dir_delta(i).0, dir_delta(i).1)
}

/// The run through `mv` in direction `i` is an open three.
pub open spec fn open_three(b: BoardModel, mv: Move, p: Player, i: int) -> bool {
    dir_line_len(b, mv, p, i) == 3 && line_open(b, mv, p, dir_delta(i).0, dir_delta(i).1)
        == OpenType::Open
}

/// Number of open threes through `mv` among the first `k` directions.
pub open spec fn open_threes(b: BoardModel, mv: Move, p: Player, k: int) -> int
    decreases k,
{
    if k <= 0 {
        0
    } else {
        open_threes(b, mv, p, k - 1) + if open_three(b, mv, p, k - 1) {
            1int
        } else {
            0
        }
    }
}

/// `p` may play `mv`: the stone would not make two open threes at once.
pub open spec fn omok_valid(b: BoardModel, mv: Move, p: Player) -> bool {
    open_threes(b, mv, p, 4) < 2
}

/// A stone of `p` at `mv` makes a run of exactly five in some direction.
pub open spec fn omok_winning(b: BoardModel, mv: Move, p: Player) -> bool {
    exists|i: int| 0 <= i < 4 && #[trigger] dir_line_len(b, mv, p, i) == 5
}

/// What `check` reports for a placement that has not happened yet.
pub open spec fn check_spec(valid: bool, winning: bool, b: BoardModel, mv: Move, p: Player) -> CheckResult {
    if !valid {
        CheckResult::Invalid
    } else if winning {
        CheckResult::Win(p)
    } else if b.placed(mv, p.stone_spec()).is_full() {
        CheckResult::Draw
    } else {
        CheckResult::LooksGood
    }
}

/// The outcome of `put`, given the rule's verdicts on the placement.
pub open spec fn put_spec(valid: bool, winning: bool, b: BoardModel, mv: Move, p: Player) -> Result<PutOutcome, PutError> {
    if b.at(mv) != Stone::Empty {
        Err(PutError::Occupied)
    } else {
        match check_spec(valid, winning, b, mv, p) {
            CheckResult::Invalid => Err(PutError::Forbidden),
            CheckResult::Win(_) => Ok(PutOutcome::Win),
            CheckResult::Draw => Ok(PutOutcome::Draw),
            CheckResult::LooksGood => Ok(PutOutcome::Continue),
        }
    }
}

/// The result of a placement that went through.
#[derive(Debug, Copy, Clone, PartialEq, Eq, Structural)]
pub enum PutOutcome {
    Continue,
    Win,
    Draw,
}

/// Why a placement was refused.
#[derive(Debug, Copy, Clone, PartialEq, Eq, Structural)]
pub enum PutError {
    Occupied,
    Forbidden,
}

/// The rule's verdict on a placement before it is made.
#[derive(Debug, Copy, Clone, PartialEq, Eq, Structural)]
pub enum CheckResult {
    LooksGood,
    Invalid,
    Win(Player),
    Draw,
}

/// How many ends of a run touch an empty cell.
#[derive(Debug, Copy, Clone, PartialEq, Eq, Structural)]
pub enum OpenType {
    Open,
    HalfOpen,
    Closed,
}

/// The four line directions.
#[derive(Debug, Copy, Clone, PartialEq, Eq, Structural)]
pub enum Direction {
    Horizontal,
    Vertical,
    DiagDown,
    DiagUp,
}

impl Direction {
    pub open spec fn index(self) -> int {
        match self {
            Direction::Horizontal => 0,
            Direction::Vertical => 1,
            Direction::DiagDown => 2,
            Direction::DiagUp => 3,
        }
    }

    /// The step between neighbouring cells of a line in this direction.
    pub fn delta(&self) -> (r: (i32, i32))
        ensures
            r.0 as int == dir_delta(self.index()).0,
            r.1 as int == dir_delta(self.index()).1,
    {
        match self {
            Direction::Horizontal => (1, 0),
            Direction::Vertical => (0, 1),
            Direction::DiagDown => (1, 1),
            Direction::DiagUp => (1, -1),
        }
    }
}

/// The direction checked at position `i` of the fixed order.
fn direction(i: usize) -> (r: Direction)
    requires
        i < 4,
    ensures
        r.index() == i,
{
    if i == 0 {
        Direction::Horizontal
    } else if i == 1 {
        Direction::Vertical
    } else if i == 2 {
        Direction::DiagDown
    } else {
        Direction::DiagUp
    }
}

/// `b` with `mv` filled has no empty cell left.
fn full_after(board: &Board, mv: Move) -> (r: bool)
    requires
        mv.wf(),
    ensures
        r == (forall|i: int| 0 <= i < 225 && i != mv.index() ==> board@.cells[i] != Stone::Empty),
{
    let mut i: usize = 0;
    while i < 225
        invariant
            mv.wf(),
            board@.wf(),
            forall|j: int| 0 <= j < i && j != mv.index() ==> board@.cells[j] != Stone::Empty,
        decreases 225 - i,
    {
        let cell = Move { x: i % 15, y: i / 15 };
        assert(cell.index() == i);
        if i != mv.y * 15 + mv.x && board.get(cell) == Stone::Empty {
            return false;
        }
        i += 1;
    }
    true
}

/// A placement rule: which placements are allowed and which ones win.
pub trait Rule {
    /// Whether `p` may put a stone at the empty cell `mv`.
    spec fn valid_spec(&self, b: BoardModel, mv: Move, p: Player) -> bool;

    /// Whether a stone of `p` at `mv` wins.
    spec fn winning_spec(&self, b: BoardModel, mv: Move, p: Player) -> bool;

    fn is_valid(&self, board: &Board, mv: Move, player: Player) -> (r: bool)
        requires
            mv.wf(),
        ensures
            r == self.valid_spec(board@, mv, player),
    ;

    fn is_winning(&self, board: &Board, mv: Move, player: Player) -> (r: bool)
        requires
            mv.wf(),
        ensures
            r == self.winning_spec(board@, mv, player),
    ;

    /// The verdict on putting a stone of `player` at `mv`, before it is put:
    /// forbidden, winning, filling the board, or none of these.
    fn check(&self, board: &Board, mv: Move, player: Player) -> (r: CheckResult)
        requires
            mv.wf(),
        ensures
            r == check_spec(
                self.valid_spec(board@, mv, player),
                self.winning_spec(board@, mv, player),
                board@,
                mv,
                player,
            ),
    {
        let valid = self.is_valid(board, mv, player);
        if !valid {
            return CheckResult::Invalid;
        }
        let winning = self.is_winning(board, mv, player);
        if winning {
            return CheckResult::Win(player);
        }
        if full_after(board, mv) {
            proof {
                let nb = board@.placed(mv, player.stone_spec());
                assert(forall|i: int| 0 <= i < 225 ==> nb.cells[i] != Stone::Empty);
            }
            return CheckResult::Draw;
        }
        proof {
            let nb = board@.placed(mv, player.stone_spec());
            let i = choose|i: int|
                0 <= i < 225 && i != mv.index() && board@.cells[i] == Stone::Empty;
            assert(nb.cells[i] == Stone::Empty);
        }
        CheckResult::LooksGood
    }

    /// Puts a stone of `player` at `mv` if the cell is empty and the rule
    /// allows it, passing the turn; the board is left as it was otherwise.
    fn put(&self, board: &mut Board, mv: Move, player: Player) -> (r: Result<PutOutcome, PutError>)
        requires
            mv.wf(),
            old(board)@.ply < u32::MAX,
        ensures
            r == put_spec(
                self.valid_spec(old(board)@, mv, player),
                self.winning_spec(old(board)@, mv, player),
                old(board)@,
                mv,
                player,
            ),
            r is Ok ==> final(board)@ == old(board)@.placed(mv, player.stone_spec()),
            r is Err ==> final(board)@ == old(board)@,
    {
        if board.get(mv) != Stone::Empty {
            return Err(PutError::Occupied);
        }
        let check = self.check(board, mv, player);
        match check {
            CheckResult::Invalid => Err(PutError::Forbidden),
            result => {
                board.put_force(mv, player.to_stone());
                Ok(
                    match result {
                        CheckResult::Win(_) => PutOutcome::Win,
                        CheckResult::Draw => PutOutcome::Draw,
                        _ => PutOutcome::Continue,
                    },
                )
            },
        }
    }
}

/// The Omok rule: two open threes made by one stone are forbidden, and only
/// a run of exactly five wins (six or more does not).
#[derive(Debug, Copy, Clone)]
pub struct OmokRule;

impl OmokRule {
    /// Walks from `mv` in steps of `-(dx, dy)` and counts the `stone`s met,
    /// reporting whether the walk stopped at an empty cell.
    fn count_one_side(board: &Board, mv: Move, stone: Stone, dx: i32, dy: i32) -> (r: (u32, bool))
        requires
            mv.wf(),
            unit_dir(dx as int, dy as int),
        ensures
            r.0 == side_count(board@, mv.x as int, mv.y as int, dx as int, dy as int, stone),
            r.0 <= 28,
            r.1 == side_open(board@, mv.x as int, mv.y as int, dx as int, dy as int, stone),
    {
        let mut point = mv;
        let mut cnt: u32 = 0;
        let mut open = false;
        assert(steps_left(mv.x as int, mv.y as int, dx as int, dy as int) <= 28);
        loop
            invariant_except_break
                !open,
                mv.wf(),
                point.wf(),
                board@.wf(),
                unit_dir(dx as int, dy as int),
                cnt + steps_left(point.x as int, point.y as int, dx as int, dy as int)
                    <= steps_left(mv.x as int, mv.y as int, dx as int, dy as int),
                side_count(board@, mv.x as int, mv.y as int, dx as int, dy as int, stone) == cnt
                    + side_count(board@, point.x as int, point.y as int, dx as int, dy as int, stone),
                side_open(board@, mv.x as int, mv.y as int, dx as int, dy as int, stone)
                    == side_open(board@, point.x as int, point.y as int, dx as int, dy as int, stone),
            ensures
                cnt <= 28,
                cnt == side_count(board@, mv.x as int, mv.y as int, dx as int, dy as int, stone),
                open == side_open(board@, mv.x as int, mv.y as int, dx as int, dy as int, stone),
            decreases steps_left(point.x as int, point.y as int, dx as int, dy as int),
        {
            let shifted = point.shift(dx, dy);
            let ghost prev = point;
            match shifted {
                Some(next) => {
                    assert(next.index() == (point.y - dy) * 15 + (point.x - dx));
                    point = next;
                },
                None => {
                    assert(!side_open(board@, point.x as int, point.y as int, dx as int, dy as int, stone));
                    assert(side_count(board@, point.x as int, point.y as int, dx as int, dy as int, stone) == 0);
                    break ;
                },
            }
            let item = board.get(point);
            proof {
                let (px, py) = (prev.x as int, prev.y as int);
                let (ddx, ddy) = (dx as int, dy as int);
                assert(board@.at_xy(px - ddx, py - ddy) == Some(item));
                assert(side_count(board@, px, py, ddx, ddy, stone) == if item == stone {
                    1 + side_count(board@, point.x as int, point.y as int, ddx, ddy, stone)
                } else {
                    0
                });
                assert(side_open(board@, px, py, ddx, ddy, stone) == if item == stone {
                    side_open(board@, point.x as int, point.y as int, ddx, ddy, stone)
                } else {
                    item == Stone::Empty
                });
            }
            if item == stone {
                cnt += 1;
            } else if item == Stone::Empty {
                open = true;
                break ;
            } else {
                break ;
            }
        }
        (cnt, open)
    }

    /// Length and openness of the run that a stone of `player` at `mv`
    /// would make along `(dx, dy)`.
    fn line_count(board: &Board, mv: Move, player: Player, dx: i32, dy: i32) -> (r: (u32, OpenType))
        requires
            mv.wf(),
            unit_dir(dx as int, dy as int),
        ensures
            r.0 == line_len(board@, mv, player, dx as int, dy as int),
            r.1 == line_open(board@, mv, player, dx as int, dy as int),
    {
        let stone = player.to_stone();
        let (cnt1, open1) = Self::count_one_side(board, mv, stone, dx, dy);
        let (cnt2, open2) = Self::count_one_side(board, mv, stone, -dx, -dy);
        let open_type = if open1 && open2 {
            OpenType::Open
        } else if open1 ^ open2 {
            OpenType::HalfOpen
        } else {
            OpenType::Closed
        };
        (cnt1 + cnt2 + 1, open_type)
    }
}

impl Rule for OmokRule {
    open spec fn valid_spec(&self, b: BoardModel, mv: Move, p: Player) -> bool {
        omok_valid(b, mv, p)
    }

    open spec fn winning_spec(&self, b: BoardModel, mv: Move, p: Player) -> bool {
        omok_winning(b, mv, p)
    }

    /// Forbids a stone that makes open threes in two directions.
    fn is_valid(&self, board: &Board, mv: Move, player: Player) -> (r: bool) {
        let mut already_sam = false;
        let mut i: usize = 0;
        while i < 4
            invariant
                mv.wf(),
                0 <= i <= 4,
                0 <= open_threes(board@, mv, player, i as int) <= 1,
                already_sam == (open_threes(board@, mv, player, i as int) == 1),
            decreases 4 - i,
        {
            let (dx, dy) = direction(i).delta();
            let (cnt, open) = Self::line_count(board, mv, player, dx, dy);
            if cnt == 3 && open == OpenType::Open {
                if !already_sam {
                    already_sam = true;
                } else {
                    proof {
                        lemma_open_threes_monotone(board@, mv, player, i as int + 1, 4);
                    }
                    return false;
                }
            }
            i += 1;
        }
        true
    }

    /// Wins when some direction makes a run of exactly five.
    fn is_winning(&self, board: &Board, mv: Move, player: Player) -> (r: bool) {
        let mut i: usize = 0;
        while i < 4
            invariant
                mv.wf(),
                0 <= i <= 4,
                forall|j: int| 0 <= j < i ==> #[trigger] dir_line_len(board@, mv, player, j) != 5,
            decreases 4 - i,
        {
            let (dx, dy) = direction(i).delta();
            let (cnt, _) = Self::line_count(board, mv, player, dx, dy);
            if cnt == 5 {
                assert(dir_line_len(board@, mv, player, i as int) == 5);
                return true;
            }
            i += 1;
        }
        false
    }
}

proof fn lemma_open_threes_monotone(b: BoardModel, mv: Move, p: Player, j: int, k: int)
    requires
        0 <= j <= k,
    ensures
        open_threes(b, mv, p, j) <= open_threes(b, mv, p, k),
    decreases k - j,
{
    if j < k {
        lemma_open_threes_monotone(b, mv, p, j, k - 1);
    }
}

/// A stone of `p` put next to five stones of `p` in a row makes a run of at
/// least six in that direction, which is never counted as five: extending a
/// five is no win in that direction.
pub proof fn lemma_overline_not_five(b: BoardModel, mv: Move, p: Player, dx: int, dy: int)
    requires
        b.wf(),
        mv.wf(),
        unit_dir(dx, dy),
        forall|k: int|
            1 <= k <= 5 ==> #[trigger] b.at_xy(mv.x - k * dx, mv.y - k * dy) == Some(
                p.stone_spec(),
            ),
    ensures
        line_len(b, mv, p, dx, dy) >= 6,
        line_len(b, mv, p, dx, dy) != 5,
{
    let s = p.stone_spec();
    let (x, y) = (mv.x as int, mv.y as int);
    assert(b.at_xy(x - 1 * dx, y - 1 * dy) == Some(s));
    assert(b.at_xy(x - 2 * dx, y - 2 * dy) == Some(s));
    assert(b.at_xy(x - 3 * dx, y - 3 * dy) == Some(s));
    assert(b.at_xy(x - 4 * dx, y - 4 * dy) == Some(s));
    assert(b.at_xy(x - 5 * dx, y - 5 * dy) == Some(s));
    assert(side_count(b, x - 4 * dx, y - 4 * dy, dx, dy, s) >= 1);
    assert(side_count(b, x - 3 * dx, y - 3 * dy, dx, dy, s) >= 2);
    assert(side_count(b, x - 2 * dx, y - 2 * dy, dx, dy, s) >= 3);
    assert(side_count(b, x - dx, y - dy, dx, dy, s) >= 4);
    assert(side_count(b, x, y, dx, dy, s) >= 5);
}

/// A stone that makes open threes in two different directions at once is
/// forbidden.
pub proof fn lemma_double_three_forbidden(b: BoardModel, mv: Move, p: Player, i: int, j: int)
    requires
        0 <= i < j < 4,
        open_three(b, mv, p, i),
        open_three(b, mv, p, j),
    ensures
        !omok_valid(b, mv, p),
{
    lemma_open_threes_monotone(b, mv, p, i + 1, j);
    lemma_open_threes_monotone(b, mv, p, 0, i);
    lemma_open_threes_monotone(b, mv, p, j + 1, 4);
    assert(open_threes(b, mv, p, i + 1) >= 1);
    assert(open_threes(b, mv, p, j + 1) >= 2);
}

} // verus!
