//! Position evaluators: a cheap one that only looks for a five through the
//! last move, and one that scores every run of stones on the board.
use vstd::prelude::*;
use crate::board::{Board, BoardModel, Move, Player, Stone, lemma_board_wf};
use crate::rule::{Rule, unit_dir};

verus! {

broadcast use lemma_board_wf;

/// No evaluator returns a score of larger magnitude; the search's win scores
/// lie far above it.
pub const EVAL_BOUND: i64 = 3000000;

/// Scores a position; higher is better for `player`.
pub trait Eval {
    spec fn eval_spec(&self, b: BoardModel, mv: Move, p: Player) -> int;

    proof fn lemma_eval_bound(&self, b: BoardModel, mv: Move, p: Player)
        requires
            b.wf(),
            mv.wf(),
        ensures
            -EVAL_BOUND <= self.eval_spec(b, mv, p) <= EVAL_BOUND,
    ;

    fn eval(&self, board: &Board, mv: Move, player: Player) -> (r: i64)
        requires
            mv.wf(),
        ensures
            r == self.eval_spec(board@, mv, player),
    ;
}

/// Looks only for a five through `mv`: 1000 when `player` has one, -1000
/// when the opponent has one, 0 otherwise.
#[derive(Debug)]
pub struct BaboEval<R: Rule> {
    pub rule: R,
}

/// Scores the runs of stones on the whole board, whatever the last move.
#[derive(Debug)]
pub struct PatternEval<R: Rule> {
    pub rule: R,
}

impl<R: Rule> Eval for BaboEval<R> {
    open spec fn eval_spec(&self, b: BoardModel, mv: Move, p: Player) -> int {
        if self.rule.winning_spec(b, mv, p) {
            1000
        } else if self.rule.winning_spec(b, mv, p.next_spec()) {
            -1000
        } else {
            0
        }
    }

    proof fn lemma_eval_bound(&self, b: BoardModel, mv: Move, p: Player) {
    }

    fn eval(&self, board: &Board, mv: Move, player: Player) -> (r: i64) {
        let winning_player = self.rule.is_winning(board, mv, player);
        if winning_player {
            return 1000;
        }
        let winning_opponent = self.rule.is_winning(board, mv, player.next());
        if winning_opponent {
            return -1000;
        }
        0
    }
}

pub open spec fn on_board(x: int, y: int) -> bool {
    0 <= x < 15 && 0 <= y < 15
}

/// A bound on the number of cells left ahead of `(x, y)` along `(dx, dy)`.
pub open spec fn fwd_left(x: int, y: int, dx: int, dy: int) -> int {
    (if dx > 0 {
        15 - x
    } else if dx < 0 {
        x + 1
    } else {
        0
    }) + (if dy > 0 {
        15 - y
    } else if dy < 0 {
        y + 1
    } else {
        0
    })
}

/// The cells from `(x, y)` to the edge of the board along `(dx, dy)`.
pub open spec fn line_from(b: BoardModel, x: int, y: int, dx: int, dy: int) -> Seq<Stone>
    decreases fwd_left(x, y, dx, dy),
{
    if unit_dir(dx, dy) && on_board(x, y) {
        seq![b.cells[y * 15 + x]] + line_from(b, x + dx, y + dy, dx, dy)
    } else {
        Seq::empty()
    }
}

/// Start cell and direction of each of the 88 lines of the board: columns,
/// rows, then both families of diagonals.
pub open spec fn line_origin(k: int) -> (int, int, int, int) {
    if k < 15 {
        (k, 0, 0, 1)
    } else if k < 30 {
        (0, k - 15, 1, 0)
    } else if k < 45 {
        (k - 30, 0, 1, 1)
    } else if k < 59 {
        (0, k - 44, 1, 1)
    } else if k < 74 {
        (k - 59, 14, 1, -1)
    } else {
        (0, k - 74, 1, -1)
    }
}

pub open spec fn board_line(b: BoardModel, k: int) -> Seq<Stone> {
    let (x, y, dx, dy) = line_origin(k);
    line_from(b, x, y, dx, dy)
}

/// Number of consecutive `c` from position `j` on.
pub open spec fn same_from(s: Seq<Stone>, j: int, c: Stone) -> nat
    decreases s.len() - j,
{
    if 0 <= j < s.len() && s[j] == c {
        1 + same_from(s, j + 1, c)
    } else {
        0
    }
}

/// A maximal run of equal cells begins at `j`.
pub open spec fn is_run_start(s: Seq<Stone>, j: int) -> bool {
    0 <= j < s.len() && (j == 0 || s[j - 1] != s[j])
}

/// How many of the two cells bounding the run `[j, j + len)` are empty.
pub open spec fn open_ends(s: Seq<Stone>, j: int, len: int) -> int {
    (if j > 0 && s[j - 1] == Stone::Empty {
        1int
    } else {
        0
    }) + (if j + len < s.len() && s[j + len] == Stone::Empty {
        1int
    } else {
        0
    })
}

/// Runs of five are counted whatever their ends; shorter ones by their
/// number of open ends.
pub open spec fn run_key(len: int, ends: int) -> int {
    if len == 5 {
        0
    } else {
        ends
    }
}

/// A maximal run of `c` of length `len` and end key `ends` begins at `j`.
pub open spec fn counts_run(s: Seq<Stone>, j: int, c: Stone, len: int, ends: int) -> bool {
    is_run_start(s, j) && s[j] == c && same_from(s, j, c) == len && run_key(
        len,
        open_ends(s, j, len),
    ) == ends
}

/// Number of maximal runs of `c` with length `len` and end key `ends` that
/// begin before position `k`.
pub open spec fn tally(s: Seq<Stone>, k: int, c: Stone, len: int, ends: int) -> nat
    decreases k,
{
    if k <= 0 {
        0
    } else {
        tally(s, k - 1, c, len, ends) + if counts_run(s, k - 1, c, len, ends) {
            1nat
        } else {
            0
        }
    }
}

/// The patterns that are counted: open and half-open runs of one to four
/// stones, and runs of exactly five.
pub open spec fn counted(c: Stone, len: int, ends: int) -> bool {
    (c == Stone::Black || c == Stone::White) && ((1 <= len <= 4 && (ends == 1 || ends == 2)) || (
    len == 5 && ends == 0))
}

/// Runs counted over the first `k` lines of the board.
pub open spec fn lines_tally(b: BoardModel, k: int, c: Stone, len: int, ends: int) -> nat
    decreases k,
{
    if k <= 0 {
        0
    } else {
        lines_tally(b, k - 1, c, len, ends) + tally(
            board_line(b, k - 1),
            board_line(b, k - 1).len() as int,
            c,
            len,
            ends,
        )
    }
}

/// Runs counted over every line of the board.
pub open spec fn board_tally(b: BoardModel, c: Stone, len: int, ends: int) -> nat {
    lines_tally(b, 88, c, len, ends)
}

/// The weighted pattern total of colour `c`: five 1000, open four 600, half
/// four 200, open three 100, half three 50, open two 10.
pub open spec fn weighted(b: BoardModel, c: Stone) -> int {
    (10 * board_tally(b, c, 2, 2) + 100 * board_tally(b, c, 3, 2) + 600 * board_tally(b, c, 4, 2)
        + 50 * board_tally(b, c, 3, 1) + 200 * board_tally(b, c, 4, 1) + 1000 * board_tally(
        b,
        c,
        5,
        0,
    )) as int
}

/// The pattern score for `p`: its weighted total minus the opponent's.
pub open spec fn pattern_score(b: BoardModel, p: Player) -> int {
    weighted(b, p.stone_spec()) - weighted(b, p.next_spec().stone_spec())
}

/// Per-colour counts of open and half-open runs by length, and of fives.
struct PatternCount {
    open_cnt_black: [u32; 5],
    half_cnt_black: [u32; 5],
    open_cnt_white: [u32; 5],
    half_cnt_white: [u32; 5],
    five_black: u32,
    five_white: u32,
}

impl PatternCount {
    spec fn count(self, c: Stone, len: int, ends: int) -> int {
        if !counted(c, len, ends) {
            0
        } else if len == 5 {
            if c == Stone::Black {
                self.five_black as int
            } else {
                self.five_white as int
            }
        } else if ends == 2 {
            if c == Stone::Black {
                self.open_cnt_black@[len] as int
            } else {
                self.open_cnt_white@[len] as int
            }
        } else {
            if c == Stone::Black {
                self.half_cnt_black@[len] as int
            } else {
                self.half_cnt_white@[len] as int
            }
        }
    }

    spec fn bounded(self, n: int) -> bool {
        forall|c: Stone, len: int, ends: int|
            counted(c, len, ends) ==> #[trigger] self.count(c, len, ends) <= n
    }
}

proof fn lemma_tally_le(s: Seq<Stone>, k: int, c: Stone, len: int, ends: int)
    requires
        k >= 0,
    ensures
        tally(s, k, c, len, ends) <= k,
    decreases k,
{
    if k > 0 {
        lemma_tally_le(s, k - 1, c, len, ends);
    }
}

proof fn lemma_line_len(b: BoardModel, x: int, y: int, dx: int, dy: int)
    requires
        dx == 1 || (dx == 0 && dy == 1),
        -1 <= dy <= 1,
    ensures
        line_from(b, x, y, dx, dy).len() <= (if dx == 1 {
            if x <= 15 {
                15 - x
            } else {
                0
            }
        } else {
            if y <= 15 {
                15 - y
            } else {
                0
            }
        }),
    decreases fwd_left(x, y, dx, dy),
{
    if unit_dir(dx, dy) && on_board(x, y) {
        lemma_line_len(b, x + dx, y + dy, dx, dy);
    }
}

proof fn lemma_board_line_len(b: BoardModel, k: int)
    requires
        0 <= k < 88,
    ensures
        board_line(b, k).len() <= 15,
{
    let (x, y, dx, dy) = line_origin(k);
    lemma_line_len(b, x, y, dx, dy);
}

proof fn lemma_lines_tally_le(b: BoardModel, k: int, c: Stone, len: int, ends: int)
    requires
        0 <= k <= 88,
    ensures
        lines_tally(b, k, c, len, ends) <= 15 * k,
    decreases k,
{
    if k > 0 {
        lemma_lines_tally_le(b, k - 1, c, len, ends);
        lemma_board_line_len(b, k - 1);
        lemma_tally_le(board_line(b, k - 1), board_line(b, k - 1).len() as int, c, len, ends);
    }
}

proof fn lemma_weighted_bound(b: BoardModel, c: Stone)
    ensures
        0 <= weighted(b, c) <= 2587200,
{
    lemma_lines_tally_le(b, 88, c, 2, 2);
    lemma_lines_tally_le(b, 88, c, 3, 2);
    lemma_lines_tally_le(b, 88, c, 4, 2);
    lemma_lines_tally_le(b, 88, c, 3, 1);
    lemma_lines_tally_le(b, 88, c, 4, 1);
    lemma_lines_tally_le(b, 88, c, 5, 0);
}

/// If `s[start..end)` all equal `c` and the run stops at `end`, the run of
/// `c` from `start` has length `end - start`.
proof fn lemma_same_from_run(s: Seq<Stone>, start: int, end: int, c: Stone)
    requires
        0 <= start <= end <= s.len(),
        forall|t: int| start <= t < end ==> s[t] == c,
        end == s.len() || s[end] != c,
    ensures
        same_from(s, start, c) == end - start,
    decreases end - start,
{
    if start < end {
        lemma_same_from_run(s, start + 1, end, c);
    }
}

/// The start cell and direction of line `k` of `line_origin`.
fn line_origin_of(k: usize) -> (r: (usize, usize, isize, isize))
    requires
        k < 88,
    ensures
        (r.0 as int, r.1 as int, r.2 as int, r.3 as int) == line_origin(k as int),
        r.0 < 15,
        r.1 < 15,
{
    if k < 15 {
        (k, 0, 0, 1)
    } else if k < 30 {
        (0, k - 15, 1, 0)
    } else if k < 45 {
        (k - 30, 0, 1, 1)
    } else if k < 59 {
        (0, k - 44, 1, 1)
    } else if k < 74 {
        (k - 59, 14, 1, -1)
    } else {
        (0, k - 74, 1, -1)
    }
}

/// The cells of the line from `(sx, sy)` along `(dx, dy)`.
fn line_cells(board: &Board, sx: usize, sy: usize, dx: isize, dy: isize) -> (r: Vec<Stone>)
    requires
        sx < 15,
        sy < 15,
        dx == 1 || (dx == 0 && dy == 1),
        -1 <= dy <= 1,
    ensures
        r@ == line_from(board@, sx as int, sy as int, dx as int, dy as int),
        r@.len() <= 15,
{
    let mut v: Vec<Stone> = Vec::new();
    let mut x: isize = sx as isize;
    let mut y: isize = sy as isize;
    proof {
        lemma_line_len(board@, sx as int, sy as int, dx as int, dy as int);
    }
    while 0 <= x && x < 15 && 0 <= y && y < 15
        invariant
            dx == 1 || (dx == 0 && dy == 1),
            -1 <= dy <= 1,
            -1 <= x <= 15,
            -1 <= y <= 15,
            board@.wf(),
            v@ + line_from(board@, x as int, y as int, dx as int, dy as int) == line_from(
                board@,
                sx as int,
                sy as int,
                dx as int,
                dy as int,
            ),
            line_from(board@, sx as int, sy as int, dx as int, dy as int).len() <= 15,
        decreases fwd_left(x as int, y as int, dx as int, dy as int),
    {
        let stone = board.get(Move { x: x as usize, y: y as usize });
        let ghost rest = line_from(board@, x + dx, y + dy, dx as int, dy as int);
        assert(line_from(board@, x as int, y as int, dx as int, dy as int) == seq![stone] + rest);
        assert(v@ + (seq![stone] + rest) =~= v@.push(stone) + rest);
        v.push(stone);
        x = x + dx;
        y = y + dy;
    }
    assert(v@ + Seq::<Stone>::empty() =~= v@);
    v
}

/// Counts the maximal run `[start, end)` of `line` into `result`.
fn add_run(result: &mut PatternCount, line: &Vec<Stone>, start: usize, end: usize)
    requires
        start < end <= line@.len(),
        line@.len() <= 15,
        is_run_start(line@, start as int),
        same_from(line@, start as int, line@[start as int]) == end - start,
        old(result).bounded(10000),
    ensures
        final(result).bounded(10001),
        forall|c: Stone, len: int, ends: int|
            counted(c, len, ends) ==> #[trigger] final(result).count(c, len, ends) == old(
                result,
            ).count(c, len, ends) + if counts_run(line@, start as int, c, len, ends) {
                1int
            } else {
                0
            },
{
    let ghost s = line@;
    let c = line[start];
    let len = end - start;
    let mut ends: usize = 0;
    if start > 0 && line[start - 1] == Stone::Empty {
        ends += 1;
    }
    if end < line.len() && line[end] == Stone::Empty {
        ends += 1;
    }
    assert(ends == open_ends(s, start as int, len as int));
    let ghost old_result = *result;
    proof {
        assert(old_result.count(Stone::Black, 5, 0) <= 10000);
        assert(old_result.count(Stone::White, 5, 0) <= 10000);
        if 1 <= len <= 4 && (ends == 1 || ends == 2) {
            assert(old_result.count(Stone::Black, len as int, ends as int) <= 10000);
            assert(old_result.count(Stone::White, len as int, ends as int) <= 10000);
        }
    }
    match c {
        Stone::Empty => {},
        Stone::Black => {
            if len == 5 {
                result.five_black = result.five_black + 1;
            } else if len <= 4 {
                if ends == 2 {
                    result.open_cnt_black[len] = result.open_cnt_black[len] + 1;
                } else if ends == 1 {
                    result.half_cnt_black[len] = result.half_cnt_black[len] + 1;
                }
            }
        },
        Stone::White => {
            if len == 5 {
                result.five_white = result.five_white + 1;
            } else if len <= 4 {
                if ends == 2 {
                    result.open_cnt_white[len] = result.open_cnt_white[len] + 1;
                } else if ends == 1 {
                    result.half_cnt_white[len] = result.half_cnt_white[len] + 1;
                }
            }
        },
    }
    assert forall|c2: Stone, len2: int, ends2: int| counted(c2, len2, ends2) implies #[trigger] result.count(c2, len2, ends2)
        == old_result.count(c2, len2, ends2) + if counts_run(s, start as int, c2, len2, ends2) {
        1int
    } else {
        0
    } && result.count(c2, len2, ends2) <= 10001 by {
        assert(old_result.count(c2, len2, ends2) <= 10000);
    }
}

/// Counts every maximal run of the line from `(start_x, start_y)` along
/// `(dx, dy)` into `result`.
fn scan_line(
    board: &Board,
    start_x: usize,
    start_y: usize,
    dx: isize,
    dy: isize,
    result: &mut PatternCount,
)
    requires
        start_x < 15,
        start_y < 15,
        dx == 1 || (dx == 0 && dy == 1),
        -1 <= dy <= 1,
        old(result).bounded(1320),
    ensures
        forall|c: Stone, len: int, ends: int|
            counted(c, len, ends) ==> #[trigger] final(result).count(c, len, ends) == old(
                result,
            ).count(c, len, ends) + tally(
                line_from(board@, start_x as int, start_y as int, dx as int, dy as int),
                line_from(board@, start_x as int, start_y as int, dx as int, dy as int).len() as int,
                c,
                len,
                ends,
            ),
{
    let line = line_cells(board, start_x, start_y, dx, dy);
    let ghost s = line@;
    let ghost old_result = *result;
    let n = line.len();
    if n == 0 {
        return ;
    }
    let mut start: usize = 0;
    let mut i: usize = 1;
    while i < n
        invariant
            0 <= start < i <= n,
            n == s.len(),
            n <= 15,
            s == line@,
            is_run_start(s, start as int),
            forall|t: int| start <= t < i ==> s[t] == s[start as int],
            forall|c: Stone, len: int, ends: int|
                counted(c, len, ends) ==> #[trigger] result.count(c, len, ends) == old_result.count(
                    c,
                    len,
                    ends,
                ) + tally(s, start as int, c, len, ends),
            forall|c: Stone, len: int, ends: int| #[trigger]
                tally(s, i as int, c, len, ends) == tally(s, start as int + 1, c, len, ends),
            old_result.bounded(1320),
        decreases n - i,
    {
        if line[i] != line[start] {
            proof {
                lemma_same_from_run(s, start as int, i as int, s[start as int]);
                assert forall|c: Stone, len: int, ends: int| counted(c, len, ends) implies #[trigger] result.count(c, len, ends) <= 10000 by {
                    lemma_tally_le(s, start as int, c, len, ends);
                    assert(old_result.count(c, len, ends) <= 1320);
                }
            }
            add_run(result, &line, start, i);
            proof {
                assert forall|c: Stone, len: int, ends: int| counted(c, len, ends) implies #[trigger] result.count(c, len, ends)
                    == old_result.count(c, len, ends) + tally(s, i as int, c, len, ends) by {
                    assert(tally(s, i as int, c, len, ends) == tally(s, start as int + 1, c, len, ends));
                }
            }
            start = i;
        } else {
            proof {
                assert forall|c: Stone, len: int, ends: int| #[trigger]
                    tally(s, i as int + 1, c, len, ends) == tally(s, start as int + 1, c, len, ends) by {
                    assert(tally(s, i as int, c, len, ends) == tally(s, start as int + 1, c, len, ends));
                    assert(!is_run_start(s, i as int));
                }
            }
        }
        i += 1;
    }
    proof {
        lemma_same_from_run(s, start as int, n as int, s[start as int]);
        assert forall|c: Stone, len: int, ends: int| counted(c, len, ends) implies #[trigger] result.count(c, len, ends) <= 10000 by {
            lemma_tally_le(s, start as int, c, len, ends);
            assert(old_result.count(c, len, ends) <= 1320);
        }
    }
    add_run(result, &line, start, n);
    proof {
        assert forall|c: Stone, len: int, ends: int| counted(c, len, ends) implies #[trigger] result.count(c, len, ends)
            == old_result.count(c, len, ends) + tally(s, n as int, c, len, ends) by {
            assert(tally(s, n as int, c, len, ends) == tally(s, start as int + 1, c, len, ends));
        }
    }
}

/// Counts every maximal run on the board, line by line.
fn pattern_count(board: &Board) -> (r: PatternCount)
    ensures
        forall|c: Stone, len: int, ends: int|
            counted(c, len, ends) ==> #[trigger] r.count(c, len, ends) == board_tally(
                board@,
                c,
                len,
                ends,
            ),
{
    let mut result = PatternCount {
        open_cnt_black: [0; 5],
        half_cnt_black: [0; 5],
        open_cnt_white: [0; 5],
        half_cnt_white: [0; 5],
        five_black: 0,
        five_white: 0,
    };
    let mut k: usize = 0;
    while k < 88
        invariant
            k <= 88,
            forall|c: Stone, len: int, ends: int|
                counted(c, len, ends) ==> #[trigger] result.count(c, len, ends) == lines_tally(
                    board@,
                    k as int,
                    c,
                    len,
                    ends,
                ),
        decreases 88 - k,
    {
        let (sx, sy, dx, dy) = line_origin_of(k);
        proof {
            assert forall|c: Stone, len: int, ends: int| counted(c, len, ends) implies #[trigger] result.count(c, len, ends) <= 1320 by {
                lemma_lines_tally_le(board@, k as int, c, len, ends);
            }
        }
        scan_line(board, sx, sy, dx, dy, &mut result);
        k += 1;
    }
    result
}

/// The weighted total of one colour's counts.
fn multiply_weight_value(open: [u32; 5], half: [u32; 5], five: u32) -> (r: i64)
    ensures
        r == 10 * open@[2] + 100 * open@[3] + 600 * open@[4] + 50 * half@[3] + 200 * half@[4]
            + 1000 * five,
{
    open[2] as i64 * 10 + open[3] as i64 * 100 + open[4] as i64 * 600 + half[3] as i64 * 50
        + half[4] as i64 * 200 + five as i64 * 1000
}

impl<R: Rule> Eval for PatternEval<R> {
    open spec fn eval_spec(&self, b: BoardModel, mv: Move, p: Player) -> int {
        pattern_score(b, p)
    }

    proof fn lemma_eval_bound(&self, b: BoardModel, mv: Move, p: Player) {
        lemma_weighted_bound(b, Stone::Black);
        lemma_weighted_bound(b, Stone::White);
    }

    /// The mover's weighted total minus the opponent's; `mv` plays no part.
    fn eval(&self, board: &Board, mv: Move, player: Player) -> (r: i64) {
        let pattern_count = pattern_count(board);
        proof {
            let b = board@;
            assert(pattern_count.count(Stone::Black, 2, 2) == board_tally(b, Stone::Black, 2, 2));
            assert(pattern_count.count(Stone::Black, 3, 2) == board_tally(b, Stone::Black, 3, 2));
            assert(pattern_count.count(Stone::Black, 4, 2) == board_tally(b, Stone::Black, 4, 2));
            assert(pattern_count.count(Stone::Black, 3, 1) == board_tally(b, Stone::Black, 3, 1));
            assert(pattern_count.count(Stone::Black, 4, 1) == board_tally(b, Stone::Black, 4, 1));
            assert(pattern_count.count(Stone::Black, 5, 0) == board_tally(b, Stone::Black, 5, 0));
            assert(pattern_count.count(Stone::White, 2, 2) == board_tally(b, Stone::White, 2, 2));
            assert(pattern_count.count(Stone::White, 3, 2) == board_tally(b, Stone::White, 3, 2));
            assert(pattern_count.count(Stone::White, 4, 2) == board_tally(b, Stone::White, 4, 2));
            assert(pattern_count.count(Stone::White, 3, 1) == board_tally(b, Stone::White, 3, 1));
            assert(pattern_count.count(Stone::White, 4, 1) == board_tally(b, Stone::White, 4, 1));
            assert(pattern_count.count(Stone::White, 5, 0) == board_tally(b, Stone::White, 5, 0));
            lemma_weighted_bound(b, Stone::Black);
            lemma_weighted_bound(b, Stone::White);
        }
        let value_black = multiply_weight_value(
            pattern_count.open_cnt_black,
            pattern_count.half_cnt_black,
            pattern_count.five_black,
        );
        let value_white = multiply_weight_value(
            pattern_count.open_cnt_white,
            pattern_count.half_cnt_white,
            pattern_count.five_white,
        );
        match player {
            Player::Black => value_black - value_white,
            Player::White => value_white - value_black,
        }
    }
}

/// The other colour; an empty cell stays empty.
pub open spec fn swap_stone(s: Stone) -> Stone {
    match s {
        Stone::Empty => Stone::Empty,
        Stone::Black => Stone::White,
        Stone::White => Stone::Black,
    }
}

pub open spec fn swap_line(s: Seq<Stone>) -> Seq<Stone> {
    s.map_values(|t: Stone| swap_stone(t))
}

/// The board with every black stone made white and every white one black.
pub open spec fn swapped(b: BoardModel) -> BoardModel {
    BoardModel { cells: swap_line(b.cells), ply: b.ply }
}

proof fn lemma_line_swap(b: BoardModel, x: int, y: int, dx: int, dy: int)
    requires
        b.wf(),
    ensures
        line_from(swapped(b), x, y, dx, dy) == swap_line(line_from(b, x, y, dx, dy)),
    decreases fwd_left(x, y, dx, dy),
{
    if unit_dir(dx, dy) && on_board(x, y) {
        lemma_line_swap(b, x + dx, y + dy, dx, dy);
        let rest = line_from(b, x + dx, y + dy, dx, dy);
        assert(swap_line(seq![b.cells[y * 15 + x]] + rest) =~= seq![swapped(b).cells[y * 15 + x]]
            + swap_line(rest));
    } else {
        assert(swap_line(Seq::<Stone>::empty()) =~= Seq::<Stone>::empty());
    }
}

proof fn lemma_same_from_swap(s: Seq<Stone>, j: int, c: Stone)
    ensures
        same_from(swap_line(s), j, swap_stone(c)) == same_from(s, j, c),
    decreases s.len() - j,
{
    if 0 <= j < s.len() {
        lemma_same_from_swap(s, j + 1, c);
    }
}

proof fn lemma_tally_swap(s: Seq<Stone>, k: int, c: Stone, len: int, ends: int)
    ensures
        tally(swap_line(s), k, swap_stone(c), len, ends) == tally(s, k, c, len, ends),
    decreases k,
{
    if k > 0 {
        lemma_tally_swap(s, k - 1, c, len, ends);
        let j = k - 1;
        let t = swap_line(s);
        lemma_same_from_swap(s, j, c);
        assert(t.len() == s.len());
        if 0 <= j < s.len() && len >= 0 {
            if j > 0 {
                assert(t[j - 1] == swap_stone(s[j - 1]));
                assert((t[j - 1] == Stone::Empty) == (s[j - 1] == Stone::Empty));
            }
            if j + len < s.len() && j + len >= 0 {
                assert(t[j + len] == swap_stone(s[j + len]));
                assert((t[j + len] == Stone::Empty) == (s[j + len] == Stone::Empty));
            }
            assert(open_ends(t, j, len) == open_ends(s, j, len));
            assert(is_run_start(t, j) == is_run_start(s, j));
        }
    }
}

proof fn lemma_lines_swap(b: BoardModel, k: int, c: Stone, len: int, ends: int)
    requires
        b.wf(),
    ensures
        lines_tally(swapped(b), k, swap_stone(c), len, ends) == lines_tally(b, k, c, len, ends),
    decreases k,
{
    if k > 0 {
        lemma_lines_swap(b, k - 1, c, len, ends);
        let (x, y, dx, dy) = line_origin(k - 1);
        lemma_line_swap(b, x, y, dx, dy);
        let line = board_line(b, k - 1);
        lemma_tally_swap(line, line.len() as int, c, len, ends);
    }
}

proof fn lemma_weighted_swap(b: BoardModel, c: Stone)
    requires
        b.wf(),
    ensures
        weighted(swapped(b), swap_stone(c)) == weighted(b, c),
{
    lemma_lines_swap(b, 88, c, 2, 2);
    lemma_lines_swap(b, 88, c, 3, 2);
    lemma_lines_swap(b, 88, c, 4, 2);
    lemma_lines_swap(b, 88, c, 3, 1);
    lemma_lines_swap(b, 88, c, 4, 1);
    lemma_lines_swap(b, 88, c, 5, 0);
}

/// The pattern score is zero-sum and blind to colour: scoring for the
/// opponent negates it, and so does swapping the colours of all stones;
/// doing both gives it back.
pub proof fn lemma_pattern_symmetry<R: Rule>(e: PatternEval<R>, b: BoardModel, mv: Move, p: Player)
    requires
        b.wf(),
    ensures
        e.eval_spec(b, mv, p.next_spec()) == -e.eval_spec(b, mv, p),
        e.eval_spec(swapped(b), mv, p) == -e.eval_spec(b, mv, p),
        e.eval_spec(swapped(b), mv, p.next_spec()) == e.eval_spec(b, mv, p),
{
    lemma_weighted_swap(b, Stone::Black);
    lemma_weighted_swap(b, Stone::White);
}

} // verus!
