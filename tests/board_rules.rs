use omok::board::{Board, Move, Stone, Turn};
use omok::rule::{CheckResult, Direction, OmokRule, PutError, PutOutcome, Rule};

fn mv(x: usize, y: usize) -> Move {
    Move::new(x, y).unwrap()
}

fn board_with(black: &[(usize, usize)], white: &[(usize, usize)]) -> Board {
    let mut b = Board::blank();
    for &(x, y) in black {
        b.put_force(mv(x, y), Stone::Black);
    }
    for &(x, y) in white {
        b.put_force(mv(x, y), Stone::White);
    }
    b
}

/// Colour of a cell in a filling of the board with no run longer than two.
fn striped(x: usize, y: usize) -> Stone {
    if (x + 2 * y) % 4 < 2 {
        Stone::Black
    } else {
        Stone::White
    }
}

#[test]
fn blank_board_is_empty_black_to_move() {
    let b = Board::blank();
    assert_eq!(b.turn(), Turn::Black);
    assert_eq!(b.ply(), 0);
    for y in 0..15 {
        for x in 0..15 {
            assert_eq!(b.get(mv(x, y)), Stone::Empty);
        }
    }
}

#[test]
fn move_new_rejects_off_board() {
    assert!(Move::new(15, 0).is_none());
    assert!(Move::new(0, 15).is_none());
    assert_eq!(Move::new(14, 14), Some(Move { x: 14, y: 14 }));
}

#[test]
fn move_shift_subtracts_and_checks_bounds() {
    assert_eq!(mv(3, 4).shift(1, -1), Some(Move { x: 2, y: 5 }));
    assert_eq!(mv(0, 4).shift(1, 0), None);
    assert_eq!(mv(14, 14).shift(0, -1), None);
}

#[test]
fn turn_next_and_stone() {
    assert_eq!(Turn::Black.next(), Turn::White);
    assert_eq!(Turn::White.next(), Turn::Black);
    assert_eq!(Turn::Black.to_stone(), Stone::Black);
    assert_eq!(Turn::White.to_stone(), Stone::White);
}

#[test]
fn direction_deltas() {
    assert_eq!(Direction::Horizontal.delta(), (1, 0));
    assert_eq!(Direction::Vertical.delta(), (0, 1));
    assert_eq!(Direction::DiagDown.delta(), (1, 1));
    assert_eq!(Direction::DiagUp.delta(), (1, -1));
}

#[test]
fn put_force_then_undo_restores_board() {
    let mut b = board_with(&[(7, 7)], &[(6, 6)]);
    let before = b;
    b.put_force(mv(3, 3), Stone::Black);
    assert_eq!(b.get(mv(3, 3)), Stone::Black);
    assert_eq!(b.ply(), 3);
    assert_eq!(b.turn(), Turn::White);
    b.undo(mv(3, 3));
    assert_eq!(b.ply(), before.ply());
    assert_eq!(b.turn(), before.turn());
    for y in 0..15 {
        for x in 0..15 {
            assert_eq!(b.get(mv(x, y)), before.get(mv(x, y)));
        }
    }
}

#[test]
fn rule_put_then_undo_restores_board() {
    let mut b = board_with(&[(7, 7), (8, 8)], &[(6, 6), (1, 1)]);
    let before = b;
    let r = OmokRule.put(&mut b, mv(9, 9), Turn::Black);
    assert_eq!(r, Ok(PutOutcome::Continue));
    assert_eq!(b.get(mv(9, 9)), Stone::Black);
    b.undo(mv(9, 9));
    assert_eq!(b.ply(), before.ply());
    assert_eq!(b.turn(), before.turn());
    for y in 0..15 {
        for x in 0..15 {
            assert_eq!(b.get(mv(x, y)), before.get(mv(x, y)));
        }
    }
}

#[test]
fn exact_five_wins() {
    let b = board_with(&[(3, 7), (4, 7), (5, 7), (6, 7)], &[]);
    assert!(OmokRule.is_winning(&b, mv(7, 7), Turn::Black));
    assert!(OmokRule.is_winning(&b, mv(2, 7), Turn::Black));
    assert!(!OmokRule.is_winning(&b, mv(7, 7), Turn::White));
}

#[test]
fn sixth_stone_is_no_win() {
    let b = board_with(&[(3, 7), (4, 7), (5, 7), (6, 7), (7, 7)], &[]);
    assert!(!OmokRule.is_winning(&b, mv(8, 7), Turn::Black));
    assert!(!OmokRule.is_winning(&b, mv(2, 7), Turn::Black));
}

#[test]
fn overline_is_no_win_for_white_either() {
    let b = board_with(&[], &[(5, 2), (5, 3), (5, 4), (5, 6), (5, 7)]);
    assert!(!OmokRule.is_winning(&b, mv(5, 5), Turn::White));
}

#[test]
fn diagonal_five_wins() {
    let b = board_with(&[(2, 12), (3, 11), (4, 10), (6, 8)], &[]);
    assert!(OmokRule.is_winning(&b, mv(5, 9), Turn::Black));
}

#[test]
fn double_open_three_is_forbidden() {
    // open twos along the row and along the column meet at (7, 7)
    let b = board_with(&[(5, 7), (6, 7), (7, 5), (7, 6)], &[]);
    assert!(!OmokRule.is_valid(&b, mv(7, 7), Turn::Black));
    assert_eq!(OmokRule.check(&b, mv(7, 7), Turn::Black), CheckResult::Invalid);
}

#[test]
fn double_four_is_allowed() {
    // two open threes that the stone at (7, 7) turns into fours at once
    let b = board_with(&[(4, 7), (5, 7), (6, 7), (7, 4), (7, 5), (7, 6)], &[]);
    assert!(OmokRule.is_valid(&b, mv(7, 7), Turn::Black));
}

#[test]
fn single_open_three_is_allowed() {
    let b = board_with(&[(5, 7), (6, 7), (7, 5)], &[]);
    assert!(OmokRule.is_valid(&b, mv(7, 7), Turn::Black));
}

#[test]
fn blocked_three_does_not_count() {
    // the row three is closed on the left by a white stone
    let b = board_with(&[(5, 7), (6, 7), (7, 5), (7, 6)], &[(4, 7)]);
    assert!(OmokRule.is_valid(&b, mv(7, 7), Turn::Black));
}

#[test]
fn put_occupied() {
    let mut b = board_with(&[(7, 7)], &[]);
    assert_eq!(OmokRule.put(&mut b, mv(7, 7), Turn::White), Err(PutError::Occupied));
    assert_eq!(b.ply(), 1);
}

#[test]
fn put_forbidden() {
    let mut b = board_with(&[(5, 7), (6, 7), (7, 5), (7, 6)], &[(0, 0), (14, 14), (0, 14), (14, 0)]);
    assert_eq!(OmokRule.put(&mut b, mv(7, 7), Turn::Black), Err(PutError::Forbidden));
    assert_eq!(b.get(mv(7, 7)), Stone::Empty);
    assert_eq!(b.ply(), 8);
}

#[test]
fn put_win() {
    let mut b = board_with(&[(3, 7), (4, 7), (5, 7), (6, 7)], &[(0, 0), (14, 14), (0, 14), (14, 0)]);
    assert_eq!(OmokRule.put(&mut b, mv(7, 7), Turn::Black), Ok(PutOutcome::Win));
    assert_eq!(b.get(mv(7, 7)), Stone::Black);
    assert_eq!(b.turn(), Turn::White);
}

#[test]
fn put_draw_fills_last_cell() {
    let mut b = Board::blank();
    for y in 0..15 {
        for x in 0..15 {
            if (x, y) != (14, 14) {
                b.put_force(mv(x, y), striped(x, y));
            }
        }
    }
    let player = if striped(14, 14) == Stone::Black { Turn::Black } else { Turn::White };
    assert_eq!(OmokRule.check(&b, mv(14, 14), player), CheckResult::Draw);
    assert_eq!(OmokRule.put(&mut b, mv(14, 14), player), Ok(PutOutcome::Draw));
    assert_eq!(b.ply(), 225);
}

#[test]
fn check_reports_win_and_looks_good() {
    let b = board_with(&[(3, 7), (4, 7), (5, 7), (6, 7)], &[]);
    assert_eq!(OmokRule.check(&b, mv(7, 7), Turn::Black), CheckResult::Win(Turn::Black));
    assert_eq!(OmokRule.check(&b, mv(7, 9), Turn::Black), CheckResult::LooksGood);
}
