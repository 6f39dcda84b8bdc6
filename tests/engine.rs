use omok::board::{Board, Move, Stone, Turn};
use omok::eval::{BaboEval, Eval, PatternEval};
use omok::hash::Zobrist;
use omok::model::{pick_near, try_cell, Model, NegamaxModel, RandomBaboModel, INF, MATE_SCORE};
use omok::prune::{NeighborPrune, NoPrune, Prune};
use omok::rule::OmokRule;
use omok::tt::{Flag, TTEntry, TT};

fn mv(x: usize, y: usize) -> Move {
    Move::new(x, y).unwrap()
}

fn board_with(black: &[(usize, usize)], white: &[(usize, usize)]) -> Board {
    let mut b = Board::blank();
    for &(x, y) in black {
        b.put_force(mv(x, y), Stone::Black);
    }
    for &(x, y) in white {
        b.put_force(mv(x, y), Stone::White);
    }
    b
}

fn full_board() -> Board {
    let mut b = Board::blank();
    for y in 0..15 {
        for x in 0..15 {
            let s = if (x + 2 * y) % 4 < 2 { Stone::Black } else { Stone::White };
            b.put_force(mv(x, y), s);
        }
    }
    b
}

fn pattern() -> PatternEval<OmokRule> {
    PatternEval { rule: OmokRule }
}

#[test]
fn babo_eval_scores_fives() {
    let e = BaboEval { rule: OmokRule };
    let b = board_with(&[(3, 7), (4, 7), (5, 7), (6, 7)], &[]);
    assert_eq!(e.eval(&b, mv(7, 7), Turn::Black), 1000);
    assert_eq!(e.eval(&b, mv(7, 7), Turn::White), -1000);
    assert_eq!(e.eval(&b, mv(7, 9), Turn::Black), 0);
}

#[test]
fn pattern_eval_open_three() {
    let b = board_with(&[(6, 7), (7, 7), (8, 7)], &[]);
    assert_eq!(pattern().eval(&b, mv(7, 7), Turn::Black), 100);
    assert_eq!(pattern().eval(&b, mv(7, 7), Turn::White), -100);
}

#[test]
fn pattern_eval_open_two_and_half_three() {
    let b = board_with(&[(7, 7), (8, 7)], &[]);
    assert_eq!(pattern().eval(&b, mv(7, 7), Turn::Black), 10);
    let b = board_with(&[(0, 0), (1, 0), (2, 0)], &[]);
    assert_eq!(pattern().eval(&b, mv(0, 0), Turn::Black), 50);
}

#[test]
fn pattern_eval_fours() {
    let b = board_with(&[(5, 7), (6, 7), (7, 7), (8, 7)], &[]);
    assert_eq!(pattern().eval(&b, mv(7, 7), Turn::Black), 600);
    let b = board_with(&[(5, 7), (6, 7), (7, 7), (8, 7)], &[(4, 7)]);
    // the white stone stands alone: a half-open run of one, worth nothing
    assert_eq!(pattern().eval(&b, mv(7, 7), Turn::Black), 200);
}

#[test]
fn pattern_eval_five_and_six() {
    let b = board_with(&[(3, 7), (4, 7), (5, 7), (6, 7), (7, 7)], &[]);
    assert_eq!(pattern().eval(&b, mv(7, 7), Turn::Black), 1000);
    let b = board_with(&[(3, 7), (4, 7), (5, 7), (6, 7), (7, 7), (8, 7)], &[]);
    assert_eq!(pattern().eval(&b, mv(7, 7), Turn::Black), 0);
}

#[test]
fn pattern_eval_color_swap() {
    let b = board_with(&[(6, 7), (7, 7), (8, 7), (2, 2), (3, 2)], &[(7, 8), (7, 9), (0, 0)]);
    let s = board_with(&[(7, 8), (7, 9), (0, 0)], &[(6, 7), (7, 7), (8, 7), (2, 2), (3, 2)]);
    let v = pattern().eval(&b, mv(7, 7), Turn::Black);
    assert_eq!(v, 110);
    assert_eq!(pattern().eval(&b, mv(7, 7), Turn::White), -v);
    assert_eq!(pattern().eval(&s, mv(7, 7), Turn::Black), -v);
    assert_eq!(pattern().eval(&s, mv(7, 7), Turn::White), v);
}

#[test]
fn no_prune_lists_empty_cells_row_major() {
    let b = board_with(&[(0, 0)], &[]);
    let v = NoPrune.possible(&b, mv(0, 0));
    assert_eq!(v.len(), 224);
    assert_eq!(v[0], mv(1, 0));
    assert_eq!(v[14], mv(0, 1));
    assert_eq!(NoPrune.possible(&full_board(), mv(0, 0)), vec![mv(7, 7)]);
}

#[test]
fn neighbor_prune_blank_gives_center() {
    assert_eq!(NeighborPrune.possible(&Board::blank(), mv(3, 3)), vec![mv(7, 7)]);
    assert_eq!(NeighborPrune.possible(&full_board(), mv(3, 3)), vec![mv(7, 7)]);
}

#[test]
fn neighbor_prune_ring_in_row_order() {
    let b = board_with(&[(7, 7)], &[]);
    let v = NeighborPrune.possible(&b, mv(7, 7));
    assert_eq!(
        v,
        vec![mv(6, 6), mv(7, 6), mv(8, 6), mv(6, 7), mv(8, 7), mv(6, 8), mv(7, 8), mv(8, 8)]
    );
}

#[test]
fn neighbor_prune_orders_by_distance() {
    let b = board_with(&[(0, 0)], &[]);
    let v = NeighborPrune.possible(&b, mv(0, 0));
    assert_eq!(v, vec![mv(1, 1), mv(1, 0), mv(0, 1)]);
    // far from the last move, the centre distance still orders them
    let v = NeighborPrune.possible(&b, mv(14, 14));
    assert_eq!(v, vec![mv(1, 1), mv(1, 0), mv(0, 1)]);
}

#[test]
fn negamax_takes_immediate_win() {
    let b = board_with(&[(3, 7), (4, 7), (5, 7), (6, 7)], &[(0, 0), (14, 14), (0, 14), (14, 0)]);
    let model = NegamaxModel::new(2, pattern(), NeighborPrune, OmokRule);
    assert_eq!(model.next_move(&b, mv(6, 7)), Some(mv(7, 7)));
    assert_eq!(b.get(mv(7, 7)), Stone::Empty);
}

#[test]
fn negamax_blocks_a_four() {
    let b = board_with(&[(0, 0), (14, 14), (0, 14)], &[(3, 7), (4, 7), (5, 7), (6, 7)]);
    let mut b = b;
    b.put_force(mv(2, 7), Stone::Black);
    // Black to move; White threatens (7, 7)
    assert_eq!(b.turn(), Turn::Black);
    let model = NegamaxModel::new(2, BaboEval { rule: OmokRule }, NeighborPrune, OmokRule);
    assert_eq!(model.next_move(&b, mv(6, 7)), Some(mv(7, 7)));
}

#[test]
fn full_board_resigns() {
    let b = full_board();
    let m1 = NegamaxModel::new(2, pattern(), NeighborPrune, OmokRule);
    assert_eq!(m1.next_move(&b, mv(7, 7)), None);
    let m2 = NegamaxModel::new(1, BaboEval { rule: OmokRule }, NoPrune, OmokRule);
    assert_eq!(m2.next_move(&b, mv(7, 7)), None);
    assert_eq!(RandomBaboModel.next_move(&b, mv(7, 7)), None);
}

#[test]
fn random_model_plays_next_to_last_move() {
    let b = board_with(&[(7, 7)], &[]);
    for _ in 0..20 {
        let m = RandomBaboModel.next_move(&b, mv(7, 7)).unwrap();
        assert_eq!(b.get(m), Stone::Empty);
        assert!(m.x.abs_diff(7) <= 1 && m.y.abs_diff(7) <= 1);
        assert_ne!(m, mv(7, 7));
    }
}

#[test]
fn zobrist_update_matches_rehash() {
    let z = Zobrist::init();
    let mut b = board_with(&[(7, 7)], &[(6, 6)]);
    let h0 = z.hash(&b);
    b.put_force(mv(3, 4), Stone::White);
    let h1 = z.hash(&b);
    assert_eq!(z.update(h0, mv(3, 4), Stone::Empty, Stone::White), h1);
    assert_ne!(h0, h1);
    b.undo(mv(3, 4));
    assert_eq!(z.hash(&b), h0);
    assert_eq!(z.update(h1, mv(3, 4), Stone::White, Stone::Empty), h0);
}

fn entry(hash: u64, depth: u32, value: i64) -> TTEntry {
    TTEntry { hash, value, depth, flag: Flag::Exact, best_move: mv(7, 7) }
}

#[test]
fn tt_get_and_put() {
    let mut tt = TT::new(15);
    assert!(tt.get(5).is_none());
    tt.put(entry(5, 3, 42));
    assert_eq!(tt.get(5).unwrap().value, 42);
    // same slot, other hash: a miss
    assert!(tt.get(21).is_none());
    // a shallower result for the same hash is dropped
    tt.put(entry(5, 2, 7));
    assert_eq!(tt.get(5).unwrap().value, 42);
    // an equal or deeper one replaces it
    tt.put(entry(5, 3, 8));
    assert_eq!(tt.get(5).unwrap().value, 8);
    // another hash in the same slot replaces it
    tt.put(entry(21, 1, 9));
    assert!(tt.get(5).is_none());
    assert_eq!(tt.get(21).unwrap().value, 9);
}

#[test]
fn random_model_falls_back_to_any_empty_cell() {
    let ring = [(6, 6), (7, 6), (8, 6), (6, 7), (7, 7), (8, 7), (6, 8), (7, 8), (8, 8)];
    let b = board_with(&ring, &[]);
    for _ in 0..20 {
        let m = RandomBaboModel.next_move(&b, mv(7, 7)).unwrap();
        assert!(m.x < 15 && m.y < 15);
        assert_eq!(b.get(m), Stone::Empty);
    }
}

#[test]
fn pick_near_follows_rotated_order() {
    let b = board_with(&[(7, 7)], &[]);
    assert_eq!(pick_near(&b, mv(7, 7), 0), Some(mv(6, 6)));
    assert_eq!(pick_near(&b, mv(7, 7), 1), Some(mv(6, 7)));
    assert_eq!(pick_near(&b, mv(7, 7), 7), Some(mv(7, 6)));
    let b = board_with(&[(7, 7), (6, 6)], &[(6, 7)]);
    assert_eq!(pick_near(&b, mv(7, 7), 0), Some(mv(6, 8)));
    // in a corner the directions off the board are skipped
    let b = board_with(&[(0, 0)], &[]);
    assert_eq!(pick_near(&b, mv(0, 0), 0), Some(mv(0, 1)));
    let ring = [(6, 6), (7, 6), (8, 6), (6, 7), (7, 7), (8, 7), (6, 8), (7, 8), (8, 8)];
    let b = board_with(&ring, &[]);
    assert_eq!(pick_near(&b, mv(7, 7), 3), None);
}

#[test]
fn try_cell_only_empty() {
    let b = board_with(&[(7, 7)], &[]);
    assert_eq!(try_cell(&b, 7, 7), None);
    assert_eq!(try_cell(&b, 3, 9), Some(mv(3, 9)));
}

#[test]
fn negamax_frontier_and_win_values() {
    let mut b = board_with(&[(6, 7), (7, 7), (8, 7)], &[(0, 0), (1, 1), (14, 14)]);
    assert_eq!(b.turn(), Turn::Black);
    let model = NegamaxModel::new(2, pattern(), NeighborPrune, OmokRule);
    // Black to move: the frontier value is minus White's score
    let r = model.negamax(&mut b, 0, -INF, INF, mv(14, 14));
    assert_eq!(r, -pattern().eval(&b, mv(14, 14), Turn::White));
    assert_eq!(r, 100);
    // with an open four on the board a win is found one ply down
    let mut b = board_with(&[(4, 7), (5, 7), (6, 7), (7, 7)], &[(0, 0), (1, 1), (0, 14), (14, 0)]);
    let r = model.negamax(&mut b, 1, -INF, INF, mv(14, 0));
    assert_eq!(r, MATE_SCORE + 1);
    assert_eq!(b.ply(), 8);
}
