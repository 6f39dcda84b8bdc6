use omok::board::{Board, Move, Stone};
use omok::eval::BaboEval;
use omok::model::{Model, NegamaxModel};
use omok::prune::NeighborPrune;
use omok::rule::OmokRule;

fn mv(x: usize, y: usize) -> Move {
    Move::new(x, y).unwrap()
}

#[test]
fn panic_manual() {
    let mut board = Board::blank();

    board.put_force(mv(7, 7), Stone::Black);
    board.put_force(mv(6, 6), Stone::White);

    board.put_force(mv(7, 6), Stone::Black);
    board.put_force(mv(5, 5), Stone::White);

    board.put_force(mv(6, 5), Stone::Black);
}

#[test]
fn panic_bot() {
    let mut board = Board::blank();

    let model = NegamaxModel {
        depth: 4,
        eval: BaboEval { rule: OmokRule },
        prune: NeighborPrune,
        rule: OmokRule,
    };

    board.put_force(mv(7, 7), Stone::Black);
    board.put_force(mv(6, 6), Stone::White);

    board.put_force(mv(7, 6), Stone::Black);
    board.put_force(mv(5, 5), Stone::White);

    board.put_force(mv(6, 5), Stone::Black);

    let next = model.next_move(&board, mv(6, 5));
    let _ = next;
}
