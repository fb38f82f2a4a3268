use minmax::common::Board;
use minmax::min_max::symmetry::{GridSymmetry3x3, GridSymmetryAxes, SymmetricMove};
use minmax::min_max::{score_possible_moves, Player, Strategy as _};
use minmax::ttt::CellState::{EMPTY, O, X};
use minmax::ttt::{BoardStatus, GameBoard, Strategy};
use std::collections::HashSet;

#[test]
fn status() {
    let board = GameBoard::new([EMPTY, EMPTY, EMPTY, EMPTY, EMPTY, EMPTY, EMPTY, EMPTY, EMPTY],
        Player::Max);
    assert_eq!(board.status(), BoardStatus::Ongoing);

    let board = GameBoard::new([X, X, X, EMPTY, EMPTY, EMPTY, EMPTY, EMPTY, EMPTY], Player::Max);
    assert_eq!(board.status(), BoardStatus::MaxWon);

    let board = GameBoard::new([O, X, X, X, O, O, X, X, O], Player::Min);
    assert_eq!(board.status(), BoardStatus::MinWon);

    let board = GameBoard::new([O, O, O, EMPTY, EMPTY, EMPTY, EMPTY, EMPTY, EMPTY], Player::Min);
    assert_eq!(board.status(), BoardStatus::MinWon);

    let board = GameBoard::new([X, O, O, O, X, X, EMPTY, O, O], Player::Min);
    assert_eq!(board.status(), BoardStatus::Ongoing);

    let board = GameBoard::new([X, O, O, O, X, X, X, O, O], Player::Max);
    assert_eq!(board.status(), BoardStatus::Draw);
}

#[test]
fn ttt_empty_board() {
    let board = GameBoard::empty();
    let scored_moves = score_possible_moves(&mut Strategy::default(), &board, u8::MAX);

    let scored_expanded_moves = scored_moves
        .iter()
        .flat_map(|m| m.expand())
        .collect::<HashSet<_>>();

    // Tic-tac-toe ends in a draw if both sides play their best, so every move scores 0.
    let scores: Vec<i32> = scored_expanded_moves.iter().map(
        |scored_move| scored_move.score).collect();
    assert_eq!(scores, vec![0; 9]);
}

#[test]
fn any_empty_cell_can_be_marked() {
    let mut strategy = Strategy::default();
    let empty = GameBoard::empty();
    let offered: Vec<usize> = Strategy::possible_moves(&empty).iter().map(|m| *m.index()).collect();
    assert_eq!(offered, vec![4, 0, 1]);
    for index in 0..9usize {
        let played = SymmetricMove(index, GridSymmetry3x3::new(GridSymmetryAxes::empty()));
        let board = strategy.do_move(&empty, &played, Player::Max);
        let then = strategy.do_move(&board, &SymmetricMove((index + 1) % 9, played.1), Player::Min);
        for cell in 0..9usize {
            let mark = if cell == index {
                X
            } else if cell == (index + 1) % 9 {
                O
            } else {
                EMPTY
            };
            assert_eq!(then.cells[cell], mark);
        }
        assert_eq!(board.last_player, Player::Max);
        assert_eq!(then.last_player, Player::Min);
        assert_eq!(empty, GameBoard::empty());
    }
}
