use minmax::common::Board;
use minmax::min_max::cache::HashMapCache;
use minmax::min_max::symmetry::{GridSymmetry3x3, GridSymmetryAxes, SymmetricMove};
use minmax::min_max::Strategy as _;
use minmax::min_max::{score_possible_moves, to_score_board, Player};
use minmax::stoplight::{CellState, Cells, GameBoard, Strategy};
use std::collections::HashSet;

fn score_board(cells: Cells) -> [i32; 9] {
    to_score_board(&score_possible_moves(
        &mut Strategy::new(HashMapCache::default()),
        &mut GameBoard::new(cells, Player::Max),
        30,
    ))
}

#[test]
fn two_green() {
    {
        let cells = [
            CellState::EMPTY, CellState::EMPTY, CellState::GREEN,
            CellState::GREEN, CellState::EMPTY, CellState::EMPTY,
            CellState::EMPTY, CellState::EMPTY, CellState::EMPTY,
        ];
        let scores = score_board(cells);
        println!("{:?}", scores);
    }
    {
        let cells = [
            CellState::EMPTY, CellState::GREEN, CellState::EMPTY,
            CellState::EMPTY, CellState::EMPTY, CellState::EMPTY,
            CellState::EMPTY, CellState::EMPTY, CellState::GREEN,
        ];
        let scores = score_board(cells);
        println!("{:?}", scores);
    }
    {
        let cells = [
            CellState::EMPTY, CellState::EMPTY, CellState::EMPTY,
            CellState::EMPTY, CellState::EMPTY, CellState::GREEN,
            CellState::GREEN, CellState::EMPTY, CellState::EMPTY,
        ];
        let scores = score_board(cells);
        println!("{:?}", scores);
    }
    {
        let cells = [
            CellState::GREEN, CellState::EMPTY, CellState::EMPTY,
            CellState::EMPTY, CellState::EMPTY, CellState::EMPTY,
            CellState::EMPTY, CellState::GREEN, CellState::EMPTY,
        ];
        let scores = score_board(cells);
        println!("{:?}", scores);
    }
}

fn score_and_print(cells: Cells) {
    let score_board = score_board(cells);
    println!("{:?}", score_board);
}

#[test]
fn empty_board_inspect() {
    {
        let cells = [CellState::EMPTY; 9];
        score_and_print(cells);
    }
    println!("=> Ki plays 0");
    {
        let cells = [
            CellState::GREEN, CellState::EMPTY, CellState::EMPTY,
            CellState::EMPTY, CellState::EMPTY, CellState::EMPTY,
            CellState::EMPTY, CellState::EMPTY, CellState::EMPTY,
        ];
        score_and_print(cells);
    }
    println!("=> Human plays 0");
    {
        let cells = [
            CellState::YELLOW, CellState::EMPTY, CellState::EMPTY,
            CellState::EMPTY, CellState::EMPTY, CellState::EMPTY,
            CellState::EMPTY, CellState::EMPTY, CellState::EMPTY,
        ];
        score_and_print(cells);
    }
    println!("=> Ki plays 0");
    {
        let cells = [
            CellState::RED, CellState::EMPTY, CellState::EMPTY,
            CellState::EMPTY, CellState::EMPTY, CellState::EMPTY,
            CellState::EMPTY, CellState::EMPTY, CellState::EMPTY,
        ];
        score_and_print(cells);
    }
    println!("=> Human plays 1");
    {
        let cells = [
            CellState::RED, CellState::GREEN, CellState::EMPTY,
            CellState::EMPTY, CellState::EMPTY, CellState::EMPTY,
            CellState::EMPTY, CellState::EMPTY, CellState::EMPTY,
        ];
        score_and_print(cells);
    }
    println!("=> Ki plays 1");
    {
        let cells = [
            CellState::RED, CellState::YELLOW, CellState::EMPTY,
            CellState::EMPTY, CellState::EMPTY, CellState::EMPTY,
            CellState::EMPTY, CellState::EMPTY, CellState::EMPTY,
        ];
        score_and_print(cells);
    }
}

#[test]
fn stoplight_empty_board() {
    let board = GameBoard::empty();
    let start = std::time::Instant::now();
    let scored_moves = score_possible_moves(&mut Strategy::new(HashMapCache::default()), &board,
        u8::MAX);
    println!("search on empty board took {}ms", start.elapsed().as_millis());
    // center is best move
    assert_eq!(
        scored_moves.iter().max_by_key(|m| m.score).map(|m| *m.min_max_move.index()),
        Some(4)
    );

    let scored_expanded_moves = scored_moves
        .iter()
        .flat_map(|m| m.expand())
        .collect::<HashSet<_>>();

    assert_eq!(scored_expanded_moves.len(), 9);

    let min_score = scored_expanded_moves.iter().map(|m| m.score).min().unwrap();
    for m in scored_expanded_moves {
        // all other moves have the same (lower) score
        assert!(m.score == min_score || m.min_max_move == 4)
    }
}

#[test]
fn boards_that_are_turned_have_score_boards_that_are_turned() {
    // the place that a quarter turn takes each place to
    let turned = [2, 5, 8, 1, 4, 7, 0, 3, 6];
    let mut cells = [
        CellState::EMPTY, CellState::EMPTY, CellState::GREEN,
        CellState::GREEN, CellState::EMPTY, CellState::EMPTY,
        CellState::EMPTY, CellState::EMPTY, CellState::EMPTY,
    ];
    let mut scores = score_board(cells);
    for _ in 0..4 {
        let mut next_cells = [CellState::EMPTY; 9];
        for place in 0..9 {
            next_cells[turned[place]] = cells[place];
        }
        let next_scores = score_board(next_cells);
        for place in 0..9 {
            assert_eq!(next_scores[turned[place]], scores[place]);
        }
        cells = next_cells;
        scores = next_scores;
    }
}

#[test]
fn positions_that_mirror_each_other_score_alike() {
    let cells = [
        CellState::GREEN, CellState::EMPTY, CellState::EMPTY,
        CellState::EMPTY, CellState::YELLOW, CellState::EMPTY,
        CellState::EMPTY, CellState::EMPTY, CellState::EMPTY,
    ];
    // the board mirrors at the diagonal from the top left
    let scored = score_possible_moves(
        &mut Strategy::new(HashMapCache::default()),
        &GameBoard::new(cells, Player::Max),
        30,
    );
    let indices: Vec<usize> = scored.iter().map(|m| *m.min_max_move.index()).collect();
    assert_eq!(indices, vec![0, 1, 2, 4, 5, 8]);
    let scores = to_score_board(&scored);
    assert_eq!(scores[1], scores[3]);
    assert_eq!(scores[2], scores[6]);
    assert_eq!(scores[5], scores[7]);
}

#[test]
fn stoplight_status() {
    let green_line = [
        CellState::GREEN, CellState::GREEN, CellState::GREEN,
        CellState::EMPTY, CellState::RED, CellState::EMPTY,
        CellState::EMPTY, CellState::EMPTY, CellState::EMPTY,
    ];
    assert_eq!(GameBoard::new(green_line, Player::Max).status(),
        minmax::stoplight::BoardStatus::MaxWon);
    assert_eq!(GameBoard::new(green_line, Player::Min).status(),
        minmax::stoplight::BoardStatus::MinWon);
    let mixed = [
        CellState::GREEN, CellState::YELLOW, CellState::GREEN,
        CellState::EMPTY, CellState::RED, CellState::EMPTY,
        CellState::EMPTY, CellState::EMPTY, CellState::EMPTY,
    ];
    assert_eq!(GameBoard::new(mixed, Player::Min).status(),
        minmax::stoplight::BoardStatus::Ongoing);
    assert_eq!(GameBoard::empty().status(), minmax::stoplight::BoardStatus::Ongoing);
}

#[test]
fn a_move_turns_a_cell_one_colour_on() {
    let mut strategy = Strategy::new(minmax::min_max::cache::NullCache);
    let mut board = GameBoard::empty();
    let moves = Strategy::<minmax::min_max::cache::NullCache>::possible_moves(&board);
    let indices: Vec<usize> = moves.iter().map(|m| *m.index()).collect();
    assert_eq!(indices, vec![0, 1, 4]);
    let colours = [CellState::GREEN, CellState::YELLOW, CellState::RED];
    let mut player = Player::Max;
    for colour in colours {
        let moves = Strategy::<minmax::min_max::cache::NullCache>::possible_moves(&board);
        let centre = moves.iter().find(|m| *m.index() == 4).unwrap();
        board = strategy.do_move(&board, centre, player);
        assert_eq!(board.cells[4], colour);
        assert_eq!(board.last_player, player);
        player = !player;
    }
    // a red cell cannot be played
    let moves = Strategy::<minmax::min_max::cache::NullCache>::possible_moves(&board);
    let indices: Vec<usize> = moves.iter().map(|m| *m.index()).collect();
    assert_eq!(indices, vec![0, 1]);
}

#[test]
fn any_cell_that_is_not_red_can_be_played() {
    let mut strategy = Strategy::new(minmax::min_max::cache::NullCache);
    for index in 0..9usize {
        // on the empty board the game offers the cells 0, 1 and 4 only
        let mut board = GameBoard::empty();
        let mut player = Player::Min;
        for colour in [CellState::GREEN, CellState::YELLOW, CellState::RED] {
            let before = board;
            let played = SymmetricMove(index, GridSymmetry3x3::new(GridSymmetryAxes::empty()));
            board = strategy.do_move(&board, &played, player);
            assert_eq!(board.cells[index], colour);
            assert_eq!(board.last_player, player);
            for other in (0..9usize).filter(|other| *other != index) {
                assert_eq!(board.cells[other], before.cells[other]);
            }
            // the colour is the next one
            assert_eq!(before.cells[index] as u8 + 1, colour as u8);
            player = !player;
        }
        let moves = Strategy::<minmax::min_max::cache::NullCache>::possible_moves(&board);
        assert!(moves.iter().all(|m| board.cells[*m.index()] != CellState::RED));
        assert!(moves.iter().all(|m| m.expanded_indices().iter().all(|cell| *cell != index)));
    }
}
