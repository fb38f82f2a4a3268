use ahash::HashSet;
use itertools::Itertools;
use minmax::min_max::cache::{CacheKey, NullCache};
use minmax::min_max::symmetry::{GridSymmetry3x3, GridSymmetryAxes, SymmetricMove};
use minmax::min_max::{score_possible_moves, Player, Strategy as _};
use minmax::ttt::CellState::{EMPTY as E, O, X};
use minmax::ultimate_ttt::{
    calculate_status, BoardStatus, GameBoard, Move, Strategy, SubBoard,
};

#[test]
fn test_status() {
    let ongoing = SubBoard::new([
        X, O, O,
        O, X, X,
        E, O, O,
    ]);
    let draw = SubBoard::new([
        X, O, O,
        O, X, X,
        X, O, O,
    ]);
    let min_won = SubBoard::new([
        O, X, X,
        X, O, O,
        X, O, O,
    ]);
    let max_won = SubBoard::new([
        X, O, O,
        O, X, X,
        X, O, X,
    ]);

    assert_eq!(calculate_status(&[
        ongoing, draw, min_won,
        max_won, ongoing, draw,
        min_won, max_won, ongoing,
    ], Player::Max), BoardStatus::Ongoing);

    assert_eq!(calculate_status(&[
        ongoing, draw, min_won,
        max_won, min_won, draw,
        min_won, max_won, ongoing,
    ], Player::Max), BoardStatus::MinWon);

    // win by points
    assert_eq!(calculate_status(&[
        max_won, draw, min_won,
        max_won, min_won, draw,
        min_won, max_won, draw,
    ], Player::Min), BoardStatus::MinWon);

    assert_eq!(calculate_status(&[
        max_won, draw, min_won,
        min_won, min_won, draw,
        max_won, max_won, draw,
    ], Player::Min), BoardStatus::Draw);
}

#[test]
fn first_possible_moves() {
    let board = GameBoard::empty();

    let moves = Strategy::<NullCache>::possible_moves(&board).into_iter().collect_vec();
    assert_eq!(moves.len(), 9);
    let groups = moves.into_iter().group_by(|m| *m.ttt_board.index());
    let moves_per_board = groups.into_iter().collect::<Vec<_>>();

    assert_eq!(
        moves_per_board.iter().map(|(index, _)| *index).collect::<HashSet<_>>(),
        HashSet::from_iter(vec![0, 1, 4])
    );

    for (_, moves) in moves_per_board {
        assert_eq!(
            moves.map(|m| *m.ttt_move.index()).collect::<HashSet<_>>(),
            HashSet::from_iter(vec![0, 1, 4])
        );
    }
}

#[test]
fn first_move() {
    let empty = SubBoard::new([
        E, E, E,
        E, E, E,
        E, E, E,
    ]);

    let board = GameBoard::new(
        [
            empty, empty, empty,
            empty, empty, empty,
            empty, empty, empty,
        ],
        Player::Max,
        None,
    );

    let start = std::time::Instant::now();
    let scored_moves = score_possible_moves(&mut Strategy::new(NullCache::default()), &board, 15);
    println!("search on empty board took {}ms", start.elapsed().as_millis());

    let best_move = scored_moves.into_iter().max_by_key(|m| m.score).map(
        |m| m.min_max_move).unwrap();

    assert_eq!(*best_move.ttt_board.index(), 4);
    assert_eq!(*best_move.ttt_move.index(), 4);
}

#[test]
fn the_side_with_more_boards_wins_where_no_line_is_there() {
    let min_won = SubBoard::new([
        O, X, X,
        X, O, O,
        X, O, O,
    ]);
    let max_won = SubBoard::new([
        X, O, O,
        O, X, X,
        X, O, X,
    ]);
    // every board is won, five of them by Max, and no three in a line
    assert_eq!(calculate_status(&[
        max_won, min_won, max_won,
        max_won, min_won, min_won,
        min_won, max_won, max_won,
    ], Player::Min), BoardStatus::MaxWon);
    // who moved last does not bear on it
    assert_eq!(calculate_status(&[
        max_won, min_won, max_won,
        max_won, min_won, min_won,
        min_won, max_won, max_won,
    ], Player::Max), BoardStatus::MaxWon);
}

#[test]
fn a_board_that_is_decided_gives_way_to_the_board_that_stands_for_it() {
    let mut game = GameBoard::empty();
    let won = minmax::ttt::GameBoard::new([X, X, X, O, O, E, E, E, E], Player::Max);
    game.update_ttt_board(3, won);
    assert_eq!(game.sub_boards[3], SubBoard::max_win());
    assert_eq!(game.sub_boards[3].cells, [X; 9]);
    assert_eq!(game.sub_boards[3].status, BoardStatus::MaxWon);
    let lost = minmax::ttt::GameBoard::new([O, O, O, X, X, E, E, X, E], Player::Min);
    game.update_ttt_board(0, lost);
    assert_eq!(game.sub_boards[0], SubBoard::min_win());
    let drawn = minmax::ttt::GameBoard::new([X, O, O, O, X, X, X, X, O], Player::Min);
    game.update_ttt_board(8, drawn);
    assert_eq!(game.sub_boards[8], SubBoard::draw());
    assert_eq!(game.sub_boards[8].status, BoardStatus::Draw);
    let open = minmax::ttt::GameBoard::new([X, O, E, E, E, E, E, E, E], Player::Min);
    game.update_ttt_board(4, open);
    assert_eq!(game.sub_boards[4], SubBoard::new([X, O, E, E, E, E, E, E, E]));
    assert_eq!(game.sub_boards[1], SubBoard::empty());
    assert_eq!(game.ttt_board(4), minmax::ttt::GameBoard::new([X, O, E, E, E, E, E, E, E],
        Player::Max));
}

#[test]
fn a_move_sends_to_the_board_of_its_cell() {
    let mut strategy = Strategy::new(NullCache::default());
    let board = GameBoard::empty();
    let moves = Strategy::<NullCache>::possible_moves(&board);
    // the corner of the middle board
    let corner = moves
        .iter()
        .find(|m| *m.ttt_board.index() == 4 && *m.ttt_move.index() == 0)
        .unwrap();
    let next = strategy.do_move(&board, corner, Player::Max);
    assert_eq!(next.last_move, Some((4, 0)));
    assert_eq!(next.last_player, Player::Max);
    assert_eq!(next.status, BoardStatus::Ongoing);
    assert_eq!(next.sub_boards[4].cells[0], X);
    assert_eq!(strategy.score(&next, Player::Max), 0);

    // the boards mirror at the diagonal from the top left only, and Min has
    // to play on the board in the corner
    let answers = Strategy::<NullCache>::possible_moves(&next);
    assert!(answers.iter().all(|m| *m.ttt_board.index() == 0));
    let cells: Vec<usize> = answers.iter().map(|m| *m.ttt_move.index()).collect();
    assert_eq!(cells, vec![4, 0, 1]);
}

#[test]
fn boards_that_are_won_count_while_the_game_goes_on() {
    let mut strategy = Strategy::new(NullCache::default());
    let mut game = GameBoard::empty();
    game.update_ttt_board(0, minmax::ttt::GameBoard::new([X, X, X, O, O, E, E, E, E], Player::Max));
    game.update_ttt_board(5, minmax::ttt::GameBoard::new([X, X, X, O, O, E, E, E, E], Player::Max));
    game.update_ttt_board(7, minmax::ttt::GameBoard::new([O, O, O, X, X, E, E, X, E], Player::Min));
    assert_eq!(strategy.score(&game, Player::Max), 1);
    assert_eq!(strategy.score(&game, Player::Min), -1);
    let decided = GameBoard::new(game.sub_boards, Player::Max, None);
    assert_eq!(decided.status, BoardStatus::Ongoing);
    let mut won = decided.clone();
    won.update_ttt_board(1, minmax::ttt::GameBoard::new([X, X, X, O, O, E, E, E, E], Player::Max));
    won.update_ttt_board(2, minmax::ttt::GameBoard::new([X, X, X, O, O, E, E, E, E], Player::Max));
    let won = GameBoard::new(won.sub_boards, Player::Max, Some((2, 2)));
    assert_eq!(won.status, BoardStatus::MaxWon);
    assert_eq!(strategy.score(&won, Player::Max), 1);
    assert_eq!(strategy.score(&won, Player::Min), -1);
}

#[test]
fn states_that_differ_have_keys_that_differ() {
    let mut strategy = Strategy::new(NullCache::default());
    let empty = GameBoard::empty();
    let mut keys = std::collections::HashSet::new();
    keys.insert(empty.cache_key());
    let mut states = 1;
    for first in Strategy::<NullCache>::possible_moves(&empty) {
        let after_first = strategy.do_move(&empty, &first, Player::Max);
        keys.insert(after_first.cache_key());
        states += 1;
        for second in Strategy::<NullCache>::possible_moves(&after_first) {
            let after_second = strategy.do_move(&after_first, &second, Player::Min);
            keys.insert(after_second.cache_key());
            states += 1;
        }
    }
    assert_eq!(keys.len(), states);
    assert_ne!(
        GameBoard::new(empty.sub_boards, Player::Min, None).cache_key(),
        GameBoard::new(empty.sub_boards, Player::Max, None).cache_key()
    );
    assert_ne!(
        GameBoard::new(empty.sub_boards, Player::Max, Some((0, 1))).cache_key(),
        GameBoard::new(empty.sub_boards, Player::Max, Some((1, 0))).cache_key()
    );
}

#[test]
fn the_game_can_be_searched_with_a_cache() {
    let board = GameBoard::empty();
    let cached = score_possible_moves(
        &mut Strategy::new(minmax::min_max::cache::HashMapCache::default()),
        &board,
        4,
    );
    let plain = score_possible_moves(&mut Strategy::new(NullCache::default()), &board, 4);
    assert_eq!(cached.len(), 9);
    // so near the start no state is met at two depths
    let scores = |moves: &Vec<minmax::min_max::ScoredMove<minmax::ultimate_ttt::Move>>|
        -> Vec<i32> {
        moves.iter().map(|m| m.score).collect()
    };
    assert_eq!(scores(&cached), scores(&plain));
}

#[test]
fn any_empty_cell_of_any_board_can_be_marked() {
    let mut strategy = Strategy::new(NullCache::default());
    let empty = GameBoard::empty();
    let plain = || GridSymmetry3x3::new(GridSymmetryAxes::empty());
    for board in 0..9usize {
        for cell in 0..9usize {
            let played = Move {
                ttt_board: SymmetricMove(board, plain()),
                ttt_move: SymmetricMove(cell, plain()),
            };
            let next = strategy.do_move(&empty, &played, Player::Min);
            assert_eq!(next.last_move, Some((board as u8, cell as u8)));
            assert_eq!(next.last_player, Player::Min);
            assert_eq!(next.status, BoardStatus::Ongoing);
            for other in 0..9usize {
                for at in 0..9usize {
                    let mark = if other == board && at == cell { O } else { E };
                    assert_eq!(next.sub_boards[other].cells[at], mark);
                }
            }
        }
    }
}
