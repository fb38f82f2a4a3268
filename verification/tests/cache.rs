use minmax::min_max::cache::{Cache, CacheEntry, CacheFlag, CacheKey, HashMapCache, NullCache};
use minmax::min_max::Player;
use minmax::stoplight::{CellState, GameBoard};

fn entry(value: i32, level: u8, flag: CacheFlag) -> CacheEntry {
    CacheEntry { value, level, flag }
}

#[test]
fn hash_map_cache_returns_what_was_set() {
    let mut cache: HashMapCache<GameBoard> = HashMapCache::default();
    let empty = GameBoard::empty();
    let mut other = GameBoard::empty();
    other.cells[4] = CellState::GREEN;

    assert_eq!(cache.get(&empty), None);
    cache.set(&empty, entry(3, 7, CacheFlag::Exact));
    assert_eq!(cache.get(&empty), Some(entry(3, 7, CacheFlag::Exact)));
    assert_eq!(cache.get(&other), None);

    cache.set(&other, entry(-2, 1, CacheFlag::LowerBound));
    assert_eq!(cache.get(&other), Some(entry(-2, 1, CacheFlag::LowerBound)));
    assert_eq!(cache.get(&empty), Some(entry(3, 7, CacheFlag::Exact)));
}

#[test]
fn hash_map_cache_overwrites() {
    let mut cache: HashMapCache<GameBoard> = HashMapCache::default();
    let board = GameBoard::empty();
    cache.set(&board, entry(1, 2, CacheFlag::UpperBound));
    cache.set(&board, entry(5, 1, CacheFlag::Exact));
    assert_eq!(cache.get(&board), Some(entry(5, 1, CacheFlag::Exact)));
}

#[test]
fn hash_map_cache_tells_the_last_mover_apart() {
    let mut cache: HashMapCache<GameBoard> = HashMapCache::default();
    let by_max = GameBoard::new([CellState::EMPTY; 9], Player::Max);
    let by_min = GameBoard::new([CellState::EMPTY; 9], Player::Min);
    cache.set(&by_max, entry(1, 1, CacheFlag::Exact));
    assert_eq!(cache.get(&by_min), None);
}

#[test]
fn null_cache_keeps_nothing() {
    let mut cache = NullCache::default();
    let board = GameBoard::empty();
    Cache::<GameBoard>::set(&mut cache, &board, entry(1, 2, CacheFlag::Exact));
    assert_eq!(Cache::<GameBoard>::get(&mut cache, &board), None);
}

#[test]
fn cache_keys_differ_where_boards_differ() {
    let cells = [
        CellState::EMPTY,
        CellState::GREEN,
        CellState::YELLOW,
        CellState::RED,
    ];
    let mut keys = std::collections::HashSet::new();
    for place in 0..9 {
        for cell in cells {
            for player in [Player::Min, Player::Max] {
                let mut board = GameBoard::new([CellState::EMPTY; 9], player);
                board.cells[place] = cell;
                keys.insert(board.cache_key());
            }
        }
    }
    // the empty board comes once for each side and each place
    assert_eq!(keys.len(), 2 + 9 * 3 * 2);
    assert_eq!(GameBoard::new([CellState::EMPTY; 9], Player::Min).cache_key(), (0, 0));
    assert_eq!(GameBoard::new([CellState::EMPTY; 9], Player::Max).cache_key(), (1, 0));
    let mut board = GameBoard::new([CellState::EMPTY; 9], Player::Min);
    board.cells[1] = CellState::RED;
    assert_eq!(board.cache_key(), (2 * 3 * 4, 0));
}
