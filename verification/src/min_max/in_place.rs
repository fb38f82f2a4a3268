//! The search on one state that every move is played on and taken back
//! from, for games whose states are costly to copy, and moves on a board of
//! three by three cells that carry the list of the mirrorings they stand
//! for.

use crate::min_max::cache::{CacheEntry, CacheFlag};
use crate::min_max::{
    best_of, brackets, entry_holds, flag_of, is_best, lemma_filter_map_values, lowered_beta,
    raised_alpha, same_but_for, scored_views, scores_of, settles, tops, Player, ScoredMove,
    INFINITY, SCORE_LIMIT,
};
use std::ops::Not;
use vstd::prelude::*;

verus! {

/// What a game has to offer for the search to play it on one state: its
/// moves, how a move is played and taken back, what a state is worth, and a
/// place to remember what was found.
pub trait MinMaxStrategy<S, M: View>: Sized {
    /// The states that the game can be played from.
    spec fn valid(state: &S) -> bool;

    /// The legal moves of a state, in the order in which they are searched.
    spec fn moves(state: &S) -> Seq<M::V>;

    /// Whether the game is over in a state.
    spec fn terminal(state: &S) -> bool;

    /// The state after a move of `player`.
    spec fn played(state: &S, mv: M::V, player: Player) -> S;

    /// What a state is worth to `player`.
    spec fn value(state: &S, player: Player) -> int;

    /// Whether a state tells who moved last and how many moves led to it.
    spec fn ranked() -> bool;

    /// The number of moves that led to a state.
    spec fn ply(state: &S) -> nat;

    /// Who moved last.
    spec fn mover(state: &S) -> Player;

    /// Whether `cache` records what it is given. A strategy that does not
    /// never answers a `lookup`.
    spec fn keeps() -> bool;

    /// What the strategy remembers.
    spec fn entries(&self) -> Map<S, CacheEntry>;

    /// A legal move leads to a state of the game, and in a ranked game to one
    /// that is a move further on and that `player` moved last in.
    proof fn lemma_played(state: &S, i: int, player: Player)
        requires
            Self::valid(state),
            0 <= i < Self::moves(state).len(),
        ensures
            Self::valid(&Self::played(state, Self::moves(state)[i], player)),
            Self::ranked() ==> Self::ply(&Self::played(state, Self::moves(state)[i], player))
                == Self::ply(state) + 1,
            Self::ranked() ==> Self::mover(&Self::played(state, Self::moves(state)[i], player))
                == player,
    ;

    /// No state is worth more than the limit.
    proof fn lemma_value(state: &S, player: Player)
        requires
            Self::valid(state),
        ensures
            -SCORE_LIMIT <= Self::value(state, player) <= SCORE_LIMIT,
    ;

    fn possible_moves(state: &S) -> (r: Vec<M>)
        requires
            Self::valid(state),
        ensures
            r.len() == Self::moves(state).len(),
            forall|i: int| 0 <= i < r.len() ==> (#[trigger] r[i])@ == Self::moves(state)[i],
    ;

    fn is_terminal(state: &S) -> (r: bool)
        requires
            Self::valid(state),
        ensures
            r == Self::terminal(state),
    ;

    fn score(state: &S, player: Player) -> (r: i32)
        requires
            Self::valid(state),
        ensures
            r == Self::value(state, player),
    ;

    /// Plays a move on the state.
    fn do_move(state: &mut S, min_max_move: &M, player: Player)
        requires
            Self::valid(old(state)),
            Self::moves(old(state)).contains(min_max_move@),
        ensures
            *final(state) == Self::played(old(state), min_max_move@, player),
    ;

    /// Takes back a move that was played on the state.
    fn undo_move(state: &mut S, min_max_move: &M, player: Player)
        requires
            exists|before: S|
                Self::valid(&before) && Self::moves(&before).contains(min_max_move@) && *old(state)
                    == #[trigger] Self::played(&before, min_max_move@, player),
        ensures
            forall|before: S|
                Self::valid(&before) && Self::moves(&before).contains(min_max_move@) && *old(state)
                    == #[trigger] Self::played(&before, min_max_move@, player) ==> *final(state)
                    == before,
    ;

    /// Remembers `entry` for `state`, in place of what was remembered before.
    fn cache(&mut self, state: &S, entry: CacheEntry)
        ensures
            final(self).entries() == if Self::keeps() {
                old(self).entries().insert(*state, entry)
            } else {
                old(self).entries()
            },
    ;

    /// What is remembered for `state`, if anything is.
    fn lookup(&mut self, state: &S) -> (r: Option<CacheEntry>)
        ensures
            final(self).entries() == old(self).entries(),
            r == if Self::keeps() && old(self).entries().contains_key(*state) {
                Some(old(self).entries()[*state])
            } else {
                None
            },
    ;
}

/// What a state is worth to `player` when the search stops at it with `depth`
/// levels left.
pub open spec fn leaf_score<S, M: View, T: MinMaxStrategy<S, M>>(
    state: &S,
    player: Player,
    depth: nat,
) -> int {
    T::value(state, player) * (depth + 1)
}

/// The value of a state to the player who is to move in it, by a full search
/// of `depth` levels. The search stops where the game is over and where no
/// level is left. A state in which the game is not over and that has no move
/// is worth `-INFINITY`.
pub open spec fn negamax<S, M: View, T: MinMaxStrategy<S, M>>(
    state: &S,
    player: Player,
    depth: nat,
) -> int
    decreases depth, 1nat, 0nat,
{
    if T::terminal(state) || depth == 0 {
        leaf_score::<S, M, T>(state, player, depth)
    } else {
        best_reply::<S, M, T>(state, player, depth, T::moves(state).len())
    }
}

/// The best that `player` gets from the first `n` moves of a state, and
/// `-INFINITY` from none.
pub open spec fn best_reply<S, M: View, T: MinMaxStrategy<S, M>>(
    state: &S,
    player: Player,
    depth: nat,
    n: nat,
) -> int
    decreases depth, 0nat, n,
{
    if depth == 0 || n == 0 {
        -INFINITY
    } else {
        let rest = best_reply::<S, M, T>(state, player, depth, (n - 1) as nat);
        let this = -negamax::<S, M, T>(
            &T::played(state, T::moves(state)[n - 1], player),
            player.opponent(),
            (depth - 1) as nat,
        );
        if this > rest {
            this
        } else {
            rest
        }
    }
}

/// Whether what is remembered for `state` is true of it in a search that
/// ends `horizon` moves into the game.
pub open spec fn entry_sound<S, M: View, T: MinMaxStrategy<S, M>>(
    entries: Map<S, CacheEntry>,
    state: S,
    horizon: int,
) -> bool {
    let entry = entries[state];
    (T::valid(&state) && entries.contains_key(state) && T::ply(&state) <= horizon && entry.level
        >= horizon - T::ply(&state)) ==> entry_holds(
        entry,
        negamax::<S, M, T>(&state, T::mover(&state).opponent(), (horizon - T::ply(&state)) as nat),
    )
}

/// Whether a search that ends `horizon` moves into the game can rely on what
/// is remembered: nothing is kept, or the game is ranked and every entry is
/// sound.
pub open spec fn cache_sound<S, M: View, T: MinMaxStrategy<S, M>>(
    entries: Map<S, CacheEntry>,
    horizon: int,
) -> bool {
    T::keeps() ==> {
        &&& T::ranked()
        &&& forall|s: S| #[trigger] entry_sound::<S, M, T>(entries, s, horizon)
    }
}

/// Whether the value of `state`'s entry, if there is one, can be negated.
pub open spec fn entry_bounded<S>(entries: Map<S, CacheEntry>, state: S) -> bool {
    entries.contains_key(state) ==> -INFINITY <= entries[state].value <= INFINITY
}

/// Whether the value of every entry can be negated.
pub open spec fn cache_bounded<S, M: View, T: MinMaxStrategy<S, M>>(entries: Map<S, CacheEntry>)
    -> bool {
    T::keeps() ==> forall|s: S| #[trigger] entry_bounded(entries, s)
}

/// The value of a state can be negated.
pub proof fn lemma_negamax_bounded<S, M: View, T: MinMaxStrategy<S, M>>(
    state: &S,
    player: Player,
    depth: nat,
)
    requires
        T::valid(state),
        depth <= 255,
    ensures
        -INFINITY <= negamax::<S, M, T>(state, player, depth) <= INFINITY,
    decreases depth, 1nat, 0nat,
{
    if T::terminal(state) || depth == 0 {
        lemma_leaf_bounded::<S, M, T>(state, player, depth);
    } else {
        lemma_best_reply_bounded::<S, M, T>(state, player, depth, T::moves(state).len());
    }
}

/// The score of a leaf can be negated.
pub proof fn lemma_leaf_bounded<S, M: View, T: MinMaxStrategy<S, M>>(
    state: &S,
    player: Player,
    depth: nat,
)
    requires
        T::valid(state),
        depth <= 255,
    ensures
        -INFINITY < leaf_score::<S, M, T>(state, player, depth) < INFINITY,
{
    T::lemma_value(state, player);
    let v = T::value(state, player);
    assert(-SCORE_LIMIT * 256 <= v * (depth + 1) <= SCORE_LIMIT * 256) by (nonlinear_arith)
        requires
            -SCORE_LIMIT <= v <= SCORE_LIMIT,
            0 <= depth <= 255,
    ;
}

/// The best of the first moves can be negated.
pub proof fn lemma_best_reply_bounded<S, M: View, T: MinMaxStrategy<S, M>>(
    state: &S,
    player: Player,
    depth: nat,
    n: nat,
)
    requires
        T::valid(state),
        0 < depth <= 255,
        n <= T::moves(state).len(),
    ensures
        -INFINITY <= best_reply::<S, M, T>(state, player, depth, n) <= INFINITY,
    decreases depth, 0nat, n,
{
    if n > 0 {
        let child = T::played(state, T::moves(state)[n - 1], player);
        T::lemma_played(state, n - 1, player);
        lemma_negamax_bounded::<S, M, T>(&child, player.opponent(), (depth - 1) as nat);
        lemma_best_reply_bounded::<S, M, T>(state, player, depth, (n - 1) as nat);
    }
}

/// More moves give the player no less.
pub proof fn lemma_best_reply_grows<S, M: View, T: MinMaxStrategy<S, M>>(
    state: &S,
    player: Player,
    depth: nat,
    m: nat,
    n: nat,
)
    requires
        m <= n,
    ensures
        best_reply::<S, M, T>(state, player, depth, m) <= best_reply::<S, M, T>(
            state,
            player,
            depth,
            n,
        ),
    decreases n,
{
    if m < n {
        lemma_best_reply_grows::<S, M, T>(state, player, depth, m, (n - 1) as nat);
    }
}

/// What is remembered for `state`, as a `lookup` gives it.
pub open spec fn answer<S, M: View, T: MinMaxStrategy<S, M>>(
    entries: Map<S, CacheEntry>,
    state: &S,
) -> Option<CacheEntry> {
    if T::keeps() && entries.contains_key(*state) {
        Some(entries[*state])
    } else {
        None
    }
}

/// What is remembered after `entry` was given for `state`.
pub open spec fn remembered<S, M: View, T: MinMaxStrategy<S, M>>(
    entries: Map<S, CacheEntry>,
    state: &S,
    entry: CacheEntry,
) -> Map<S, CacheEntry> {
    if T::keeps() {
        entries.insert(*state, entry)
    } else {
        entries
    }
}

/// The entry that a search of `state` with `depth` levels left makes use
/// of: what is remembered for the state, if it comes from a search with at
/// least as many levels left. An entry of fewer levels counts as none.
pub open spec fn usable_entry<S, M: View, T: MinMaxStrategy<S, M>>(
    entries: Map<S, CacheEntry>,
    state: &S,
    depth: nat,
) -> Option<CacheEntry> {
    match answer::<S, M, T>(entries, state) {
        Some(entry) => if entry.level >= depth {
            Some(entry)
        } else {
            None
        },
        None => None,
    }
}

/// What the search of a state gives, and what is remembered after it. What
/// is remembered of the state is asked first, also with no level left: an
/// entry that settles the search is the result. Else a state in which the
/// game is over, or any state with no level left, is scored, times the
/// levels left and one. Else the moves are searched in their order, and the
/// best of them is the result, which is remembered for the state, with the
/// levels left and filed by the lower end of the window as it was passed in
/// and by the upper end as the entry left it.
pub open spec fn search<S, M: View, T: MinMaxStrategy<S, M>>(
    entries: Map<S, CacheEntry>,
    state: &S,
    player: Player,
    depth: nat,
    alpha: int,
    beta: int,
) -> (int, Map<S, CacheEntry>)
    decreases depth, 1nat, 0nat,
{
    let entry = usable_entry::<S, M, T>(entries, state, depth);
    if settles(entry, alpha, beta) {
        (entry.unwrap().value as int, entries)
    } else if T::terminal(state) || depth == 0 {
        (leaf_score::<S, M, T>(state, player, depth), entries)
    } else {
        let upper = lowered_beta(entry, beta);
        let scan = searched_moves::<S, M, T>(
            entries,
            state,
            player,
            depth,
            raised_alpha(entry, alpha),
            upper,
            T::moves(state).len(),
        );
        (
            scan.0,
            remembered::<S, M, T>(
                scan.2,
                state,
                CacheEntry {
                    value: scan.0 as i32,
                    level: depth as u8,
                    flag: flag_of(scan.0, alpha, upper),
                },
            ),
        )
    }
}

/// The best score, the lower end of the window and what is remembered after
/// the first `n` moves of a state were searched. Each move is searched in
/// the negated window, the lower end rises to the best score, and once the
/// window is closed no further move is searched.
pub open spec fn searched_moves<S, M: View, T: MinMaxStrategy<S, M>>(
    entries: Map<S, CacheEntry>,
    state: &S,
    player: Player,
    depth: nat,
    alpha: int,
    beta: int,
    n: nat,
) -> (int, int, Map<S, CacheEntry>)
    decreases depth, 0nat, n,
{
    if depth == 0 || n == 0 {
        (-INFINITY as int, alpha, entries)
    } else {
        let before = searched_moves::<S, M, T>(
            entries,
            state,
            player,
            depth,
            alpha,
            beta,
            (n - 1) as nat,
        );
        if before.1 >= beta {
            before
        } else {
            let reply = search::<S, M, T>(
                before.2,
                &T::played(state, T::moves(state)[n - 1], player),
                player.opponent(),
                (depth - 1) as nat,
                -beta,
                -before.1,
            );
            let best = if -reply.0 > before.0 {
                -reply.0
            } else {
                before.0
            };
            (
                best,
                if best > before.1 {
                    best
                } else {
                    before.1
                },
                reply.1,
            )
        }
    }
}

/// Once the window is closed, further moves change nothing.
pub proof fn lemma_searched_moves_stay<S, M: View, T: MinMaxStrategy<S, M>>(
    entries: Map<S, CacheEntry>,
    state: &S,
    player: Player,
    depth: nat,
    alpha: int,
    beta: int,
    m: nat,
    n: nat,
)
    requires
        depth > 0,
        m <= n,
        searched_moves::<S, M, T>(entries, state, player, depth, alpha, beta, m).1 >= beta,
    ensures
        searched_moves::<S, M, T>(entries, state, player, depth, alpha, beta, n)
            == searched_moves::<S, M, T>(entries, state, player, depth, alpha, beta, m),
    decreases n,
{
    if m < n {
        lemma_searched_moves_stay::<S, M, T>(
            entries,
            state,
            player,
            depth,
            alpha,
            beta,
            m,
            (n - 1) as nat,
        );
    }
}

/// An entry of at least the levels left that is exact, or that closes the
/// window, is the result, also with no level left, and what is remembered
/// is left as it was.
pub proof fn lemma_search_settled<S, M: View, T: MinMaxStrategy<S, M>>(
    entries: Map<S, CacheEntry>,
    state: &S,
    player: Player,
    depth: nat,
    alpha: int,
    beta: int,
)
    requires
        T::keeps(),
        entries.contains_key(*state),
        entries[*state].level >= depth,
        settles(Some(entries[*state]), alpha, beta),
    ensures
        search::<S, M, T>(entries, state, player, depth, alpha, beta) == (
            entries[*state].value as int,
            entries,
        ),
{
}

/// Where no entry settles the search, a state in which the game is over, or
/// any state with no level left, is scored, times the levels left and one,
/// whatever the window is, and what is remembered is left as it was.
pub proof fn lemma_search_stops<S, M: View, T: MinMaxStrategy<S, M>>(
    entries: Map<S, CacheEntry>,
    state: &S,
    player: Player,
    depth: nat,
    alpha: int,
    beta: int,
)
    requires
        T::terminal(state) || depth == 0,
        !settles(usable_entry::<S, M, T>(entries, state, depth), alpha, beta),
    ensures
        search::<S, M, T>(entries, state, player, depth, alpha, beta) == (
            T::value(state, player) * (depth + 1),
            entries,
        ),
{
}

/// Where no entry settles the search, the game is not over and a level is
/// left, a strategy that keeps what it is given remembers afterwards, for
/// the state, the result with the levels left, filed by the lower end of the
/// window as it was passed in and by the upper end as the entry left it.
pub proof fn lemma_search_remembers<S, M: View, T: MinMaxStrategy<S, M>>(
    entries: Map<S, CacheEntry>,
    state: &S,
    player: Player,
    depth: nat,
    alpha: int,
    beta: int,
)
    requires
        depth > 0,
        T::keeps(),
        !T::terminal(state),
        !settles(usable_entry::<S, M, T>(entries, state, depth), alpha, beta),
    ensures
        ({
            let found = search::<S, M, T>(entries, state, player, depth, alpha, beta);
            &&& found.1.contains_key(*state)
            &&& found.1[*state] == CacheEntry {
                value: found.0 as i32,
                level: depth as u8,
                flag: flag_of(
                    found.0,
                    alpha,
                    lowered_beta(usable_entry::<S, M, T>(entries, state, depth), beta),
                ),
            }
        }),
{
}

/// The sign law of the search: at a state where the search stops, because
/// no level is left or the game is over, for which nothing is remembered
/// that the search makes use of, and that is worth to one side what it
/// costs the other, the result for one side in a window is the negated
/// result for the other side in the negated window, and neither depends on
/// the window.
pub proof fn lemma_search_sign<S, M: View, T: MinMaxStrategy<S, M>>(
    entries: Map<S, CacheEntry>,
    state: &S,
    depth: nat,
    alpha: int,
    beta: int,
)
    requires
        depth == 0 || T::terminal(state),
        usable_entry::<S, M, T>(entries, state, depth) is None,
        T::value(state, Player::Max) == -T::value(state, Player::Min),
    ensures
        search::<S, M, T>(entries, state, Player::Max, depth, alpha, beta).0 == T::value(
            state,
            Player::Max,
        ) * (depth + 1),
        search::<S, M, T>(entries, state, Player::Max, depth, alpha, beta).0 == -search::<S, M, T>(
            entries,
            state,
            Player::Min,
            depth,
            -beta,
            -alpha,
        ).0,
{
    let v = T::value(state, Player::Min);
    assert((-v) * (depth + 1) == -(v * (depth + 1))) by (nonlinear_arith);
}

/// In a ranked game the search of a state that lies further on than `at`
/// does not see what is remembered for `at`.
pub proof fn lemma_search_apart<S, M: View, T: MinMaxStrategy<S, M>>(
    a: Map<S, CacheEntry>,
    b: Map<S, CacheEntry>,
    at: S,
    state: &S,
    player: Player,
    depth: nat,
    alpha: int,
    beta: int,
)
    requires
        T::ranked(),
        T::valid(state),
        T::ply(state) > T::ply(&at),
        same_but_for(a, b, at),
    ensures
        search::<S, M, T>(a, state, player, depth, alpha, beta).0 == search::<S, M, T>(
            b,
            state,
            player,
            depth,
            alpha,
            beta,
        ).0,
        same_but_for(
            search::<S, M, T>(a, state, player, depth, alpha, beta).1,
            search::<S, M, T>(b, state, player, depth, alpha, beta).1,
            at,
        ),
    decreases depth, 1nat, 0nat,
{
    assert(*state != at);
    assert(a.contains_key(*state) == b.contains_key(*state));
    assert(answer::<S, M, T>(a, state) == answer::<S, M, T>(b, state));
    let entry = usable_entry::<S, M, T>(a, state, depth);
    if depth > 0 && !settles(entry, alpha, beta) && !T::terminal(state) {
        let upper = lowered_beta(entry, beta);
        let lower = raised_alpha(entry, alpha);
        let n = T::moves(state).len();
        lemma_searched_moves_apart::<S, M, T>(a, b, at, state, player, depth, lower, upper, n);
        let one = searched_moves::<S, M, T>(a, state, player, depth, lower, upper, n);
        let other = searched_moves::<S, M, T>(b, state, player, depth, lower, upper, n);
        let filed = CacheEntry {
            value: one.0 as i32,
            level: depth as u8,
            flag: flag_of(one.0, alpha, upper),
        };
        assert forall|s: S| s != at implies (#[trigger] remembered::<S, M, T>(
            one.2,
            state,
            filed,
        ).contains_key(s)) == remembered::<S, M, T>(other.2, state, filed).contains_key(s) && (
        remembered::<S, M, T>(one.2, state, filed).contains_key(s) ==> remembered::<S, M, T>(
            one.2,
            state,
            filed,
        )[s] == remembered::<S, M, T>(other.2, state, filed)[s]) by {
            assert(one.2.contains_key(s) == other.2.contains_key(s));
        }
    }
}

/// In a ranked game the search of the moves of a state that lies no nearer
/// than `at` does not see what is remembered for `at`.
pub proof fn lemma_searched_moves_apart<S, M: View, T: MinMaxStrategy<S, M>>(
    a: Map<S, CacheEntry>,
    b: Map<S, CacheEntry>,
    at: S,
    state: &S,
    player: Player,
    depth: nat,
    alpha: int,
    beta: int,
    n: nat,
)
    requires
        T::ranked(),
        T::valid(state),
        T::ply(state) >= T::ply(&at),
        same_but_for(a, b, at),
        depth > 0,
        n <= T::moves(state).len(),
    ensures
        searched_moves::<S, M, T>(a, state, player, depth, alpha, beta, n).0
            == searched_moves::<S, M, T>(b, state, player, depth, alpha, beta, n).0,
        searched_moves::<S, M, T>(a, state, player, depth, alpha, beta, n).1
            == searched_moves::<S, M, T>(b, state, player, depth, alpha, beta, n).1,
        same_but_for(
            searched_moves::<S, M, T>(a, state, player, depth, alpha, beta, n).2,
            searched_moves::<S, M, T>(b, state, player, depth, alpha, beta, n).2,
            at,
        ),
    decreases depth, 0nat, n,
{
    if n > 0 {
        lemma_searched_moves_apart::<S, M, T>(
            a,
            b,
            at,
            state,
            player,
            depth,
            alpha,
            beta,
            (n - 1) as nat,
        );
        let one = searched_moves::<S, M, T>(a, state, player, depth, alpha, beta, (n - 1) as nat);
        let other = searched_moves::<S, M, T>(b, state, player, depth, alpha, beta, (n - 1) as nat);
        if one.1 < beta {
            T::lemma_played(state, n - 1, player);
            lemma_search_apart::<S, M, T>(
                one.2,
                other.2,
                at,
                &T::played(state, T::moves(state)[n - 1], player),
                player.opponent(),
                (depth - 1) as nat,
                -beta,
                -one.1,
            );
        }
    }
}

/// An entry from a search with fewer levels left is not made use of: it
/// leaves both ends of the window where they are and settles nothing.
pub proof fn lemma_lower_entry_leaves_window<S, M: View, T: MinMaxStrategy<S, M>>(
    entries: Map<S, CacheEntry>,
    state: &S,
    depth: nat,
    alpha: int,
    beta: int,
)
    requires
        entries.contains_key(*state),
        entries[*state].level < depth,
    ensures
        usable_entry::<S, M, T>(entries, state, depth) is None,
        raised_alpha(usable_entry::<S, M, T>(entries, state, depth), alpha) == alpha,
        lowered_beta(usable_entry::<S, M, T>(entries, state, depth), beta) == beta,
        !settles(usable_entry::<S, M, T>(entries, state, depth), alpha, beta),
{
}

/// An entry from a search with fewer levels left counts as none: in a ranked
/// game the result is what it is without the entry, and where the game is
/// not over in the state and the strategy keeps what it is given, so is what
/// is remembered afterwards, which holds for the state an entry with the
/// levels left.
pub proof fn lemma_lower_entry_is_ignored<S, M: View, T: MinMaxStrategy<S, M>>(
    entries: Map<S, CacheEntry>,
    state: &S,
    player: Player,
    depth: nat,
    alpha: int,
    beta: int,
)
    requires
        T::ranked(),
        T::valid(state),
        entries.contains_key(*state),
        entries[*state].level < depth <= 255,
    ensures
        usable_entry::<S, M, T>(entries, state, depth) is None,
        ({
            let found = search::<S, M, T>(entries, state, player, depth, alpha, beta);
            let plain = search::<S, M, T>(
                entries.remove(*state),
                state,
                player,
                depth,
                alpha,
                beta,
            );
            &&& found.0 == plain.0
            &&& T::keeps() && !T::terminal(state) ==> {
                &&& found.1 == plain.1
                &&& found.1[*state].level == depth
            }
        }),
{
    let without = entries.remove(*state);
    let n = T::moves(state).len();
    if !T::terminal(state) {
        lemma_searched_moves_apart::<S, M, T>(
            entries,
            without,
            *state,
            state,
            player,
            depth,
            alpha,
            beta,
            n,
        );
        if T::keeps() {
            let one = search::<S, M, T>(entries, state, player, depth, alpha, beta).1;
            let other = search::<S, M, T>(without, state, player, depth, alpha, beta).1;
            let scan = searched_moves::<S, M, T>(entries, state, player, depth, alpha, beta, n);
            let twin = searched_moves::<S, M, T>(without, state, player, depth, alpha, beta, n);
            assert forall|s: S| one.contains_key(s) == other.contains_key(s) && (
            one.contains_key(s) ==> one[s] == other[s]) by {
                if s != *state {
                    assert(scan.2.contains_key(s) == twin.2.contains_key(s));
                }
            }
            assert(one =~= other);
        }
    }
}

/// The scores of the first `n` moves of `state`, which `Max` makes, and what
/// is remembered after they were searched: each move is searched with one
/// level less in the open window, and its score is the negated result.
pub open spec fn scored_moves<S, M: View, T: MinMaxStrategy<S, M>>(
    entries: Map<S, CacheEntry>,
    state: &S,
    max_level: nat,
    n: nat,
) -> (Seq<int>, Map<S, CacheEntry>)
    decreases n,
{
    if n == 0 {
        (Seq::empty(), entries)
    } else {
        let before = scored_moves::<S, M, T>(entries, state, max_level, (n - 1) as nat);
        let reply = search::<S, M, T>(
            before.1,
            &T::played(state, T::moves(state)[n - 1], Player::Max),
            Player::Min,
            (max_level - 1) as nat,
            -INFINITY as int,
            INFINITY as int,
        );
        (before.0.push(-reply.0), reply.1)
    }
}

/// Every move of `state` with the score that the search of `max_level`
/// levels gives it, with what is remembered as it is.
pub open spec fn searched_scores<S, M: View, T: MinMaxStrategy<S, M>>(
    entries: Map<S, CacheEntry>,
    state: &S,
    max_level: nat,
) -> Seq<(int, M::V)> {
    Seq::new(
        T::moves(state).len(),
        |i: int|
            (
                scored_moves::<S, M, T>(entries, state, max_level, T::moves(state).len()).0[i],
                T::moves(state)[i],
            ),
    )
}

/// The value of the state to `player`, who is to move in it, by a search of
/// `remaining_levels` levels that leaves out what cannot matter inside the
/// window `(alpha, beta)`. What is remembered of the state is asked first.
/// Every move is played on the state and taken back again, so that the state
/// is in the end what it was. The result and what is remembered afterwards
/// are those of `search`.
///
/// Where the window is not empty and what is remembered can be relied on,
/// the result brackets the value of the full search, and what is remembered
/// can be relied on afterwards.
fn alpha_beta_eval<S, M: View, STRATEGY: MinMaxStrategy<S, M>>(
    strategy: &mut STRATEGY,
    state: &mut S,
    player: Player,
    remaining_levels: u8,
    alpha: i32,
    beta: i32,
) -> (r: i32)
    requires
        STRATEGY::valid(old(state)),
        -INFINITY <= alpha <= INFINITY,
        -INFINITY <= beta <= INFINITY,
        STRATEGY::ranked() ==> player == STRATEGY::mover(old(state)).opponent(),
        cache_bounded::<S, M, STRATEGY>(old(strategy).entries()),
    ensures
        *final(state) == *old(state),
        -INFINITY <= r <= INFINITY,
        (r as int, final(strategy).entries()) == search::<S, M, STRATEGY>(
            old(strategy).entries(),
            old(state),
            player,
            remaining_levels as nat,
            alpha as int,
            beta as int,
        ),
        cache_bounded::<S, M, STRATEGY>(final(strategy).entries()),
        alpha < beta && cache_sound::<S, M, STRATEGY>(
            old(strategy).entries(),
            remaining_levels + STRATEGY::ply(old(state)),
        ) ==> {
            &&& cache_sound::<S, M, STRATEGY>(
                final(strategy).entries(),
                remaining_levels + STRATEGY::ply(old(state)),
            )
            &&& brackets(
                r as int,
                negamax::<S, M, STRATEGY>(old(state), player, remaining_levels as nat),
                alpha as int,
                beta as int,
            )
        },
    decreases remaining_levels,
{
    let ghost start = *state;
    let ghost horizon: int = remaining_levels + STRATEGY::ply(state);
    let ghost trusted: bool = alpha < beta && cache_sound::<S, M, STRATEGY>(
        old(strategy).entries(),
        horizon,
    );
    let ghost given = old(strategy).entries();
    let ghost entry_used = usable_entry::<S, M, STRATEGY>(given, state, remaining_levels as nat);
    let ghost beta_at_entry = beta as int;
    let ghost depth: nat = remaining_levels as nat;
    let ghost truth: int = negamax::<S, M, STRATEGY>(state, player, depth);
    let alpha_at_entry = alpha;
    let mut alpha = alpha;
    let mut beta = beta;
    let found = strategy.lookup(state);
    proof {
        assert(found == answer::<S, M, STRATEGY>(given, state));
        if trusted && STRATEGY::keeps() {
            assert(entry_sound::<S, M, STRATEGY>(old(strategy).entries(), start, horizon));
        }
        if STRATEGY::keeps() {
            assert(entry_bounded(old(strategy).entries(), start));
        }
    }
    if let Some(entry) = found {
        if entry.level >= remaining_levels {
            match entry.flag {
                CacheFlag::Exact => {
                    return entry.value;
                },
                CacheFlag::LowerBound => {
                    if entry.value > alpha {
                        alpha = entry.value;
                    }
                },
                CacheFlag::UpperBound => {
                    if entry.value < beta {
                        beta = entry.value;
                    }
                },
            }
            if alpha >= beta {
                return entry.value;
            }
        }
    }
    if STRATEGY::is_terminal(state) || remaining_levels == 0 {
        let score = STRATEGY::score(state, player);
        let factor: i32 = remaining_levels as i32 + 1;
        proof {
            lemma_leaf_bounded::<S, M, STRATEGY>(state, player, depth);
            STRATEGY::lemma_value(state, player);
            assert(-SCORE_LIMIT * 256 <= score * factor <= SCORE_LIMIT * 256) by (nonlinear_arith)
                requires
                    -SCORE_LIMIT <= score <= SCORE_LIMIT,
                    1 <= factor <= 256,
            ;
        }
        return score * factor;
    }
    let moves = STRATEGY::possible_moves(state);
    let ghost floor: int = alpha as int;
    let ghost upper: int = beta as int;
    proof {
        assert(floor == raised_alpha(entry_used, alpha_at_entry as int));
        assert(upper == lowered_beta(entry_used, beta_at_entry));
        assert(!settles(entry_used, alpha_at_entry as int, beta_at_entry));
    }
    let mut max_score: i32 = -INFINITY;
    let mut i: usize = 0;
    while i < moves.len() && alpha < beta
        invariant
            0 <= i <= moves.len(),
            upper == beta,
            (max_score as int, alpha as int, strategy.entries())
                == searched_moves::<S, M, STRATEGY>(
                given,
                &start,
                player,
                depth,
                floor,
                upper,
                i as nat,
            ),
            remaining_levels > 0,
            depth == remaining_levels as nat,
            *state == start,
            horizon == remaining_levels + STRATEGY::ply(&start),
            STRATEGY::valid(&start),
            STRATEGY::ranked() ==> player == STRATEGY::mover(&start).opponent(),
            moves.len() == STRATEGY::moves(&start).len(),
            forall|j: int| 0 <= j < moves.len() ==> (#[trigger] moves[j])@ == STRATEGY::moves(
                &start)[j],
            -INFINITY <= floor <= alpha <= INFINITY,
            -INFINITY <= beta <= INFINITY,
            trusted ==> floor < beta,
            -INFINITY <= max_score <= INFINITY,
            alpha == if max_score > floor { max_score as int } else { floor },
            cache_bounded::<S, M, STRATEGY>(strategy.entries()),
            trusted ==> cache_sound::<S, M, STRATEGY>(strategy.entries(), horizon),
            trusted && alpha < beta ==> best_reply::<S, M, STRATEGY>(
                &start,
                player,
                depth,
                i as nat,
            ) <= max_score,
            trusted && alpha < beta && max_score > floor ==> best_reply::<S, M, STRATEGY>(
                &start,
                player,
                depth,
                i as nat,
            ) == max_score,
            trusted && alpha >= beta ==> best_reply::<S, M, STRATEGY>(
                &start,
                player,
                depth,
                i as nat,
            ) >= max_score >= beta,
        decreases moves.len() - i, (if alpha < beta { 1nat } else { 0nat }),
    {
        let m = &moves[i];
        proof {
            assert(moves[i as int]@ == STRATEGY::moves(&start)[i as int]);
            STRATEGY::lemma_played(&start, i as int, player);
        }
        STRATEGY::do_move(state, m, player);
        let reply = alpha_beta_eval(strategy, state, player.not(), remaining_levels - 1, -beta,
            -alpha);
        let score = -reply;
        if score > max_score {
            max_score = score;
        }
        proof {
            assert(*state == STRATEGY::played(&start, m@, player));
        }
        STRATEGY::undo_move(state, m, player);
        if max_score > alpha {
            alpha = max_score;
        }
        i += 1;
    }
    proof {
        if trusted {
            lemma_best_reply_grows::<S, M, STRATEGY>(
                &start,
                player,
                depth,
                i as nat,
                moves.len() as nat,
            );
        }
        if i < moves.len() {
            lemma_searched_moves_stay::<S, M, STRATEGY>(
                given,
                &start,
                player,
                depth,
                floor,
                upper,
                i as nat,
                moves.len() as nat,
            );
        }
    }
    let flag = if max_score <= alpha_at_entry {
        CacheFlag::UpperBound
    } else if max_score >= beta {
        CacheFlag::LowerBound
    } else {
        CacheFlag::Exact
    };
    let entry = CacheEntry { level: remaining_levels, flag, value: max_score };
    let ghost before = strategy.entries();
    strategy.cache(state, entry);
    proof {
        assert forall|s: S| STRATEGY::keeps() implies #[trigger] entry_bounded(
            strategy.entries(),
            s,
        ) by {
            assert(entry_bounded(before, s));
        }
        if trusted && STRATEGY::keeps() {
            assert(entry_holds(entry, truth));
            assert forall|s: S| #[trigger]
                entry_sound::<S, M, STRATEGY>(strategy.entries(), s, horizon) by {
                assert(entry_sound::<S, M, STRATEGY>(before, s, horizon));
            }
        }
    }
    max_score
}

/// The score that a full search of `max_level` levels gives the `i`-th move
/// of `state`, which `Max` makes.
pub open spec fn move_score<S, M: View, T: MinMaxStrategy<S, M>>(
    state: &S,
    i: int,
    max_level: nat,
) -> int {
    -negamax::<S, M, T>(
        &T::played(state, T::moves(state)[i], Player::Max),
        Player::Min,
        (max_level - 1) as nat,
    )
}

/// Scores every move that `Max` has in the state, by a search of `max_level`
/// levels. The state is in the end what it was. Scores and what is
/// remembered afterwards are those of `scored_moves`.
///
/// Where what is remembered can be relied on, each score is the one that a
/// full search gives the move.
pub fn all_moves_scored<S, M: View, STRATEGY: MinMaxStrategy<S, M>>(
    strategy: &mut STRATEGY,
    state: &mut S,
    max_level: u8,
) -> (r: Vec<ScoredMove<M>>)
    requires
        STRATEGY::valid(old(state)),
        max_level >= 1,
        cache_bounded::<S, M, STRATEGY>(old(strategy).entries()),
    ensures
        *final(state) == *old(state),
        r.len() == STRATEGY::moves(old(state)).len(),
        forall|i: int|
            0 <= i < r.len() ==> (#[trigger] r[i]).min_max_move@ == STRATEGY::moves(old(state))[i],
        (scores_of(r@), final(strategy).entries()) == scored_moves::<S, M, STRATEGY>(
            old(strategy).entries(),
            old(state),
            max_level as nat,
            STRATEGY::moves(old(state)).len(),
        ),
        cache_bounded::<S, M, STRATEGY>(final(strategy).entries()),
        cache_sound::<S, M, STRATEGY>(old(strategy).entries(), max_level + STRATEGY::ply(old(
            state)))
            ==> {
            &&& cache_sound::<S, M, STRATEGY>(
                final(strategy).entries(),
                max_level + STRATEGY::ply(old(state)),
            )
            &&& forall|i: int|
                0 <= i < r.len() ==> (#[trigger] r[i]).score == move_score::<S, M, STRATEGY>(
                    old(state),
                    i,
                    max_level as nat,
                )
        },
{
    let ghost start = *state;
    let pos_moves = STRATEGY::possible_moves(state);
    let ghost offered = pos_moves@;
    let ghost given = old(strategy).entries();
    let ghost horizon: int = max_level + STRATEGY::ply(state);
    let ghost trusted: bool = cache_sound::<S, M, STRATEGY>(old(strategy).entries(), horizon);
    let mut scores: Vec<ScoredMove<M>> = Vec::new();
    for m in it: pos_moves
        invariant
            it.seq() == offered,
            *state == start,
            offered.len() == STRATEGY::moves(&start).len(),
            forall|j: int|
                0 <= j < offered.len() ==> (#[trigger] offered[j])@ == STRATEGY::moves(&start)[j],
            STRATEGY::valid(&start),
            max_level >= 1,
            horizon == max_level + STRATEGY::ply(&start),
            scores.len() == it.index(),
            forall|j: int|
                0 <= j < scores.len() ==> (#[trigger] scores[j]).min_max_move@ == STRATEGY::moves(
                    &start,
                )[j],
            (scores_of(scores@), strategy.entries()) == scored_moves::<S, M, STRATEGY>(
                given,
                &start,
                max_level as nat,
                it.index() as nat,
            ),
            cache_bounded::<S, M, STRATEGY>(strategy.entries()),
            trusted ==> cache_sound::<S, M, STRATEGY>(strategy.entries(), horizon),
            trusted ==> forall|j: int|
                0 <= j < scores.len() ==> (#[trigger] scores[j]).score == move_score::<
                    S,
                    M,
                    STRATEGY,
                >(&start, j, max_level as nat),
    {
        let ghost i = it.index();
        proof {
            assert(offered[i]@ == STRATEGY::moves(&start)[i]);
            STRATEGY::lemma_played(&start, i, Player::Max);
        }
        STRATEGY::do_move(state, &m, Player::Max);
        let ghost next = *state;
        let reply = alpha_beta_eval(strategy, state, Player::Min, max_level - 1, -INFINITY,
            INFINITY);
        proof {
            lemma_negamax_bounded::<S, M, STRATEGY>(&next, Player::Min, (max_level - 1) as nat);
        }
        STRATEGY::undo_move(state, &m, Player::Max);
        let ghost held = scores@;
        scores.push(ScoredMove::new(-reply, m));
        proof {
            assert(scores_of(scores@) =~= scores_of(held).push(-reply as int));
        }
    }
    proof {
        assert(scores_of(scores@).len() == 0 ==> scores_of(scores@) =~= Seq::<int>::empty());
    }
    scores
}

/// The moves that no other move outscores, in the order in which they came,
/// and nothing where there is no move.
pub fn all_max<M>(moves: Vec<ScoredMove<M>>) -> (r: Option<Vec<ScoredMove<M>>>)
    ensures
        r is None <==> moves.len() == 0,
        r matches Some(best) ==> best@ == moves@.filter(|m: ScoredMove<M>| tops(moves@, m.score)),
{
    let ghost all = moves@;
    let ghost keep = |m: ScoredMove<M>| tops(all, m.score);
    let mut maxs: Vec<ScoredMove<M>> = Vec::new();
    let mut max: i32 = i32::MIN;
    for item in it: moves
        invariant
            it.seq() == all,
            keep == |m: ScoredMove<M>| tops(all, m.score),
            it.index() == 0 ==> maxs.len() == 0,
            it.index() > 0 ==> maxs.len() > 0 && tops(all.take(it.index()), max) && maxs@
                == all.take(it.index()).filter(|m: ScoredMove<M>| m.score == max),
    {
        let ghost k = it.index();
        let ghost seen = all.take(k);
        let ghost now = all.take(k + 1);
        proof {
            assert(now.drop_last() =~= seen);
            assert(now.last() == item);
            reveal(Seq::filter);
        }
        if maxs.len() == 0 || max < item.score {
            proof {
                let wanted = |m: ScoredMove<M>| m.score == item.score;
                assert(tops(now, item.score)) by {
                    assert forall|j: int| 0 <= j < now.len() implies (#[trigger] now[j]).score
                        <= item.score by {
                        if j < k {
                            assert(seen[j] == now[j]);
                        }
                    }
                }
                lemma_filter_none(seen, wanted);
                assert(now.filter(wanted) =~= seq![item]);
            }
            max = item.score;
            maxs = Vec::new();
            maxs.push(item);
        } else if max == item.score {
            proof {
                assert(tops(now, max)) by {
                    assert forall|j: int| 0 <= j < now.len() implies (#[trigger] now[j]).score
                        <= max by {
                        if j < k {
                            assert(seen[j] == now[j]);
                        }
                    }
                }
            }
            maxs.push(item);
        } else {
            proof {
                assert(tops(now, max)) by {
                    assert forall|j: int| 0 <= j < now.len() implies (#[trigger] now[j]).score
                        <= max by {
                        if j < k {
                            assert(seen[j] == now[j]);
                        }
                    }
                }
            }
        }
    }
    if maxs.len() == 0 {
        None
    } else {
        proof {
            assert(all.take(all.len() as int) =~= all);
            let by_score = |m: ScoredMove<M>| m.score == max;
            lemma_filter_same(all, by_score, keep, max);
        }
        Some(maxs)
    }
}

/// Nothing is kept of items that all fail the test.
proof fn lemma_filter_none<M>(moves: Seq<ScoredMove<M>>, wanted: spec_fn(ScoredMove<M>) -> bool)
    requires
        forall|j: int| 0 <= j < moves.len() ==> !wanted(#[trigger] moves[j]),
    ensures
        moves.filter(wanted) == Seq::<ScoredMove<M>>::empty(),
    decreases moves.len(),
{
    reveal(Seq::filter);
    if moves.len() > 0 {
        assert forall|j: int| 0 <= j < moves.drop_last().len() implies !wanted(
            #[trigger] moves.drop_last()[j],
        ) by {
            assert(moves.drop_last()[j] == moves[j]);
        }
        lemma_filter_none(moves.drop_last(), wanted);
        assert(!wanted(moves[moves.len() - 1]));
    }
}

/// Where `max` is the highest score, the moves with that score are the moves
/// that no move outscores.
proof fn lemma_filter_same<M>(
    moves: Seq<ScoredMove<M>>,
    by_score: spec_fn(ScoredMove<M>) -> bool,
    keep: spec_fn(ScoredMove<M>) -> bool,
    max: i32,
)
    requires
        moves.len() > 0,
        tops(moves, max),
        moves.filter(by_score).len() > 0,
        by_score == |m: ScoredMove<M>| m.score == max,
        keep == |m: ScoredMove<M>| tops(moves, m.score),
    ensures
        moves.filter(by_score) == moves.filter(keep),
{
    let hit = moves.filter(by_score)[0];
    moves.lemma_filter_pred(by_score, 0);
    moves.lemma_filter_contains_rev(by_score, hit);
    let at = choose|at: int| 0 <= at < moves.len() && moves[at] == hit;
    assert forall|m: ScoredMove<M>| moves.contains(m) implies by_score(m) == keep(m) by {
        let j = choose|j: int| 0 <= j < moves.len() && moves[j] == m;
        if tops(moves, m.score) {
            assert(moves[at].score <= m.score);
            assert(moves[j].score <= max);
        }
    }
    lemma_filter_agree(moves, moves, by_score, keep);
}

/// Two tests that agree on the items of `all` keep the same of a part of it.
proof fn lemma_filter_agree<M>(
    all: Seq<ScoredMove<M>>,
    part: Seq<ScoredMove<M>>,
    one: spec_fn(ScoredMove<M>) -> bool,
    other: spec_fn(ScoredMove<M>) -> bool,
)
    requires
        forall|m: ScoredMove<M>| all.contains(m) ==> one(m) == other(m),
        forall|j: int| 0 <= j < part.len() ==> all.contains(#[trigger] part[j]),
    ensures
        part.filter(one) == part.filter(other),
    decreases part.len(),
{
    reveal(Seq::filter);
    if part.len() > 0 {
        assert forall|j: int| 0 <= j < part.drop_last().len() implies all.contains(
            #[trigger] part.drop_last()[j],
        ) by {
            assert(part.drop_last()[j] == part[j]);
        }
        lemma_filter_agree(all, part.drop_last(), one, other);
        assert(all.contains(part[part.len() - 1]));
    }
}

/// Every move of `state` with the score that a full search of `max_level`
/// levels gives it.
pub open spec fn root_scores<S, M: View, T: MinMaxStrategy<S, M>>(state: &S, max_level: nat) -> Seq<
    (int, M::V),
> {
    Seq::new(
        T::moves(state).len(),
        |i: int| (move_score::<S, M, T>(state, i, max_level), T::moves(state)[i]),
    )
}

/// The moves of `Max` in the state that score highest in a search of
/// `max_level` levels: all of them where several tie, in the game's order.
/// The scores are those of `all_moves_scored`, whatever is remembered. The
/// state has to have a move.
pub fn alpha_beta<S, M: View, STRATEGY: MinMaxStrategy<S, M>>(
    strategy: &mut STRATEGY,
    state: &mut S,
    max_level: u8,
) -> (r: Vec<ScoredMove<M>>)
    requires
        STRATEGY::valid(old(state)),
        STRATEGY::moves(old(state)).len() > 0,
        max_level >= 1,
        cache_bounded::<S, M, STRATEGY>(old(strategy).entries()),
    ensures
        *final(state) == *old(state),
        r.len() > 0,
        forall|k: int|
            0 <= k < r.len() ==> STRATEGY::moves(old(state)).contains(
                (#[trigger] r[k]).min_max_move@,
            ),
        scored_views(r@) == best_of(
            searched_scores::<S, M, STRATEGY>(
                old(strategy).entries(),
                old(state),
                max_level as nat,
            ),
        ),
        final(strategy).entries() == scored_moves::<S, M, STRATEGY>(
            old(strategy).entries(),
            old(state),
            max_level as nat,
            STRATEGY::moves(old(state)).len(),
        ).1,
        cache_bounded::<S, M, STRATEGY>(final(strategy).entries()),
        cache_sound::<S, M, STRATEGY>(old(strategy).entries(), max_level + STRATEGY::ply(old(
            state)))
            ==> {
            &&& cache_sound::<S, M, STRATEGY>(
                final(strategy).entries(),
                max_level + STRATEGY::ply(old(state)),
            )
            &&& scored_views(r@) == best_of(
                root_scores::<S, M, STRATEGY>(old(state), max_level as nat),
            )
        },
{
    let scored = all_moves_scored(strategy, state, max_level);
    let ghost all = scored@;
    let ghost keep = |m: ScoredMove<M>| tops(all, m.score);
    let found = all_max(scored);
    match found {
        Some(best) => {
            proof {
                lemma_best_exists(all);
                let view_of = |m: ScoredMove<M>| (m.score as int, m.min_max_move@);
                let views = scored_views(all);
                let keep_view = |p: (int, M::V)| is_best(views, p.0);
                assert forall|a: ScoredMove<M>| #[trigger] keep(a) == keep_view(view_of(a)) by {
                    if tops(all, a.score) {
                        assert forall|j: int| 0 <= j < views.len() implies (#[trigger] views[j]).0
                            <= a.score by {
                            assert(all[j].score <= a.score);
                        }
                    }
                    if is_best(views, a.score as int) {
                        assert forall|j: int| 0 <= j < all.len() implies (#[trigger] all[j]).score
                            <= a.score by {
                            assert(views[j].0 <= a.score);
                        }
                    }
                }
                lemma_filter_map_values(all, view_of, keep, keep_view);
                assert forall|k: int| 0 <= k < best.len() implies STRATEGY::moves(
                    old(state),
                ).contains((#[trigger] best[k]).min_max_move@) by {
                    all.lemma_filter_contains_rev(keep, best[k]);
                    let i = choose|i: int| 0 <= i < all.len() && all[i] == best[k];
                    assert(all[i].min_max_move@ == STRATEGY::moves(old(state))[i]);
                }
                if cache_sound::<S, M, STRATEGY>(
                    old(strategy).entries(),
                    max_level + STRATEGY::ply(old(state)),
                ) {
                    assert(views =~= root_scores::<S, M, STRATEGY>(old(state), max_level as nat));
                }
                let searched = searched_scores::<S, M, STRATEGY>(
                    old(strategy).entries(),
                    old(state),
                    max_level as nat,
                );
                assert(views =~= searched) by {
                    assert(views.len() == searched.len());
                    assert forall|i: int| 0 <= i < views.len() implies views[i] == searched[i] by {
                        assert(scores_of(all)[i] == all[i].score);
                    }
                }
            }
            best
        },
        None => Vec::new(),
    }
}

/// Of moves, one at least is outscored by none.
proof fn lemma_best_exists<M>(moves: Seq<ScoredMove<M>>)
    requires
        moves.len() > 0,
    ensures
        moves.filter(|m: ScoredMove<M>| tops(moves, m.score)).len() > 0,
{
    let keep = |m: ScoredMove<M>| tops(moves, m.score);
    let at = lemma_highest(moves, moves.len() as int);
    assert(tops(moves, moves[at].score));
    moves.lemma_filter_contains(keep, at);
}

/// The place of a move among the first `n` that none of them outscores.
proof fn lemma_highest<M>(moves: Seq<ScoredMove<M>>, n: int) -> (at: int)
    requires
        0 < n <= moves.len(),
    ensures
        0 <= at < n,
        forall|j: int| 0 <= j < n ==> (#[trigger] moves[j]).score <= moves[at].score,
    decreases n,
{
    if n == 1 {
        0
    } else {
        let before = lemma_highest(moves, n - 1);
        if moves[n - 1].score > moves[before].score {
            n - 1
        } else {
            before
        }
    }
}

/// A mirroring of the board of three by three cells.
#[derive(Debug, Copy, Clone, PartialEq, Eq, Structural)]
pub enum Symmetry {
    YAxes,
    XAxes,
    TopBottom,
    BottomTop,
}

/// The pairs of cells that mirror each other left and right.
pub const Y_AXES_PAIRS: [(u8, u8); 3] = [(0, 2), (3, 5), (6, 8)];

/// The pairs of cells that mirror each other top and bottom.
pub const X_AXES_PAIRS: [(u8, u8); 3] = [(0, 6), (1, 7), (2, 8)];

/// The pairs of cells that mirror each other at the diagonal from the top
/// left.
pub const TOP_BOTTOM_PAIRS: [(u8, u8); 3] = [(1, 3), (2, 6), (5, 7)];

/// The pairs of cells that mirror each other at the diagonal from the bottom
/// left.
pub const BOTTOM_TOP_PAIRS: [(u8, u8); 3] = [(0, 8), (1, 5), (3, 7)];

/// `index`, or the two ends of the first of `pairs` that it is an end of.
pub open spec fn mirrored_by(pairs: Seq<(u8, u8)>, index: usize) -> Seq<usize>
    decreases pairs.len(),
{
    if pairs.len() == 0 {
        seq![index]
    } else if pairs[0].0 == index || pairs[0].1 == index {
        seq![pairs[0].0 as usize, pairs[0].1 as usize]
    } else {
        mirrored_by(pairs.drop_first(), index)
    }
}

/// `index` after each of `pairs` in turn has sent its second end to its
/// first.
pub open spec fn sent_by(pairs: Seq<(u8, u8)>, index: usize) -> usize
    decreases pairs.len(),
{
    if pairs.len() == 0 {
        index
    } else {
        let before = sent_by(pairs.drop_last(), index);
        if pairs.last().1 == before {
            pairs.last().0 as usize
        } else {
            before
        }
    }
}

/// `index` after each of `symmetries` in turn has sent it on: one pass over
/// the list. Where mirrorings lead on from one another, the result depends
/// on their order, and it need not be the least cell of the class.
pub open spec fn normalised(symmetries: Seq<Symmetry>, index: usize) -> usize
    decreases symmetries.len(),
{
    if symmetries.len() == 0 {
        index
    } else {
        sent_by(symmetries.last().pairs(), normalised(symmetries.drop_last(), index))
    }
}

impl Symmetry {
    /// The pairs of cells that mirror each other.
    pub open spec fn pairs(self) -> Seq<(u8, u8)> {
        match self {
            Symmetry::YAxes => Y_AXES_PAIRS@,
            Symmetry::XAxes => X_AXES_PAIRS@,
            Symmetry::TopBottom => TOP_BOTTOM_PAIRS@,
            Symmetry::BottomTop => BOTTOM_TOP_PAIRS@,
        }
    }

    pub fn symmetric_pairs(&self) -> (r: [(u8, u8); 3])
        ensures
            r@ == self.pairs(),
    {
        match self {
            Symmetry::YAxes => Y_AXES_PAIRS,
            Symmetry::XAxes => X_AXES_PAIRS,
            Symmetry::TopBottom => TOP_BOTTOM_PAIRS,
            Symmetry::BottomTop => BOTTOM_TOP_PAIRS,
        }
    }

    /// The two cells of the pair that `index` is in, and `index` alone where
    /// it is in none.
    pub fn mirror(&self, index: usize) -> (r: Vec<usize>)
        ensures
            r@ == mirrored_by(self.pairs(), index),
    {
        let pairs = self.symmetric_pairs();
        let mut result: Vec<usize> = Vec::new();
        let mut k: usize = 0;
        proof {
            assert(pairs@.skip(0) =~= pairs@);
        }
        while k < 3
            invariant
                0 <= k <= 3,
                result.len() == 0,
                pairs@ == self.pairs(),
                pairs@.len() == 3,
                mirrored_by(self.pairs(), index) == mirrored_by(pairs@.skip(k as int), index),
            decreases 3 - k,
        {
            let (f, s) = pairs[k];
            proof {
                assert(pairs@.skip(k as int)[0] == pairs@[k as int]);
                assert(pairs@.skip(k as int).drop_first() =~= pairs@.skip(k + 1));
            }
            if f as usize == index || s as usize == index {
                result.push(f as usize);
                result.push(s as usize);
                proof {
                    assert(result@ =~= seq![f as usize, s as usize]);
                }
                return result;
            }
            k += 1;
        }
        result.push(index);
        proof {
            assert(pairs@.skip(3).len() == 0);
            assert(result@ =~= seq![index]);
        }
        result
    }
}

/// `index` after one pass over `symmetries`: see `normalised`.
pub fn normalise(symmetries: &Vec<Symmetry>, index: usize) -> (r: usize)
    ensures
        r == normalised(symmetries@, index),
{
    let mut normalised_index = index;
    let mut a: usize = 0;
    while a < symmetries.len()
        invariant
            0 <= a <= symmetries.len(),
            normalised_index == normalised(symmetries@.take(a as int), index),
        decreases symmetries.len() - a,
    {
        let pairs = symmetries[a].symmetric_pairs();
        let ghost before = normalised_index;
        let mut k: usize = 0;
        while k < 3
            invariant
                0 <= k <= 3,
                pairs@.len() == 3,
                normalised_index == sent_by(pairs@.take(k as int), before),
            decreases 3 - k,
        {
            let (first, second) = pairs[k];
            proof {
                assert(pairs@.take(k + 1).drop_last() =~= pairs@.take(k as int));
                assert(pairs@.take(k + 1).last() == pairs@[k as int]);
            }
            if second as usize == normalised_index {
                normalised_index = first as usize;
            }
            k += 1;
        }
        proof {
            assert(pairs@.take(3) =~= pairs@);
            assert(symmetries@.take(a + 1).drop_last() =~= symmetries@.take(a as int));
            assert(symmetries@.take(a + 1).last() == symmetries@[a as int]);
        }
        a += 1;
    }
    proof {
        assert(symmetries@.take(symmetries.len() as int) =~= symmetries@);
    }
    normalised_index
}

/// A move on a cell that stands for the cells that the mirrorings of its
/// list lead to.
#[derive(Debug, Clone, PartialEq, Eq)]
pub struct SymmetricMove(pub usize, pub Vec<Symmetry>);

impl View for SymmetricMove {
    type V = (usize, Seq<Symmetry>);

    open spec fn view(&self) -> (usize, Seq<Symmetry>) {
        (self.0, self.1@)
    }
}

/// What each of `symmetries` mirrors `index` to, one mirroring after the
/// other.
pub open spec fn mirrors(symmetries: Seq<Symmetry>, index: usize) -> Seq<usize>
    decreases symmetries.len(),
{
    if symmetries.len() == 0 {
        Seq::empty()
    } else {
        mirrors(symmetries.drop_last(), index) + mirrored_by(symmetries.last().pairs(), index)
    }
}

/// The cells that a move stands for: its own cell where its list is empty,
/// else what the mirrorings of the list mirror its cell to.
pub open spec fn expansion(mv: (usize, Seq<Symmetry>)) -> Seq<usize> {
    if mv.1.len() == 0 {
        seq![mv.0]
    } else {
        mirrors(mv.1, mv.0)
    }
}

/// What a mirroring mirrors a cell of the board to lies on the board.
pub proof fn lemma_mirrored_on_board(symmetry: Symmetry, index: usize, x: usize)
    requires
        index < 9,
        mirrored_by(symmetry.pairs(), index).contains(x),
    ensures
        x < 9,
{
    let pairs = symmetry.pairs();
    assert(pairs.len() == 3);
    assert(forall|k: int| 0 <= k < 3 ==> (#[trigger] pairs[k]).0 < 9 && pairs[k].1 < 9);
    lemma_mirrored_within(pairs, index, x);
}

/// What pairs of cells of the board mirror a cell of the board to lies on
/// the board.
proof fn lemma_mirrored_within(pairs: Seq<(u8, u8)>, index: usize, x: usize)
    requires
        index < 9,
        forall|k: int| 0 <= k < pairs.len() ==> (#[trigger] pairs[k]).0 < 9 && pairs[k].1 < 9,
        mirrored_by(pairs, index).contains(x),
    ensures
        x < 9,
    decreases pairs.len(),
{
    let found = mirrored_by(pairs, index);
    let at = choose|at: int| 0 <= at < found.len() && found[at] == x;
    if pairs.len() > 0 && !(pairs[0].0 == index || pairs[0].1 == index) {
        assert forall|k: int| 0 <= k < pairs.drop_first().len() implies (
        #[trigger] pairs.drop_first()[k]).0 < 9 && pairs.drop_first()[k].1 < 9 by {
            assert(pairs.drop_first()[k] == pairs[k + 1]);
        }
        lemma_mirrored_within(pairs.drop_first(), index, x);
    }
}

/// What a move on a cell of the board stands for lies on the board.
pub proof fn lemma_expansion_on_board(mv: (usize, Seq<Symmetry>), x: usize)
    requires
        mv.0 < 9,
        expansion(mv).contains(x),
    ensures
        x < 9,
{
    if mv.1.len() > 0 {
        lemma_mirrors_on_board(mv.1, mv.0, x);
    }
}

proof fn lemma_mirrors_on_board(symmetries: Seq<Symmetry>, index: usize, x: usize)
    requires
        index < 9,
        mirrors(symmetries, index).contains(x),
    ensures
        x < 9,
    decreases symmetries.len(),
{
    if symmetries.len() > 0 {
        let front = mirrors(symmetries.drop_last(), index);
        let part = mirrored_by(symmetries.last().pairs(), index);
        let all = mirrors(symmetries, index);
        let at = choose|at: int| 0 <= at < all.len() && all[at] == x;
        if at < front.len() {
            assert(front[at] == x);
            lemma_mirrors_on_board(symmetries.drop_last(), index, x);
        } else {
            assert(part[at - front.len()] == x);
            lemma_mirrored_on_board(symmetries.last(), index, x);
        }
    }
}

impl SymmetricMove {
    pub fn index(&self) -> (r: usize)
        ensures
            r == self.0,
    {
        self.0
    }

    /// The cells that the move stands for, each once.
    pub fn expanded_index(&self) -> (r: Vec<usize>)
        ensures
            r@.no_duplicates(),
            r@.to_set() == expansion(self@).to_set(),
    {
        let index = self.0;
        let mut found: Vec<usize> = Vec::new();
        if self.1.len() == 0 {
            found.push(index);
            proof {
                assert(found@ =~= seq![index]);
            }
            return found;
        }
        let mut a: usize = 0;
        while a < self.1.len()
            invariant
                0 <= a <= self.1.len(),
                index == self.0,
                found@.no_duplicates(),
                found@.to_set() == mirrors(self.1@.take(a as int), index).to_set(),
            decreases self.1.len() - a,
        {
            let part = self.1[a].mirror(index);
            let ghost before = mirrors(self.1@.take(a as int), index);
            proof {
                assert(self.1@.take(a + 1).drop_last() =~= self.1@.take(a as int));
                assert(self.1@.take(a + 1).last() == self.1@[a as int]);
            }
            let mut e: usize = 0;
            while e < part.len()
                invariant
                    0 <= e <= part.len(),
                    found@.no_duplicates(),
                    found@.to_set() == (before + part@.take(e as int)).to_set(),
                decreases part.len() - e,
            {
                let candidate = part[e];
                let mut known = false;
                let mut f: usize = 0;
                while f < found.len()
                    invariant
                        0 <= f <= found.len(),
                        known == (exists|t: int| 0 <= t < f && found@[t] == candidate),
                    decreases found.len() - f,
                {
                    if found[f] == candidate {
                        known = true;
                    }
                    f += 1;
                }
                let ghost held = found@;
                if !known {
                    found.push(candidate);
                }
                proof {
                    let shorter = before + part@.take(e as int);
                    let longer = before + part@.take(e + 1);
                    assert(longer =~= shorter.push(candidate));
                    assert forall|x: usize| found@.to_set().contains(x) == longer.to_set().contains(
                        x,
                    ) by {
                        if x == candidate {
                            assert(longer[longer.len() - 1] == x);
                            if known {
                                assert(held.contains(x));
                            } else {
                                assert(found@[found@.len() - 1] == x);
                            }
                        } else {
                            if held.contains(x) {
                                let at = choose|at: int| 0 <= at < held.len() && held[at] == x;
                                assert(found@[at] == x);
                                assert(shorter.to_set().contains(x));
                                let to = choose|to: int| 0 <= to < shorter.len() && shorter[to]
                                    == x;
                                assert(longer[to] == x);
                            }
                            if found@.contains(x) {
                                let at = choose|at: int| 0 <= at < found@.len() && found@[at] == x;
                                assert(held[at] == x);
                            }
                            if longer.contains(x) {
                                let to = choose|to: int| 0 <= to < longer.len() && longer[to] == x;
                                assert(shorter[to] == x);
                                assert(held.to_set().contains(x));
                            }
                        }
                    }
                    assert(found@.to_set() =~= longer.to_set());
                }
                e += 1;
            }
            proof {
                assert(part@.take(part.len() as int) =~= part@);
            }
            a += 1;
        }
        proof {
            assert(self.1@.take(self.1.len() as int) =~= self.1@);
        }
        found
    }
}

/// The score that the board shows at `position`: that of the last of `moves`
/// that stands for the position, and nothing where none does.
pub open spec fn score_at(moves: Seq<ScoredMove<SymmetricMove>>, position: usize) -> i32
    decreases moves.len(),
{
    if moves.len() == 0 {
        0
    } else if expansion(moves.last().min_max_move@).contains(position) {
        moves.last().score
    } else {
        score_at(moves.drop_last(), position)
    }
}

/// A board of the scores of the moves: each move gives its score to every
/// cell that it stands for. Where two moves stand for one cell, the later
/// one counts, whatever the scores are.
pub fn to_score_board(scored_moves: &Vec<ScoredMove<SymmetricMove>>) -> (r: [i32; 9])
    requires
        forall|i: int| 0 <= i < scored_moves.len() ==> (
            #[trigger] scored_moves[i]).min_max_move.0 < 9,
    ensures
        forall|p: int| 0 <= p < 9 ==> #[trigger] r[p] == score_at(scored_moves@, p as usize),
{
    let mut scores = [0i32, 0, 0, 0, 0, 0, 0, 0, 0];
    let mut k: usize = 0;
    while k < scored_moves.len()
        invariant
            0 <= k <= scored_moves.len(),
            forall|i: int|
                0 <= i < scored_moves.len() ==> (#[trigger] scored_moves[i]).min_max_move.0 < 9,
            forall|p: int|
                0 <= p < 9 ==> #[trigger] scores[p] == score_at(
                    scored_moves@.take(k as int),
                    p as usize,
                ),
        decreases scored_moves.len() - k,
    {
        let m = &scored_moves[k];
        let indices = m.min_max_move.expanded_index();
        let ghost before = scores;
        let ghost all = expansion(m.min_max_move@);
        let mut e: usize = 0;
        while e < indices.len()
            invariant
                0 <= e <= indices.len(),
                m.min_max_move.0 < 9,
                all == expansion(m.min_max_move@),
                indices@.to_set() == all.to_set(),
                forall|p: int|
                    0 <= p < 9 ==> #[trigger] scores[p] == if indices@.take(e as int).contains(
                        p as usize,
                    ) {
                        m.score
                    } else {
                        before[p]
                    },
            decreases indices.len() - e,
        {
            let index = indices[e];
            proof {
                assert(indices@.to_set().contains(index));
                assert(all.contains(index));
                lemma_expansion_on_board(m.min_max_move@, index);
            }
            scores[index] = m.score;
            proof {
                let shorter = indices@.take(e as int);
                let longer = indices@.take(e + 1);
                assert(longer =~= shorter.push(index));
                assert forall|p: int| 0 <= p < 9 implies #[trigger] scores[p] == if longer.contains(
                    p as usize,
                ) {
                    m.score
                } else {
                    before[p]
                } by {
                    if p == index {
                        assert(longer[e as int] == index);
                    } else if shorter.contains(p as usize) {
                        let at = choose|at: int| 0 <= at < shorter.len() && shorter[at]
                            == p as usize;
                        assert(longer[at] == p as usize);
                    } else if longer.contains(p as usize) {
                        let at = choose|at: int| 0 <= at < longer.len() && longer[at] == p as usize;
                        assert(shorter[at] == p as usize);
                    }
                }
            }
            e += 1;
        }
        proof {
            assert(indices@.take(indices.len() as int) =~= indices@);
            assert(scored_moves@.take(k + 1).drop_last() =~= scored_moves@.take(k as int));
            assert(scored_moves@.take(k + 1).last() == scored_moves@[k as int]);
            assert forall|x: usize| #[trigger] indices@.contains(x) == all.contains(x) by {
                assert(indices@.to_set().contains(x) == all.to_set().contains(x));
            }
        }
        k += 1;
    }
    proof {
        assert(scored_moves@.take(scored_moves.len() as int) =~= scored_moves@);
    }
    scores
}

} // verus!
