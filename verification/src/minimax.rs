//! The minimax policy: look a fixed number of turns ahead, the agent
//! choosing what is best for it and the opponent what is worst.

use crate::reversi::{
    cell, cell_of, cells, grid, legal_actions, legal_cells, lemma_grid, lemma_legal_cells,
    next_state, on_board, precedes, successor, Action, Board, Cell, Grid, Player, Position, State,
};
use vstd::prelude::*;

verus! {

/// The worth of a board to the agent.
pub type Utility = i32;

/// How many turns ahead [`policy`] looks.
pub const SEARCH_DEPTH: u32 = 6;

/// The test that a cell's content passes when it is a disc of `who`.
pub open spec fn holds(who: Player) -> spec_fn(Option<Player>) -> bool {
    |content: Option<Player>| content == Some(who)
}

/// The number of cells of a grid.
pub open spec fn cell_count(g: Grid) -> nat {
    g.flatten().len()
}

/// The number of discs that `who` has on a grid.
pub open spec fn discs(g: Grid, who: Player) -> nat {
    g.flatten().filter(holds(who)).len()
}

/// The worth of a grid to the agent: the agent's discs minus the
/// opponent's.
pub open spec fn utility_of(g: Grid) -> int {
    discs(g, Player::Agent) - discs(g, Player::Opponent)
}

/// The first rows of a grid hold no more cells than the whole grid.
proof fn lemma_count_first_rows(g: Grid, n: int)
    requires
        0 <= n <= g.len(),
    ensures
        g.take(n).flatten().len() <= g.flatten().len(),
{
    vstd::seq_lib::lemma_flatten_concat(g.take(n), g.skip(n));
    assert(g.take(n) + g.skip(n) =~= g);
}

/// Whether a board is small enough for its cells to be counted in a
/// [`Utility`], as [`utility`], [`minimax`] and [`policy`] need it to be.
pub fn countable(board: &Board) -> (ok: bool)
    ensures
        ok == (cell_count(grid(*board)) <= i32::MAX),
{
    let ghost g = grid(*board);
    let limit: usize = 0x7fff_ffff;
    let mut total: usize = 0;
    proof {
        lemma_grid(*board);
        assert(g.take(0) =~= Seq::<Seq<Option<Player>>>::empty());
    }
    let mut i: usize = 0;
    while i < board.len()
        invariant
            i <= board.len(),
            limit == i32::MAX,
            g == grid(*board),
            g.len() == board.len(),
            forall|t: int| 0 <= t < board@.len() ==> (#[trigger] g[t]) == board@[t]@,
            total == g.take(i as int).flatten().len(),
            total <= limit,
        decreases board.len() - i,
    {
        let width: usize = board[i].len();
        proof {
            assert(g.take(i + 1) =~= g.take(i as int).push(g[i as int]));
            g.take(i as int).lemma_flatten_push(g[i as int]);
            lemma_count_first_rows(g, i + 1);
        }
        if width > limit - total {
            return false;
        }
        total = total + width;
        i = i + 1;
    }
    assert(g.take(i as int) =~= g);
    true
}

/// Counts the discs that `who` has on a board.
fn count_discs(board: &Board, who: Player) -> (r: usize)
    requires
        cell_count(grid(*board)) <= i32::MAX,
    ensures
        r == discs(grid(*board), who),
        r <= cell_count(grid(*board)),
{
    let ghost g = grid(*board);
    let mut count: usize = 0;
    proof {
        lemma_grid(*board);
        reveal(Seq::filter);
        assert(g.take(0) =~= Seq::<Seq<Option<Player>>>::empty());
        assert(g.take(0).flatten() =~= Seq::<Option<Player>>::empty());
    }
    let mut i: usize = 0;
    while i < board.len()
        invariant
            i <= board.len(),
            g == grid(*board),
            g.len() == board.len(),
            forall|t: int| 0 <= t < board@.len() ==> (#[trigger] g[t]) == board@[t]@,
            cell_count(g) <= i32::MAX,
            count == g.take(i as int).flatten().filter(holds(who)).len(),
        decreases board.len() - i,
    {
        let ghost before = g.take(i as int).flatten();
        let ghost row = g[i as int];
        proof {
            assert(before + row.take(0) =~= before);
            assert(g.take(i + 1) =~= g.take(i as int).push(row));
            g.take(i as int).lemma_flatten_push(row);
            lemma_count_first_rows(g, i + 1);
        }
        let mut j: usize = 0;
        while j < board[i].len()
            invariant
                i < board.len(),
                j <= board[i as int].len(),
                row == board@[i as int]@,
                (before + row).len() <= i32::MAX,
                count == (before + row.take(j as int)).filter(holds(who)).len(),
            decreases board[i as int].len() - j,
        {
            proof {
                let seen = before + row.take(j as int);
                assert(before + row.take(j + 1) =~= seen.push(row[j as int]));
                seen.lemma_filter_push(row[j as int], holds(who));
                seen.lemma_filter_len(holds(who));
            }
            if board[i][j] == Some(who) {
                count = count + 1;
            }
            j = j + 1;
        }
        assert(row.take(j as int) =~= row);
        i = i + 1;
    }
    proof {
        assert(g.take(i as int) =~= g);
        g.flatten().lemma_filter_len(holds(who));
    }
    count
}

/// The worth of a board to the agent: the number of the agent's discs minus
/// the number of the opponent's.
pub fn utility(board: &Board) -> (r: Utility)
    requires
        cell_count(grid(*board)) <= i32::MAX,
    ensures
        r == utility_of(grid(*board)),
{
    let count_agent: i32 = count_discs(board, Player::Agent) as i32;
    let count_opponent: i32 = count_discs(board, Player::Opponent) as i32;
    count_agent - count_opponent
}

/// Whether the player `who`, when choosing, takes an outcome worth `new`
/// over an earlier one worth `old`: the agent wants the worth high, the
/// opponent wants it low, and of two equal outcomes the later one is taken.
pub open spec fn prefers(who: Player, new: int, old: int) -> bool {
    match who {
        Player::Agent => new >= old,
        Player::Opponent => new <= old,
    }
}

/// What a search that looks `plies` turns ahead finds at a position: the
/// worth of the position and the cell to play, if there is one.
///
/// With no turns left, the worth is that of the board as it stands. Where
/// neither the player to move nor, after a pass, the other player can
/// capture anything, the game is over and the worth is that of the board.
/// Where only the player to move is stuck, the turn passes and the result
/// is that of the search from the other side, one turn nearer the horizon.
/// Otherwise the player to move takes the best of the legal cells.
pub open spec fn search(p: Position, plies: nat) -> (int, Option<Cell>)
    decreases plies, legal_cells(p).len() + 1,
{
    if plies == 0 {
        (utility_of(p.board), None)
    } else if legal_cells(p).len() == 0 {
        if legal_cells(successor(p, None)).len() == 0 {
            (utility_of(p.board), None)
        } else {
            search(successor(p, None), (plies - 1) as nat)
        }
    } else {
        let best = best_among(p, plies, legal_cells(p).len());
        (best.0, Some(best.1))
    }
}

/// What a disc at `c` is worth to a search that looks `plies` turns ahead,
/// this turn included.
pub open spec fn outcome(p: Position, c: Cell, plies: nat) -> int
    decreases plies, 0nat,
{
    if plies == 0 {
        0
    } else {
        search(successor(p, Some(c)), (plies - 1) as nat).0
    }
}

/// The choice among the first `n` legal cells: the worth of the best
/// outcome, and the last of the cells that lead to it.
pub open spec fn best_among(p: Position, plies: nat, n: nat) -> (int, Cell)
    decreases plies, n,
{
    if plies == 0 || n == 0 || n > legal_cells(p).len() {
        (0, (0, 0))
    } else {
        let c = legal_cells(p)[n - 1];
        let worth = outcome(p, c, plies);
        if n == 1 {
            (worth, c)
        } else {
            let earlier = best_among(p, plies, (n - 1) as nat);
            if prefers(p.next_player, worth, earlier.0) {
                (worth, c)
            } else {
                earlier
            }
        }
    }
}

/// Whether `c` is the cell that the player to move takes in a search that
/// looks `plies` turns ahead: it is legal, no legal cell has an outcome that
/// the player likes better, and of the legal cells with the same outcome `c`
/// is the last in reading order.
pub open spec fn is_best_move(p: Position, c: Cell, plies: nat) -> bool {
    &&& legal_cells(p).contains(c)
    &&& forall|o: Cell|
        legal_cells(p).contains(o) ==> prefers(
            p.next_player,
            outcome(p, c, plies),
            #[trigger] outcome(p, o, plies),
        )
    &&& forall|o: Cell|
        legal_cells(p).contains(o) && #[trigger] outcome(p, o, plies) == outcome(p, c, plies) ==> o
            == c || precedes(o, c)
}

/// The choice among the first `n` legal cells is one of them, is worth its
/// own outcome, is liked at least as well as each of the others, and comes
/// after every other of them with the same outcome.
proof fn lemma_best_among(p: Position, plies: nat, n: nat)
    requires
        plies >= 1,
        1 <= n <= legal_cells(p).len(),
    ensures
        legal_cells(p).take(n as int).contains(best_among(p, plies, n).1),
        best_among(p, plies, n).0 == outcome(p, best_among(p, plies, n).1, plies),
        forall|t: int|
            0 <= t < n ==> prefers(
                p.next_player,
                best_among(p, plies, n).0,
                outcome(p, #[trigger] legal_cells(p)[t], plies),
            ),
        forall|t: int|
            0 <= t < n && outcome(p, #[trigger] legal_cells(p)[t], plies) == best_among(
                p,
                plies,
                n,
            ).0 ==> legal_cells(p)[t] == best_among(p, plies, n).1 || precedes(
                legal_cells(p)[t],
                best_among(p, plies, n).1,
            ),
    decreases n,
{
    let moves = legal_cells(p);
    let c = moves[n - 1];
    assert(moves.take(n as int)[n - 1] == c);
    if n > 1 {
        lemma_best_among(p, plies, (n - 1) as nat);
        lemma_legal_cells(p);
        let earlier = best_among(p, plies, (n - 1) as nat);
        let front = moves.take(n - 1);
        let k = choose|k: int| 0 <= k < front.len() && front[k] == earlier.1;
        assert(moves.take(n as int)[k] == earlier.1);
        assert(precedes(moves[k], moves[n - 1]));
        assert forall|t: int|
            0 <= t < n && outcome(p, #[trigger] moves[t], plies) == best_among(p, plies, n).0
            implies moves[t] == best_among(p, plies, n).1 || precedes(
            moves[t],
            best_among(p, plies, n).1,
        ) by {
            if t < n - 1 {
                assert(precedes(moves[t], moves[n - 1]));
            }
        }
    }
}

/// Where the player to move has a legal cell, the search takes the best
/// move, and the position is worth that move's outcome.
pub proof fn lemma_search_takes_best_move(p: Position, plies: nat)
    requires
        plies >= 1,
        legal_cells(p).len() > 0,
    ensures
        search(p, plies).1 matches Some(c) && is_best_move(p, c, plies) && search(p, plies).0
            == outcome(p, c, plies),
{
    let moves = legal_cells(p);
    let n = moves.len();
    lemma_best_among(p, plies, n);
    assert(moves.take(n as int) =~= moves);
    let best = best_among(p, plies, n);
    assert forall|o: Cell| moves.contains(o) implies prefers(
        p.next_player,
        outcome(p, best.1, plies),
        #[trigger] outcome(p, o, plies),
    ) by {
        let t = choose|t: int| 0 <= t < moves.len() && moves[t] == o;
        assert(prefers(p.next_player, best.0, outcome(p, moves[t], plies)));
    }
    assert forall|o: Cell|
        moves.contains(o) && #[trigger] outcome(p, o, plies) == outcome(
            p,
            best.1,
            plies,
        ) implies o == best.1 || precedes(o, best.1) by {
        let t = choose|t: int| 0 <= t < moves.len() && moves[t] == o;
        assert(outcome(p, moves[t], plies) == best.0);
    }
}

/// There is at most one best move.
pub proof fn lemma_best_move_unique(p: Position, a: Cell, b: Cell, plies: nat)
    requires
        is_best_move(p, a, plies),
        is_best_move(p, b, plies),
    ensures
        a == b,
{
    assert(prefers(p.next_player, outcome(p, a, plies), outcome(p, b, plies)));
    assert(prefers(p.next_player, outcome(p, b, plies), outcome(p, a, plies)));
}

/// A search that looks at least two turns ahead finds no cell to play
/// exactly where the game is over: where neither the player to move nor,
/// after a pass, the other player has a legal cell. Where the player to
/// move has a legal cell, the cell found is one of them.
pub proof fn lemma_search_finds_move(p: Position, plies: nat)
    requires
        plies >= 2,
    ensures
        search(p, plies).1 is None <==> (legal_cells(p).len() == 0 && legal_cells(
            successor(p, None),
        ).len() == 0),
        legal_cells(p).len() > 0 ==> (search(p, plies).1 matches Some(c) && legal_cells(
            p,
        ).contains(c)),
        legal_cells(p).len() == 0 ==> search(p, plies) == search(
            successor(p, None),
            (plies - 1) as nat,
        ) || search(p, plies) == (utility_of(p.board), None::<Cell>),
{
    if legal_cells(p).len() > 0 {
        lemma_search_takes_best_move(p, plies);
    } else if legal_cells(successor(p, None)).len() > 0 {
        lemma_search_takes_best_move(successor(p, None), (plies - 1) as nat);
    }
}

/// Whatever cell a search finds lies on the board: it is a legal cell of the
/// player to move or, where that player must pass, of the other player.
pub proof fn lemma_search_on_board(p: Position, plies: nat)
    ensures
        search(p, plies).1 matches Some(c) ==> on_board(p.board, c) && (legal_cells(p).contains(c)
            || legal_cells(successor(p, None)).contains(c)),
{
    let passed = successor(p, None);
    lemma_legal_cells(p);
    lemma_legal_cells(passed);
    if plies >= 1 {
        if legal_cells(p).len() > 0 {
            lemma_search_takes_best_move(p, plies);
        } else if legal_cells(passed).len() > 0 {
            assert(search(p, plies) == search(passed, (plies - 1) as nat));
            if plies >= 2 {
                lemma_search_takes_best_move(passed, (plies - 1) as nat);
            } else {
                assert(search(passed, 0).1 is None);
            }
        }
    }
}

/// The number of turns between `depth` and the horizon `max_depth`.
pub open spec fn plies_left(depth: u32, max_depth: u32) -> nat {
    if depth >= max_depth {
        0
    } else {
        (max_depth - depth) as nat
    }
}

/// Grids with rows of the same lengths have equally many cells in their
/// first `n` rows.
proof fn lemma_count_by_shape(g: Grid, h: Grid, n: int)
    requires
        g.len() == h.len(),
        forall|i: int| 0 <= i < g.len() ==> (#[trigger] g[i]).len() == h[i].len(),
        0 <= n <= g.len(),
    ensures
        g.take(n).flatten().len() == h.take(n).flatten().len(),
    decreases n,
{
    if n == 0 {
        assert(g.take(0) =~= Seq::<Seq<Option<Player>>>::empty());
        assert(h.take(0) =~= Seq::<Seq<Option<Player>>>::empty());
    } else {
        lemma_count_by_shape(g, h, n - 1);
        assert(g.take(n) =~= g.take(n - 1).push(g[n - 1]));
        assert(h.take(n) =~= h.take(n - 1).push(h[n - 1]));
        g.take(n - 1).lemma_flatten_push(g[n - 1]);
        h.take(n - 1).lemma_flatten_push(h[n - 1]);
    }
}

/// A turn leaves the number of cells as it is.
pub proof fn lemma_successor_cell_count(p: Position, action: Option<Cell>)
    ensures
        cell_count(successor(p, action).board) == cell_count(p.board),
{
    let g = p.board;
    let h = successor(p, action).board;
    lemma_count_by_shape(g, h, g.len() as int);
    assert(g.take(g.len() as int) =~= g);
    assert(h.take(g.len() as int) =~= h);
}

/// Searches the game from `state`, which stands `depth` turns into a search
/// that ends `max_depth` turns in, and returns what the position is worth
/// to the agent together with the action to take, if there is one.
pub fn minimax(state: &State, depth: u32, max_depth: u32) -> (r: (Utility, Option<Action>))
    requires
        cell_count(state@.board) <= i32::MAX,
    ensures
        r.0 == search(state@, plies_left(depth, max_depth)).0,
        cell_of(r.1) == search(state@, plies_left(depth, max_depth)).1,
    decreases plies_left(depth, max_depth),
{
    if depth >= max_depth {
        return (utility(&state.board), None);
    }
    let ghost p = state@;
    let ghost plies = plies_left(depth, max_depth);
    let actions = legal_actions(state);
    assert(cells(actions@).len() == actions@.len());
    if actions.len() == 0 {
        let passed = next_state(state, None);
        let replies = legal_actions(&passed);
        assert(cells(replies@).len() == replies@.len());
        if replies.len() == 0 {
            return (utility(&state.board), None);
        }
    }
    let mut best: Option<(Utility, Action)> = None;
    let mut idx: usize = 0;
    while idx < actions.len()
        invariant
            idx <= actions.len(),
            p == state@,
            depth < max_depth,
            plies == plies_left(depth, max_depth),
            cell_count(p.board) <= i32::MAX,
            cells(actions@) == legal_cells(p),
            forall|a: Action| #[trigger] actions@.contains(a) ==> on_board(p.board, cell(a)),
            idx == 0 ==> best is None,
            idx > 0 ==> (best matches Some((worth, a)) && (worth as int, cell(a)) == best_among(
                p,
                plies,
                idx as nat,
            )),
        decreases actions.len() - idx,
    {
        let a = actions[idx];
        assert(actions@.contains(a));
        assert(cells(actions@)[idx as int] == cell(a));
        let child = next_state(state, Some(&a));
        proof {
            lemma_successor_cell_count(p, Some(cell(a)));
        }
        let worth: Utility = minimax(&child, depth + 1, max_depth).0;
        assert(worth == outcome(p, cell(a), plies));
        let better = match best {
            Some((earlier, _)) => if state.next_player == Player::Agent {
                worth >= earlier
            } else {
                worth <= earlier
            },
            None => true,
        };
        if better {
            best = Some((worth, a));
        }
        idx = idx + 1;
    }
    match best {
        Some((worth, a)) => (worth, Some(a)),
        None => {
            let passed = next_state(state, None);
            proof {
                lemma_successor_cell_count(p, None);
            }
            minimax(&passed, depth + 1, max_depth)
        },
    }
}

/// The action that a search [`SEARCH_DEPTH`] turns ahead finds best for the
/// player to move; `None` where the game is over.
pub fn policy(state: &State) -> (r: Option<Action>)
    requires
        cell_count(state@.board) <= i32::MAX,
    ensures
        cell_of(r) == search(state@, SEARCH_DEPTH as nat).1,
        r is None <==> (legal_cells(state@).len() == 0 && legal_cells(
            successor(state@, None),
        ).len() == 0),
        legal_cells(state@).len() > 0 ==> (r matches Some(a) && is_best_move(
            state@,
            cell(a),
            SEARCH_DEPTH as nat,
        )),
{
    proof {
        lemma_search_finds_move(state@, SEARCH_DEPTH as nat);
        if legal_cells(state@).len() > 0 {
            lemma_search_takes_best_move(state@, SEARCH_DEPTH as nat);
        }
    }
    minimax(state, 0, SEARCH_DEPTH).1
}

} // verus!
