//! A decision engine for Reversi: the rules of the game, two policies that
//! pick a move for the side whose turn it is, and the entry point that a
//! host calls with a board given as a flat list of numbers.

pub mod greedy;
pub mod minimax;
pub mod reversi;

use crate::minimax::{lemma_search_on_board, search, SEARCH_DEPTH};
use crate::reversi::{cell, grid, on_board, Board, Cell, Grid, Player, Position, State};
use vstd::prelude::*;

verus! {

/// What a number of the flat encoding stands for: 1 is a disc of the agent,
/// -1 a disc of the opponent, anything else an empty cell.
pub open spec fn decoded(v: i32) -> Option<Player> {
    if v == 1 {
        Some(Player::Agent)
    } else if v == -1 {
        Some(Player::Opponent)
    } else {
        None
    }
}

/// A sequence cut into rows of `dim` items each, the last row shorter where
/// the items run out before it is full.
pub open spec fn chunked<T>(items: Seq<T>, dim: nat) -> Seq<Seq<T>>
    decreases items.len(),
{
    if dim == 0 || items.len() == 0 {
        Seq::empty()
    } else if items.len() <= dim {
        seq![items]
    } else {
        seq![items.take(dim as int)] + chunked(items.skip(dim as int), dim)
    }
}

/// The grid that a flat encoding with rows of `dim` cells stands for.
pub open spec fn decoded_grid(flat: Seq<i32>, dim: nat) -> Grid {
    chunked(flat.map_values(|v: i32| decoded(v)), dim)
}

/// How a choice is handed back: row and column, or -1 and -1 where there is
/// no cell to play.
pub open spec fn encoded(choice: Option<Cell>) -> Seq<int> {
    match choice {
        Some(c) => seq![c.0, c.1],
        None => seq![-1, -1],
    }
}

/// Cutting a sequence into rows neither loses nor adds an item, makes no
/// more rows than there are items, and leaves no row empty.
pub proof fn lemma_chunked<T>(items: Seq<T>, dim: nat)
    requires
        dim > 0,
    ensures
        chunked(items, dim).flatten() == items,
        chunked(items, dim).len() <= items.len(),
        forall|i: int|
            0 <= i < chunked(items, dim).len() ==> 0 < (#[trigger] chunked(items, dim)[i]).len()
                <= dim,
    decreases items.len(),
{
    let rows = chunked(items, dim);
    if items.len() == 0 {
        assert(rows.flatten() =~= items);
    } else if items.len() <= dim {
        rows.lemma_flatten_singleton();
    } else {
        let rest = chunked(items.skip(dim as int), dim);
        lemma_chunked(items.skip(dim as int), dim);
        assert(rows.first() == items.take(dim as int));
        assert(rows.drop_first() =~= rest);
        assert(rows.flatten() =~= items.take(dim as int) + items.skip(dim as int));
        assert(items.take(dim as int) + items.skip(dim as int) =~= items);
        assert forall|i: int| 0 <= i < rows.len() implies 0 < (#[trigger] rows[i]).len()
            <= dim by {
            if i > 0 {
                assert(rows[i] == rest[i - 1]);
            }
        }
    }
}

/// The cell that a number of the flat encoding stands for.
fn decode(v: i32) -> (r: Option<Player>)
    ensures
        r == decoded(v),
{
    if v == 1 {
        Some(Player::Agent)
    } else if v == -1 {
        Some(Player::Opponent)
    } else {
        None
    }
}

/// Builds the board that a flat encoding stands for: rows of `board_dim`
/// cells each, taken one after the other from `board_state`.
pub fn decode_board(board_dim: usize, board_state: &Vec<i32>) -> (board: Board)
    requires
        board_dim > 0,
    ensures
        grid(board) == decoded_grid(board_state@, board_dim as nat),
{
    let ghost flat = board_state@.map_values(|v: i32| decoded(v));
    let ghost dim = board_dim as nat;
    let mut board: Board = Vec::new();
    let mut start: usize = 0;
    assert(grid(board) + chunked(flat.skip(0), dim) =~= chunked(flat, dim)) by {
        assert(flat.skip(0) =~= flat);
    }
    while start < board_state.len()
        invariant
            start <= board_state.len(),
            board_dim > 0,
            dim == board_dim,
            flat == board_state@.map_values(|v: i32| decoded(v)),
            grid(board) + chunked(flat.skip(start as int), dim) == chunked(flat, dim),
        decreases board_state.len() - start,
    {
        let end: usize = if board_state.len() - start <= board_dim {
            board_state.len()
        } else {
            start + board_dim
        };
        let ghost rest = flat.skip(start as int);
        let mut row: Vec<Option<Player>> = Vec::new();
        let mut k: usize = start;
        while k < end
            invariant
                start <= k <= end <= board_state.len(),
                flat == board_state@.map_values(|v: i32| decoded(v)),
                row@ == flat.subrange(start as int, k as int),
            decreases end - k,
        {
            row.push(decode(board_state[k]));
            assert(row@ =~= flat.subrange(start as int, k + 1));
            k = k + 1;
        }
        let ghost before = grid(board);
        board.push(row);
        proof {
            assert(grid(board) =~= before.push(row@));
            if rest.len() <= dim {
                assert(row@ =~= rest);
                assert(flat.skip(end as int).len() == 0);
                assert(before.push(row@) + chunked(flat.skip(end as int), dim) =~= before
                    + chunked(rest, dim));
            } else {
                assert(row@ =~= rest.take(dim as int));
                assert(flat.skip(end as int) =~= rest.skip(dim as int));
                assert(before.push(row@) + chunked(flat.skip(end as int), dim) =~= before
                    + chunked(rest, dim));
            }
        }
        start = end;
    }
    assert(grid(board) + chunked(flat.skip(start as int), dim) =~= grid(board));
    board
}

/// Picks the agent's move on a board given as a flat list of numbers, rows
/// of `board_dim` cells each (1 for the agent's discs, -1 for the
/// opponent's, anything else for an empty cell), by a search of
/// [`SEARCH_DEPTH`] turns with the agent to move. Returns the row and the
/// column of the cell to play, or -1 and -1 where the game is over.
pub fn agent_policy(board_dim: usize, board_state: Vec<i32>) -> (r: Vec<i32>)
    requires
        board_dim > 0,
        board_state.len() <= i32::MAX,
    ensures
        r@.map_values(|v: i32| v as int) == encoded(
            search(
                Position {
                    board: decoded_grid(board_state@, board_dim as nat),
                    next_player: Player::Agent,
                },
                SEARCH_DEPTH as nat,
            ).1,
        ),
{
    let board = decode_board(board_dim, &board_state);
    let state = State { board, next_player: Player::Agent };
    proof {
        lemma_chunked(board_state@.map_values(|v: i32| decoded(v)), board_dim as nat);
        lemma_search_on_board(state@, SEARCH_DEPTH as nat);
    }
    let action = minimax::policy(&state);
    let mut ret: Vec<i32> = Vec::new();
    match action {
        Some((i, j)) => {
            assert(on_board(state@.board, cell((i, j))));
            proof {
                state@.board.lemma_flatten_length_ge_single_element_length(i as int);
            }
            ret.push(i as i32);
            ret.push(j as i32);
            assert(ret@.map_values(|v: i32| v as int) =~= encoded(Some(cell((i, j)))));
        },
        None => {
            ret.push(-1);
            ret.push(-1);
            assert(ret@.map_values(|v: i32| v as int) =~= encoded(None));
        },
    }
    ret
}

} // verus!
