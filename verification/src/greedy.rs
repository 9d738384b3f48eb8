//! The greedy policy: place the disc where it captures the most.

use crate::reversi::{
    all_actions, all_cells, captured, cell, cells, lemma_all_cells, on_board, precedes,
    reversed_discs, Action, Cell, Position, State,
};
use vstd::prelude::*;

verus! {

/// Whether `c` is the greedy choice: a disc placed there captures
/// something, no cell captures more, and of the cells that capture as much
/// `c` is the last in reading order.
pub open spec fn is_greedy_choice(p: Position, c: Cell) -> bool {
    &&& captured(p, c).len() > 0
    &&& forall|o: Cell| (#[trigger] captured(p, o)).len() <= captured(p, c).len()
    &&& forall|o: Cell|
        (#[trigger] captured(p, o)).len() == captured(p, c).len() ==> o == c || precedes(o, c)
}

/// There is at most one greedy choice.
pub proof fn lemma_greedy_choice_unique(p: Position, a: Cell, b: Cell)
    requires
        is_greedy_choice(p, a),
        is_greedy_choice(p, b),
    ensures
        a == b,
{
    assert(captured(p, a).len() <= captured(p, b).len());
    assert(captured(p, b).len() <= captured(p, a).len());
}

/// The action that captures the most discs in one move, or `None` if no
/// action captures anything. Of several actions that capture equally many,
/// the last one in reading order is taken.
pub fn policy(state: &State) -> (r: Option<Action>)
    ensures
        match r {
            Some(a) => is_greedy_choice(state@, cell(a)),
            None => forall|c: Cell| (#[trigger] captured(state@, c)).len() == 0,
        },
{
    let actions = all_actions(state);
    let ghost p = state@;
    let ghost all = all_cells(p.board);
    proof {
        lemma_all_cells(p.board);
    }
    let mut best: Option<(usize, Action)> = None;
    let ghost mut at: int = 0;
    let mut idx: usize = 0;
    while idx < actions.len()
        invariant
            idx <= actions.len(),
            p == state@,
            all == all_cells(p.board),
            cells(actions@) == all,
            forall|c: Cell| #[trigger] all.contains(c) <==> on_board(p.board, c),
            best is None ==> forall|k: int|
                0 <= k < idx ==> captured(p, #[trigger] all[k]).len() == 0,
            best matches Some((n, a)) ==> {
                &&& n > 0
                &&& 0 <= at < idx
                &&& all[at] == cell(a)
                &&& captured(p, cell(a)).len() == n
                &&& forall|k: int| 0 <= k < idx ==> captured(p, #[trigger] all[k]).len() <= n
                &&& forall|k: int| at < k < idx ==> captured(p, #[trigger] all[k]).len() < n
            },
        decreases actions.len() - idx,
    {
        let a = actions[idx];
        assert(all[idx as int] == cell(a));
        assert(all.contains(cell(a)));
        let discs = reversed_discs(state, &a);
        let rev: usize = discs.len();
        assert(rev == captured(p, cell(a)).len()) by {
            assert(cells(discs@).len() == discs@.len());
        }
        if rev > 0 {
            let better = match best {
                Some((n, _)) => rev >= n,
                None => true,
            };
            if better {
                best = Some((rev, a));
                proof {
                    at = idx as int;
                }
            }
        }
        idx = idx + 1;
    }
    proof {
        match best {
            Some((n, a)) => {
                assert forall|o: Cell| (#[trigger] captured(p, o)).len() <= captured(
                    p,
                    cell(a),
                ).len() by {
                    if on_board(p.board, o) {
                        assert(all.contains(o));
                    }
                }
                assert forall|o: Cell|
                    (#[trigger] captured(p, o)).len() == captured(p, cell(a)).len() implies o
                    == cell(a) || precedes(o, cell(a)) by {
                    assert(on_board(p.board, o));
                    assert(all.contains(o));
                    let k = choose|k: int| 0 <= k < all.len() && all[k] == o;
                    if k < at {
                        assert(precedes(all[k], all[at]));
                    }
                }
            },
            None => {
                assert forall|c: Cell| (#[trigger] captured(p, c)).len() == 0 by {
                    if on_board(p.board, c) {
                        assert(all.contains(c));
                    }
                }
            },
        }
    }
    match best {
        Some((_, a)) => Some(a),
        None => None,
    }
}

} // verus!
