use reversi_agent::greedy;
use reversi_agent::minimax::{countable, minimax, policy, utility, SEARCH_DEPTH};
use reversi_agent::reversi::{
    all_actions, legal_actions, next_state, reversed_discs, Action, Board, Player, State,
};

fn parse_board(from: Vec<Vec<i32>>) -> Board {
    from.iter()
        .map(|row| {
            row.iter()
                .map(|i| match i {
                    1 => Some(Player::Agent),
                    -1 => Some(Player::Opponent),
                    _ => None,
                })
                .collect()
        })
        .collect()
}

fn dbg_board(board: &Board) {
    for row in board {
        let mut line = String::new();
        for s in row {
            match s {
                Some(Player::Agent) => line.push('o'),
                Some(Player::Opponent) => line.push('x'),
                None => line.push('_'),
            }
        }
        println!("{}", line);
    }
    println!();
}

fn state_of(from: Vec<Vec<i32>>, next_player: Player) -> State {
    State {
        board: parse_board(from),
        next_player,
    }
}

fn crossed() -> Vec<Vec<i32>> {
    vec![
        vec![00, 00, 00, 00],
        vec![00, 01, -1, 00],
        vec![00, -1, 01, 00],
        vec![00, 00, 00, 00],
    ]
}

fn crowded() -> Vec<Vec<i32>> {
    vec![
        vec![00, 00, -1, 01],
        vec![01, -1, -1, 00],
        vec![00, -1, -1, -1],
        vec![00, 01, 00, -1],
    ]
}

#[test]
fn test_policy() {
    let test_set = [(vec![
        vec![00, 00, 00, 00],
        vec![00, 01, -1, 00],
        vec![00, -1, 01, 00],
        vec![00, 00, 00, 00],
    ],)];

    for (board,) in test_set {
        let mut state = State {
            board: parse_board(board),
            next_player: Player::Agent,
        };
        for _ in 0..10 {
            dbg_board(&state.board);
            let action = policy(&state);
            let own = legal_actions(&state);
            let others = legal_actions(&next_state(&state, None));
            match action {
                Some(a) if !own.is_empty() => assert!(own.contains(&a)),
                Some(a) => assert!(others.contains(&a)),
                None => assert!(own.is_empty() && others.is_empty()),
            }
            state = next_state(&state, action.as_ref());
            println!("{:?}", action);
        }
    }
}

#[test]
fn the_search_plays_a_game_move_by_move() {
    let mut state = state_of(crossed(), Player::Agent);
    let expected: Vec<Action> = vec![
        (3, 1),
        (3, 0),
        (2, 0),
        (3, 2),
        (3, 3),
        (1, 0),
        (0, 0),
        (1, 3),
        (0, 2),
        (0, 1),
    ];
    for step in expected {
        let action = policy(&state);
        assert_eq!(action, Some(step));
        state = next_state(&state, action.as_ref());
    }
    assert_eq!(
        state.board,
        parse_board(vec![
            vec![1, -1, 1, 0],
            vec![-1, -1, -1, -1],
            vec![-1, -1, -1, 0],
            vec![-1, -1, -1, 1],
        ])
    );
    assert_eq!(state.next_player, Player::Agent);
    assert_eq!(utility(&state.board), -8);
}

#[test]
fn utility_is_the_agents_discs_minus_the_opponents() {
    assert_eq!(utility(&parse_board(crowded())), -4);
    assert_eq!(utility(&parse_board(crossed())), 0);
    assert_eq!(utility(&parse_board(vec![vec![1, 1, 0], vec![1, -1, 5]])), 2);
    assert_eq!(utility(&parse_board(vec![])), 0);
    assert_eq!(utility(&parse_board(vec![vec![], vec![-1]])), -1);
}

#[test]
fn the_search_depth_is_six() {
    assert_eq!(SEARCH_DEPTH, 6);
    for next_player in [Player::Agent, Player::Opponent] {
        for board in [crossed(), crowded()] {
            let state = state_of(board, next_player);
            assert_eq!(policy(&state), minimax(&state, 0, 6).1);
        }
    }
}

#[test]
fn at_the_horizon_the_board_is_valued_as_it_stands() {
    let state = state_of(crowded(), Player::Agent);
    assert_eq!(minimax(&state, 3, 3), (-4, None));
    assert_eq!(minimax(&state, 0, 0), (-4, None));
    assert_eq!(minimax(&state, 5, 2), (-4, None));
    assert_eq!(minimax(&state, u32::MAX, u32::MAX), (-4, None));
}

#[test]
fn one_turn_ahead_the_agent_takes_the_highest_utility() {
    let state = state_of(crowded(), Player::Agent);
    assert_eq!(minimax(&state, 0, 1), (3, Some((1, 3))));
    assert_eq!(minimax(&state, 5, 6), (3, Some((1, 3))));
    let state = state_of(
        vec![vec![0, 1, 1, -1], vec![0, 0, 0, 0], vec![0, 1, -1, 0]],
        Player::Agent,
    );
    assert_eq!(minimax(&state, 0, 1), (4, Some((2, 3))));
}

#[test]
fn one_turn_ahead_the_opponent_takes_the_lowest_utility() {
    let state = state_of(
        vec![vec![0, 1, 1, -1], vec![0, 0, 0, 0], vec![0, 1, -1, 0]],
        Player::Opponent,
    );
    assert_eq!(minimax(&state, 0, 1), (-4, Some((0, 0))));
}

#[test]
fn of_equal_outcomes_the_last_action_is_taken() {
    let state = state_of(crossed(), Player::Agent);
    assert_eq!(minimax(&state, 0, 1), (3, Some((3, 1))));
    let state = state_of(crossed(), Player::Opponent);
    assert_eq!(minimax(&state, 0, 1), (-3, Some((3, 2))));
}

#[test]
fn two_turns_ahead_the_reply_counts() {
    let state = state_of(crowded(), Player::Agent);
    assert_eq!(minimax(&state, 0, 2), (0, Some((0, 1))));
    assert_eq!(minimax(&state, 0, 3), (7, Some((0, 1))));
}

#[test]
fn the_search_values_the_opening() {
    let state = state_of(crossed(), Player::Agent);
    assert_eq!(minimax(&state, 0, 6), (-2, Some((3, 1))));
    let state = state_of(crossed(), Player::Opponent);
    assert_eq!(minimax(&state, 0, 6), (2, Some((3, 2))));
}

#[test]
fn a_player_who_cannot_move_passes() {
    let state = state_of(vec![vec![-1, 1, 0]], Player::Agent);
    assert_eq!(legal_actions(&state), vec![]);
    assert_eq!(legal_actions(&next_state(&state, None)), vec![(0, 2)]);
    assert_eq!(minimax(&state, 0, 6), (-3, Some((0, 2))));
    assert_eq!(minimax(&state, 0, 2), (-3, Some((0, 2))));
    assert_eq!(minimax(&state, 0, 1), (0, None));
    assert_eq!(policy(&state), Some((0, 2)));
}

#[test]
fn the_search_finds_nothing_when_the_game_is_over() {
    let full = state_of(vec![vec![1, -1], vec![-1, 1]], Player::Agent);
    assert_eq!(minimax(&full, 0, 6), (0, None));
    assert_eq!(policy(&full), None);
    let bare = state_of(vec![vec![0, 0], vec![0, 0]], Player::Opponent);
    assert_eq!(policy(&bare), None);
    let stuck = state_of(crowded(), Player::Opponent);
    assert_eq!(legal_actions(&stuck), vec![]);
    assert!(policy(&stuck).is_some());
    let none = state_of(vec![], Player::Agent);
    assert_eq!(minimax(&none, 0, 6), (0, None));
}

#[test]
fn the_search_returns_a_legal_action_where_there_is_one() {
    for next_player in [Player::Agent, Player::Opponent] {
        for board in [
            crossed(),
            crowded(),
            vec![vec![0, -1, 1, 0, 0]],
            vec![vec![-1, 1, 0]],
            vec![vec![1, -1], vec![-1, 1]],
        ] {
            let state = state_of(board, next_player);
            let own = legal_actions(&state);
            let others = legal_actions(&next_state(&state, None));
            let action = policy(&state);
            if let Some(a) = action {
                if !own.is_empty() {
                    assert!(own.contains(&a));
                }
            }
            assert_eq!(action.is_none(), own.is_empty() && others.is_empty());
        }
    }
}

#[test]
fn greedy_takes_the_largest_capture() {
    let state = state_of(crowded(), Player::Agent);
    assert_eq!(greedy::policy(&state), Some((1, 3)));
    let state = state_of(
        vec![vec![0, -1, -1, 1], vec![0, 0, 0, 0], vec![0, -1, 1, 0]],
        Player::Agent,
    );
    assert_eq!(greedy::policy(&state), Some((0, 0)));
}

#[test]
fn greedy_takes_the_last_of_equal_captures() {
    let state = state_of(crossed(), Player::Agent);
    assert_eq!(greedy::policy(&state), Some((3, 1)));
    let state = state_of(crossed(), Player::Opponent);
    assert_eq!(greedy::policy(&state), Some((3, 2)));
    let state = state_of(
        vec![vec![0, -1, 1, 0], vec![0, 0, 0, 0], vec![1, -1, 0, 0]],
        Player::Agent,
    );
    assert_eq!(greedy::policy(&state), Some((2, 2)));
}

#[test]
fn greedy_finds_nothing_where_nothing_is_captured() {
    let state = state_of(crowded(), Player::Opponent);
    assert_eq!(greedy::policy(&state), None);
    let state = state_of(vec![vec![-1, 1, 0]], Player::Agent);
    assert_eq!(greedy::policy(&state), None);
    let state = state_of(vec![vec![0, 0], vec![0, 0]], Player::Agent);
    assert_eq!(greedy::policy(&state), None);
    let state = state_of(vec![], Player::Agent);
    assert_eq!(greedy::policy(&state), None);
}

#[test]
fn greedy_captures_as_much_as_any_action() {
    for next_player in [Player::Agent, Player::Opponent] {
        for board in [crossed(), crowded(), vec![vec![0, -1, 1, 0, 0]]] {
            let state = state_of(board, next_player);
            let most = all_actions(&state)
                .iter()
                .map(|a| reversed_discs(&state, a).len())
                .max()
                .unwrap_or(0);
            match greedy::policy(&state) {
                Some(a) => {
                    assert!(most > 0);
                    assert_eq!(reversed_discs(&state, &a).len(), most);
                }
                None => assert_eq!(most, 0),
            }
        }
    }
}

#[test]
fn small_boards_are_countable() {
    assert!(countable(&parse_board(crossed())));
    assert!(countable(&parse_board(vec![])));
    assert!(countable(&parse_board(vec![vec![], vec![1, -1, 0]])));
}
