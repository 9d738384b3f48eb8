use reversi_agent::reversi::Player;
use reversi_agent::{agent_policy, decode_board};

#[test]
fn a_flat_board_is_cut_into_rows() {
    let a = Some(Player::Agent);
    let o = Some(Player::Opponent);
    assert_eq!(
        decode_board(3, &vec![1, -1, 0, 0, 1, -1]),
        vec![vec![a, o, None], vec![None, a, o]]
    );
    assert_eq!(
        decode_board(2, &vec![1, -1, 0, 0, 1, -1]),
        vec![vec![a, o], vec![None, None], vec![a, o]]
    );
    assert_eq!(decode_board(6, &vec![1, -1, 0, 0, 1, -1]).len(), 1);
    assert_eq!(decode_board(9, &vec![1, -1, 0, 0, 1, -1]).len(), 1);
}

#[test]
fn the_last_row_may_be_short() {
    let a = Some(Player::Agent);
    let o = Some(Player::Opponent);
    assert_eq!(
        decode_board(3, &vec![1, -1, 0, 5, 1]),
        vec![vec![a, o, None], vec![None, a]]
    );
    assert_eq!(decode_board(4, &vec![-1]), vec![vec![o]]);
}

#[test]
fn no_numbers_make_no_rows() {
    assert_eq!(decode_board(4, &vec![]).len(), 0);
}

#[test]
fn only_one_and_minus_one_are_discs() {
    let a = Some(Player::Agent);
    let o = Some(Player::Opponent);
    assert_eq!(
        decode_board(7, &vec![1, -1, 0, 2, -2, i32::MAX, i32::MIN]),
        vec![vec![a, o, None, None, None, None, None]]
    );
}

#[test]
fn the_agent_moves_on_the_opening() {
    let flat = vec![0, 0, 0, 0, 0, 1, -1, 0, 0, -1, 1, 0, 0, 0, 0, 0];
    assert_eq!(agent_policy(4, flat), vec![3, 1]);
    let flat = vec![0, 0, 0, 0, 0, -1, 1, 0, 0, 1, -1, 0, 0, 0, 0, 0];
    assert_eq!(agent_policy(4, flat), vec![3, 2]);
}

#[test]
fn the_rows_follow_the_dimension() {
    assert_eq!(agent_policy(5, vec![0, -1, 1, 0, 0]), vec![0, 0]);
    assert_eq!(agent_policy(1, vec![0, -1, 1, 0, 0]), vec![0, 0]);
    assert_eq!(agent_policy(1, vec![0, 0, 1, -1, 0]), vec![4, 0]);
}

#[test]
fn a_stuck_agent_gets_the_move_that_follows_the_pass() {
    assert_eq!(agent_policy(3, vec![-1, 1, 0]), vec![0, 2]);
}

#[test]
fn no_move_is_minus_one_twice() {
    assert_eq!(agent_policy(2, vec![1, -1, -1, 1]), vec![-1, -1]);
    assert_eq!(agent_policy(2, vec![0, 0, 0, 0]), vec![-1, -1]);
    assert_eq!(agent_policy(3, vec![]), vec![-1, -1]);
}
