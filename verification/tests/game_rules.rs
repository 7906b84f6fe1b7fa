use nocturne::code::{Codes, Color};
use nocturne::game::{Game, Status};

fn game_from(
    w_pos: [i32; 5],
    w_step: [i32; 5],
    b_pos: [i32; 5],
    b_step: [i32; 5],
    black_to_move: bool,
) -> Game {
    let mut g = Game::new();
    g.codes = Codes::from_slices(&w_pos, &w_step, &b_pos, &b_step);
    if black_to_move {
        g.codes.next_turn();
    }
    g
}

#[test]
fn opening_down_right_goes_on() {
    // White's piece of rank 0 stands at cell 0; down-right is direction 7.
    let mut g = Game::new();
    let r = g.next(0 * 8 + 7);
    assert_eq!(r, Ok(Status::OnGoing));
    // The piece landed on the empty cell 6 with stack counter 0 and now
    // sorts behind the other four.
    assert_eq!(g.codes.to_slices(Color::White), ([1, 2, 3, 4, 6], [0, 0, 0, 0, 0]));
    assert_eq!(g.codes.to_slices(Color::Black), ([25, 26, 27, 28, 29], [0, 0, 0, 0, 0]));
    assert!(matches!(g.codes.to_turn(), Color::Black));
}

#[test]
fn white_cannot_exit_over_row_minus_one() {
    // Up-left from cell 1 heads to row -1 on White's turn: rejected.
    let mut g = Game::new();
    let before = g.codes;
    assert_eq!(g.next(1 * 8 + 0), Err(()));
    assert_eq!(g.codes, before);
    // Straight up from cell 2 as well.
    assert_eq!(g.next(2 * 8 + 1), Err(()));
    assert_eq!(g.codes, before);
}

#[test]
fn black_cannot_exit_over_row_six() {
    let mut g = Game::new();
    assert_eq!(g.next(0 * 8 + 7), Ok(Status::OnGoing));
    let before = g.codes;
    // Black's rank 0 piece stands at cell 25 on row 5; down heads to row 6.
    assert_eq!(g.next(0 * 8 + 6), Err(()));
    assert_eq!(g.codes, before);
}

#[test]
fn black_wins_over_row_minus_one() {
    // A Black piece on row 0 moving up leaves the board on Black's side.
    let mut g = game_from(
        [10, 11, 12, 13, 14],
        [0, 0, 0, 0, 0],
        [2, 26, 27, 28, 29],
        [0, 0, 0, 0, 0],
        true,
    );
    let before = g.codes;
    assert_eq!(g.next(0 * 8 + 1), Ok(Status::BlackWins));
    assert_eq!(g.codes, before);
}

#[test]
fn white_wins_over_row_six() {
    // A White piece on row 5 moving down leaves the board on White's side.
    let mut g = game_from(
        [1, 2, 3, 4, 27],
        [0, 0, 0, 0, 0],
        [10, 11, 12, 13, 14],
        [0, 0, 0, 0, 0],
        false,
    );
    let before = g.codes;
    assert_eq!(g.next(4 * 8 + 6), Ok(Status::WhiteWins));
    assert_eq!(g.codes, before);
}

#[test]
fn column_edges_reject_both_sides() {
    let mut g = Game::new();
    // Cell 0 is on the left edge: left and down-left leave the columns.
    assert_eq!(g.next(0 * 8 + 3), Err(()));
    assert_eq!(g.next(0 * 8 + 5), Err(()));
    // Cell 4 is on the right edge: right and down-right leave the columns.
    assert_eq!(g.next(4 * 8 + 4), Err(()));
    assert_eq!(g.next(4 * 8 + 7), Err(()));
    // The same on Black's turn from cell 29.
    assert_eq!(g.next(0 * 8 + 6), Ok(Status::OnGoing));
    assert_eq!(g.next(4 * 8 + 4), Err(()));
}

#[test]
fn rank_out_of_range_rejects() {
    let mut g = Game::new();
    assert_eq!(g.next(5 * 8 + 6), Err(()));
    assert_eq!(g.next(usize::MAX), Err(()));
}

#[test]
fn landing_on_one_piece_stacks() {
    // White at cell 2 moves down onto cell 7 where one White piece stands.
    let mut g = game_from(
        [2, 7, 20, 21, 22],
        [0, 0, 0, 0, 0],
        [25, 26, 27, 28, 29],
        [0, 0, 0, 0, 0],
        false,
    );
    assert_eq!(g.next(0 * 8 + 6), Ok(Status::OnGoing));
    assert_eq!(g.codes.to_slices(Color::White), ([7, 7, 20, 21, 22], [0, 1, 0, 0, 0]));
}

#[test]
fn two_piece_stack_caps_the_cell() {
    // Two pieces already stand at cell 7: landing there is rejected.
    let mut g = game_from(
        [2, 7, 7, 20, 21],
        [0, 0, 1, 0, 0],
        [25, 26, 27, 28, 29],
        [0, 0, 0, 0, 0],
        false,
    );
    let before = g.codes;
    assert_eq!(g.next(0 * 8 + 6), Err(()));
    assert_eq!(g.codes, before);
    // A mixed stack blocks just the same.
    let mut g2 = game_from(
        [2, 7, 20, 21, 22],
        [0, 0, 0, 0, 0],
        [7, 26, 27, 28, 29],
        [1, 0, 0, 0, 0],
        false,
    );
    assert_eq!(g2.next(0 * 8 + 6), Err(()));
}

#[test]
fn buried_piece_cannot_move() {
    // At cell 7 the piece of counter 0 lies under the one of counter 1:
    // only the top one may leave.
    let mut g = game_from(
        [7, 7, 20, 21, 22],
        [0, 1, 0, 0, 0],
        [25, 26, 27, 28, 29],
        [0, 0, 0, 0, 0],
        false,
    );
    assert_eq!(g.next(0 * 8 + 6), Err(()));
    assert_eq!(g.next(1 * 8 + 6), Ok(Status::OnGoing));
    assert_eq!(g.codes.to_slices(Color::White), ([7, 12, 20, 21, 22], [0, 0, 0, 0, 0]));
}

#[test]
fn third_visit_of_a_state_draws() {
    // White shuttles 0->5->0 while Black shuttles 29->24->29: after every
    // four moves the position repeats. The ninth move would begin the third
    // round and is a draw.
    let mut g = Game::new();
    let cycle = [0 * 8 + 6, 4 * 8 + 1, 4 * 8 + 1, 0 * 8 + 6];
    for _round in 0..2usize {
        for mv in cycle {
            assert_eq!(g.next(mv), Ok(Status::OnGoing));
        }
    }
    let before = g.codes;
    assert_eq!(g.next(cycle[0]), Ok(Status::Draw));
    assert_eq!(g.codes, before);
}

#[test]
fn init_resets_state_and_history() {
    let mut g = Game::new();
    let fresh = g.codes;
    let cycle = [0 * 8 + 6, 4 * 8 + 1, 4 * 8 + 1, 0 * 8 + 6];
    for mv in cycle {
        assert_eq!(g.next(mv), Ok(Status::OnGoing));
    }
    g.init();
    assert_eq!(g.codes, fresh);
    // With the history gone the shuttle once again takes nine moves to draw.
    for _round in 0..2usize {
        for mv in cycle {
            assert_eq!(g.next(mv), Ok(Status::OnGoing));
        }
    }
    assert_eq!(g.next(cycle[0]), Ok(Status::Draw));
}

#[test]
fn is_valid_leaves_the_session_alone() {
    let g = Game::new();
    let r = g.is_valid(g.codes, 0 * 8 + 7);
    match r {
        Ok((st, codes)) => {
            assert_eq!(st, Status::OnGoing);
            assert_eq!(codes.to_slices(Color::White).0, [1, 2, 3, 4, 6]);
            assert_eq!(g.codes.to_slices(Color::White).0, [0, 1, 2, 3, 4]);
        },
        Err(()) => panic!("a plain opening move was rejected"),
    }
}

#[test]
fn move_unchecked_replaces_the_state() {
    let mut g = Game::new();
    let other = Codes::from_slices(
        &[1, 2, 3, 4, 6],
        &[0, 0, 0, 0, 0],
        &[25, 26, 27, 28, 29],
        &[0, 0, 0, 0, 0],
    );
    g.move_unchecked(other);
    assert_eq!(g.codes, other);
}
