use nocturne::code::{Code, Codes, Color, TurnCode};
use std::collections::hash_map::DefaultHasher;
use std::hash::{Hash, Hasher};

fn hash_of(c: &Codes) -> u64 {
    let mut h = DefaultHasher::new();
    c.hash(&mut h);
    h.finish()
}

#[test]
fn position_word_get_set() {
    let mut w: i32 = 0;
    w.set_point(7, 0);
    w.set_point(29, 3);
    assert_eq!(w.get_point(0), 7);
    assert_eq!(w.get_point(1), 0);
    assert_eq!(w.get_point(2), 0);
    assert_eq!(w.get_point(3), 29);
    assert_eq!(w.get_point(4), 0);
    w.set_point(1, 3);
    assert_eq!(w.get_point(0), 7);
    assert_eq!(w.get_point(3), 1);
    assert_eq!(w.to_slice(), [7, 0, 0, 1, 0]);
}

#[test]
fn position_word_from_slice() {
    let mut w: i32 = 0;
    w.from_slice(&[3, 1, 4, 15, 9]);
    assert_eq!(w.to_slice(), [3, 1, 4, 15, 9]);
    assert_eq!(w, 3 + 1 * 32 + 4 * 1024 + 15 * 32768 + 9 * 1048576);
}

#[test]
fn step_word_get_set_keeps_turn_bit() {
    let mut s: i16 = 1024;
    s.from_slice(&[1, 2, 3, 0, 1]);
    assert_eq!(s.to_slice(), [1, 2, 3, 0, 1]);
    assert!(matches!(s.to_turn(), Color::Black));
    s.set_point(0, 1);
    assert_eq!(s.to_slice(), [1, 0, 3, 0, 1]);
    assert!(matches!(s.to_turn(), Color::Black));
}

#[test]
fn step_word_turn_flips() {
    let mut s: i16 = 0;
    assert!(matches!(s.to_turn(), Color::White));
    s.next_turn();
    assert!(matches!(s.to_turn(), Color::Black));
    assert_eq!(s, 1024);
    s.next_turn();
    assert!(matches!(s.to_turn(), Color::White));
    assert_eq!(s, 0);
}

#[test]
fn from_int_matches_from_slices() {
    let a = Codes::from_int(
        0 + 1 * 32 + 2 * 1024 + 3 * 32768 + 4 * 1048576,
        0,
        25 + 26 * 32 + 27 * 1024 + 28 * 32768 + 29 * 1048576,
        0,
    );
    let b = Codes::from_slices(
        &[0, 1, 2, 3, 4],
        &[0, 0, 0, 0, 0],
        &[25, 26, 27, 28, 29],
        &[0, 0, 0, 0, 0],
    );
    assert_eq!(a, b);
}

#[test]
fn to_slices_roundtrip() {
    let c = Codes::from_slices(
        &[3, 14, 15, 9, 26],
        &[1, 0, 1, 0, 1],
        &[5, 8, 13, 21, 30],
        &[0, 1, 0, 1, 0],
    );
    assert_eq!(c.to_slices(Color::White), ([3, 14, 15, 9, 26], [1, 0, 1, 0, 1]));
    assert_eq!(c.to_slices(Color::Black), ([5, 8, 13, 21, 30], [0, 1, 0, 1, 0]));
}

#[test]
fn codes_turn_round() {
    let mut c = Codes::from_slices(
        &[0, 1, 2, 3, 4],
        &[0, 0, 0, 0, 0],
        &[25, 26, 27, 28, 29],
        &[0, 0, 0, 0, 0],
    );
    assert!(matches!(c.to_turn(), Color::White));
    c.next_turn();
    assert!(matches!(c.to_turn(), Color::Black));
    c.next_turn();
    assert!(matches!(c.to_turn(), Color::White));
}

#[test]
fn sort_orders_by_cell_then_step() {
    let mut c = Codes::from_slices(
        &[9, 2, 9, 0, 17],
        &[1, 0, 0, 0, 0],
        &[25, 26, 27, 28, 29],
        &[0, 0, 0, 0, 0],
    );
    c.sort(Color::White);
    assert_eq!(c.to_slices(Color::White), ([0, 2, 9, 9, 17], [0, 0, 0, 1, 0]));
    assert_eq!(c.to_slices(Color::Black), ([25, 26, 27, 28, 29], [0, 0, 0, 0, 0]));
}

#[test]
fn sort_is_idempotent() {
    let mut c = Codes::from_slices(
        &[9, 2, 9, 0, 17],
        &[1, 0, 0, 0, 0],
        &[28, 26, 25, 29, 27],
        &[0, 1, 0, 0, 0],
    );
    c.sort(Color::White);
    c.sort(Color::Black);
    let once = c;
    c.sort(Color::White);
    c.sort(Color::Black);
    assert_eq!(c, once);
}

#[test]
fn sort_keeps_the_turn() {
    let mut c = Codes::from_slices(
        &[9, 2, 9, 0, 17],
        &[1, 0, 0, 0, 0],
        &[25, 26, 27, 28, 29],
        &[0, 0, 0, 0, 0],
    );
    c.next_turn();
    c.sort(Color::White);
    assert!(matches!(c.to_turn(), Color::Black));
}

#[test]
fn permutations_canonicalize_equal() {
    let mut a = Codes::from_slices(
        &[9, 2, 9, 0, 17],
        &[1, 0, 0, 0, 0],
        &[28, 26, 25, 29, 27],
        &[0, 0, 0, 0, 0],
    );
    let mut b = Codes::from_slices(
        &[0, 17, 9, 9, 2],
        &[0, 0, 0, 1, 0],
        &[25, 26, 27, 28, 29],
        &[0, 0, 0, 0, 0],
    );
    a.sort(Color::White);
    a.sort(Color::Black);
    b.sort(Color::White);
    b.sort(Color::Black);
    assert_eq!(a, b);
    assert_eq!(hash_of(&a), hash_of(&b));
}

#[test]
fn grid_of_initial_position() {
    let c = Codes::from_slices(
        &[0, 1, 2, 3, 4],
        &[0, 0, 0, 0, 0],
        &[25, 26, 27, 28, 29],
        &[0, 0, 0, 0, 0],
    );
    let v = c.to_vec();
    assert_eq!(v.len(), 30);
    for cell in 0..5usize {
        assert_eq!(v[cell], 1);
    }
    for cell in 5..25usize {
        assert_eq!(v[cell], 0);
    }
    for cell in 25..30usize {
        assert_eq!(v[cell], -1);
    }
}

#[test]
fn grid_weighs_stacks_and_skips_off_board() {
    let c = Codes::from_slices(
        &[6, 6, 0, 30, 31],
        &[0, 1, 0, 0, 0],
        &[12, 12, 20, 30, 30],
        &[0, 1, 3, 0, 0],
    );
    let v = c.to_vec();
    assert_eq!(v[6], 1 + 4);
    assert_eq!(v[0], 1);
    assert_eq!(v[12], -(1 + 4));
    assert_eq!(v[20], -64);
    let mut total: i32 = 0;
    for cell in 0..30usize {
        total += v[cell] as i32;
    }
    assert_eq!(total, (1 + 4 + 1) - (1 + 4) - 64);
}
