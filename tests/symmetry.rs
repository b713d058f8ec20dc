use ultimate_ttt::counter::MoveCounter;
use ultimate_ttt::moves::successors;
use ultimate_ttt::position::{play, State};
use ultimate_ttt::rules::Constants;
use ultimate_ttt::symmetry::{apply_symmetry, canonicalize, descriptor, lex_less, sym_cell};

fn after(cells: &[u128]) -> State {
    let c = Constants::build();
    let mut s = State::initial();
    for &pos in cells {
        let (next, over) = play(&c, &s, pos);
        assert!(!over);
        s = next;
    }
    s
}

fn sample_positions() -> Vec<State> {
    vec![
        State::initial(),
        after(&[0]),
        after(&[4]),
        after(&[5]),
        after(&[40]),
        after(&[5, 46]),
        after(&[12, 30, 0]),
        after(&[1, 10, 11, 20]),
    ]
}

#[test]
fn sym_cell_permutes_each_grid() {
    for k in 0..8u128 {
        let mut seen = [false; 9];
        for i in 0..9u128 {
            let j = sym_cell(k, i) as usize;
            assert!(!seen[j]);
            seen[j] = true;
        }
        assert_eq!(sym_cell(k, 4), 4);
    }
    assert_eq!(sym_cell(3, 0), 8);
    assert_eq!(sym_cell(1, 0), 2);
    assert_eq!(sym_cell(4, 1), 3);
}

#[test]
fn identity_symmetry_keeps_position() {
    for p in sample_positions() {
        assert_eq!(apply_symmetry(0, &p), p);
    }
}

#[test]
fn half_turn_moves_corner_to_corner() {
    let p = after(&[0]);
    let q = apply_symmetry(3, &p);
    assert_eq!(q.opponent_placed.0, 1u128 << 80);
    assert_eq!(q.next_valid.0, 0x0ffu128 << 72);
}

#[test]
fn canonicalize_is_idempotent() {
    for p in sample_positions() {
        let c = canonicalize(&p);
        assert_eq!(canonicalize(&c), c);
    }
}

#[test]
fn canonicalize_is_symmetry_invariant() {
    for p in sample_positions() {
        let c = canonicalize(&p);
        for k in 0..8u128 {
            assert_eq!(canonicalize(&apply_symmetry(k, &p)), c);
        }
    }
}

#[test]
fn canonical_form_has_smallest_descriptor() {
    for p in sample_positions() {
        let c = canonicalize(&p);
        let dc = descriptor(&c, 0);
        for k in 0..8u128 {
            assert!(!lex_less(&descriptor(&p, k), &dc));
        }
    }
}

#[test]
fn symmetric_openings_share_canonical_form() {
    let corner = canonicalize(&after(&[0]));
    // A symmetry moves the sub-board and the cell inside it alike.
    for pos in [0u128, 20, 60, 80] {
        assert_eq!(canonicalize(&after(&[pos])), corner);
    }
    assert_ne!(canonicalize(&after(&[2])), corner);
    assert_ne!(canonicalize(&after(&[18])), corner);
    assert_ne!(canonicalize(&after(&[40])), corner);
    assert_eq!(canonicalize(&after(&[2])), canonicalize(&after(&[18])));
    assert_eq!(canonicalize(&State::initial()), State::initial());
}

#[test]
fn lex_less_orders_sequences() {
    assert!(lex_less(&vec![1, 2, 3], &vec![1, 3, 0]));
    assert!(!lex_less(&vec![1, 3, 0], &vec![1, 2, 3]));
    assert!(!lex_less(&vec![1, 2, 3], &vec![1, 2, 3]));
}

#[test]
fn successors_of_initial_position() {
    let c = Constants::build();
    let succ = successors(&c, &State::initial());
    assert_eq!(succ.len(), 81);
    for s in &succ {
        assert_eq!(s.player_placed.0 & s.opponent_placed.0, 0);
        assert_eq!(s.opponent_placed.0.count_ones(), 1);
    }
    assert_eq!(succ[7].opponent_placed.0, 1u128 << 7);
}

#[test]
fn symmetric_strategy_matches_plain_count() {
    let counter = MoveCounter::new();
    assert_eq!(counter.count_moves_symmetric(0), 0);
    for depth in 1..=4 {
        assert_eq!(counter.count_moves_symmetric(depth), counter.count_moves(depth));
    }
    assert_eq!(counter.count_moves_symmetric(1), 801);
}
