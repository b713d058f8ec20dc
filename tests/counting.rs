use ultimate_ttt::counter::MoveCounter;
use ultimate_ttt::mask::Mask81;
use ultimate_ttt::position::{play, State};
use ultimate_ttt::rules::{has_line, Constants};

const ALL: u128 = (1u128 << 81) - 1;

#[test]
fn count_moves_depth_zero_is_zero() {
    let counter = MoveCounter::new();
    assert_eq!(counter.count_moves(0), 0);
}

#[test]
fn count_moves_one_ply() {
    // 81 opening moves, then 8 replies after the nine centre-of-own-board
    // cells and 9 after the other 72.
    let counter = MoveCounter::new();
    assert_eq!(counter.count_moves(1), 801);
}

#[test]
fn count_moves_two_and_three_plies() {
    let counter = MoveCounter::new();
    assert_eq!(counter.count_moves(2), 7137);
    assert_eq!(counter.count_moves(3), 62217);
}

#[test]
fn count_moves_strictly_increasing() {
    let counter = MoveCounter::new();
    let mut last = counter.count_moves(1);
    for depth in 2..=4 {
        let next = counter.count_moves(depth);
        assert!(next > last);
        last = next;
    }
}

#[test]
fn initial_position_is_empty_and_open() {
    let s = State::initial();
    assert_eq!(s.player_placed.0, 0);
    assert_eq!(s.opponent_placed.0, 0);
    assert_eq!(s.next_valid.0, ALL);
    assert_eq!(s.available_fields.0, ALL);
    assert_eq!(s.meta_player_placed, 0);
    assert_eq!(s.meta_opponent_placed, 0);
}

#[test]
fn mask_count_ones() {
    assert_eq!(Mask81(0).count_ones(), 0);
    assert_eq!(Mask81(0b1011).count_ones(), 3);
    assert_eq!(Mask81::all().count_ones(), 81);
}

#[test]
fn win_table_lines() {
    assert!(has_line(0o700));
    assert!(has_line(0o124));
    assert!(has_line(0o111 | 0o002));
    assert!(!has_line(0o000));
    assert!(!has_line(0o123));
    let c = Constants::build();
    assert_eq!(c.info.len(), 512);
    assert_eq!(c.info.iter().filter(|&&x| x != 0).count(), 282);
    assert_eq!(c.fields.len(), 9);
    assert_eq!(c.fields[0].0, 0x1ff);
    assert_eq!(c.fields[8].0, 0x1ffu128 << 72);
}

#[test]
fn play_first_move_swaps_roles_and_sends() {
    let c = Constants::build();
    let s = State::initial();
    // Cell 5 lies in sub-board 0 and sends the opponent to sub-board 5.
    let (next, over) = play(&c, &s, 5);
    assert!(!over);
    assert_eq!(next.player_placed.0, 0);
    assert_eq!(next.opponent_placed.0, 1u128 << 5);
    assert_eq!(next.next_valid.0, 0x1ffu128 << 45);
    assert_eq!(next.available_fields.0, ALL);
    // Cell 0 sends back to sub-board 0, minus the cell just taken.
    let (back, _) = play(&c, &s, 0);
    assert_eq!(back.next_valid.0, 0x1fe);
}

#[test]
fn play_winning_a_sub_board_closes_it() {
    let c = Constants::build();
    // The mover holds cells 0 and 1 of sub-board 0; cell 2 completes the top row.
    let s = State {
        player_placed: Mask81(0b11),
        opponent_placed: Mask81(0b11 << 9),
        next_valid: Mask81(0x1fc),
        available_fields: Mask81(ALL),
        meta_player_placed: 0,
        meta_opponent_placed: 0,
    };
    let (next, over) = play(&c, &s, 2);
    assert!(!over);
    assert_eq!(next.available_fields.0, ALL & !0x1ff);
    assert_eq!(next.meta_opponent_placed, 1);
    assert_eq!(next.meta_player_placed, 0);
    // Sent to sub-board 2, which is open.
    assert_eq!(next.next_valid.0, 0x1ffu128 << 18);
}

#[test]
fn play_into_closed_board_frees_choice() {
    let c = Constants::build();
    // Sub-board 1 is closed; cell 1 of sub-board 0 sends there, so every open cell is legal.
    let open = ALL & !(0x1ffu128 << 9);
    let s = State {
        player_placed: Mask81(0),
        opponent_placed: Mask81(0b111 << 9),
        next_valid: Mask81(0x1ff),
        available_fields: Mask81(open),
        meta_player_placed: 0,
        meta_opponent_placed: 0b10,
    };
    let (next, over) = play(&c, &s, 1);
    assert!(!over);
    assert_eq!(next.next_valid.0, open & !0b10);
}
