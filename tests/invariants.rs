use ultimate_ttt::moves::successors;
use ultimate_ttt::position::{play, State};
use ultimate_ttt::rules::{has_line, Constants};

const ALL: u128 = (1u128 << 81) - 1;

fn slice(m: u128, f: u32) -> u16 {
    ((m >> (9 * f)) & 0x1ff) as u16
}

fn check_valid(s: &State) {
    let pp = s.player_placed.0;
    let op = s.opponent_placed.0;
    let av = s.available_fields.0;
    assert_eq!(pp & op, 0);
    assert_eq!(s.next_valid.0 & (pp | op | !av), 0);
    assert_eq!(av & !ALL, 0);
    let meta = s.meta_player_placed | s.meta_opponent_placed;
    for f in 0..9 {
        let a = slice(av, f);
        assert!(a == 0 || a == 0x1ff);
        let won = (meta >> f) & 1 == 1;
        let full = slice(pp | op, f) == 0x1ff;
        assert_eq!(a == 0, won || full);
    }
}

fn next_random(seed: &mut u64) -> u64 {
    *seed = seed.wrapping_mul(6364136223846793005).wrapping_add(1442695040888963407);
    *seed >> 33
}

#[test]
fn random_play_keeps_invariants_and_closes_once() {
    let c = Constants::build();
    let mut seed: u64 = 12345;
    for _game in 0..200 {
        let mut s = State::initial();
        check_valid(&s);
        loop {
            let moves: Vec<u128> = (0..81u128).filter(|&p| (s.next_valid.0 >> p) & 1 == 1).collect();
            if moves.is_empty() {
                break;
            }
            let pos = moves[(next_random(&mut seed) as usize) % moves.len()];
            let (next, over) = play(&c, &s, pos);
            // Sub-boards are never reopened, and only the one played in may close.
            assert_eq!(next.available_fields.0 & !s.available_fields.0, 0);
            for f in 0..9u32 {
                let closed_now =
                    slice(s.available_fields.0, f) != 0 && slice(next.available_fields.0, f) == 0;
                if closed_now {
                    assert_eq!(f as u128, pos / 9);
                    let mine = slice(next.opponent_placed.0, f);
                    let all = slice(next.player_placed.0 | next.opponent_placed.0, f);
                    assert!(has_line(mine) || all == 0x1ff);
                }
            }
            if over {
                break;
            }
            check_valid(&next);
            s = next;
        }
    }
}

#[test]
fn successors_bounded_by_legal_cells() {
    let c = Constants::build();
    let mut s = State::initial();
    let mut seed: u64 = 99;
    for _ply in 0..30 {
        let succ = successors(&c, &s);
        assert!(succ.len() as u32 <= s.next_valid.count_ones());
        for n in &succ {
            assert_eq!(n.player_placed.0 & n.opponent_placed.0, 0);
            check_valid(n);
        }
        if succ.is_empty() {
            break;
        }
        s = succ[(next_random(&mut seed) as usize) % succ.len()];
    }
}

#[test]
fn meta_win_ends_the_game() {
    let c = Constants::build();
    // The mover has won sub-boards 0 and 1 and is about to win sub-board 2
    // (cells 18, 19 held, playing 20), which completes the top row.
    let closed = 0x1ffu128 | (0x1ffu128 << 9);
    let s = State {
        player_placed: ultimate_ttt::mask::Mask81(0b111 | (0b111 << 9) | (0b11 << 18)),
        opponent_placed: ultimate_ttt::mask::Mask81(0b111 << 12),
        next_valid: ultimate_ttt::mask::Mask81(0x1ffu128 << 18 & !(0b11u128 << 18)),
        available_fields: ultimate_ttt::mask::Mask81(ALL & !closed),
        meta_player_placed: 0b011,
        meta_opponent_placed: 0,
    };
    let (next, over) = play(&c, &s, 20);
    assert!(over);
    assert_eq!(next.meta_opponent_placed, 0b111);
    let (_, over_other) = play(&c, &s, 21);
    assert!(!over_other);
}
