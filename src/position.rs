use vstd::prelude::*;
use crate::mask::{ALL_BITS, Mask81};
use crate::rules::{Constants, FIELD_ALL, field_mask, is_win};

verus! {

/// A game position, always seen from the side to move.
#[derive(Debug, Clone, Copy, PartialEq, Eq, Structural)]
pub struct State {
    /// Cells occupied by the side to move.
    pub player_placed: Mask81,
    /// Cells occupied by the other side.
    pub opponent_placed: Mask81,
    /// Cells the side to move may play this turn.
    pub next_valid: Mask81,
    /// The cells of every sub-board still open for play.
    pub available_fields: Mask81,
    /// Sub-boards won by the side to move.
    pub meta_player_placed: u16,
    /// Sub-boards won by the other side.
    pub meta_opponent_placed: u16,
}

/// The nine bits of `m` that belong to sub-board `f`.
pub open spec fn slice(m: u128, f: u128) -> u16 {
    ((m >> (f * 9)) & 0x1ffu128) as u16
}

/// What playing cell `pos` does to sub-board `pos / 9` of the mover.
pub open spec fn new_field(s: State, pos: u128) -> u16 {
    slice(s.player_placed.0, pos / 9) | (1u16 << ((pos % 9) as u16))
}

/// Whether playing cell `pos` wins its sub-board for the mover.
pub open spec fn new_win(s: State, pos: u128) -> bool {
    is_win(new_field(s, pos))
}

/// The occupied cells of sub-board `pos / 9` after playing cell `pos`.
pub open spec fn new_occupied(s: State, pos: u128) -> u16 {
    slice(s.player_placed.0 | s.opponent_placed.0, pos / 9) | (1u16 << ((pos % 9) as u16))
}

/// Whether playing cell `pos` closes its sub-board: won, or all nine cells
/// occupied.
pub open spec fn new_end(s: State, pos: u128) -> bool {
    new_win(s, pos) || new_occupied(s, pos) == FIELD_ALL
}

/// The open sub-boards after playing cell `pos`.
pub open spec fn next_available(s: State, pos: u128) -> u128 {
    if new_end(s, pos) {
        s.available_fields.0 & !field_mask(pos / 9)
    } else {
        s.available_fields.0
    }
}

/// The mover's won sub-boards after playing cell `pos`.
pub open spec fn next_meta(s: State, pos: u128) -> u16 {
    if new_end(s, pos) && new_win(s, pos) {
        s.meta_player_placed | (1u16 << ((pos / 9) as u16))
    } else {
        s.meta_player_placed
    }
}

/// Whether playing cell `pos` ends the game: the mover wins the meta-board,
/// or no sub-board is left open.
pub open spec fn game_over(s: State, pos: u128) -> bool {
    new_end(s, pos) && (is_win(next_meta(s, pos)) || next_available(s, pos) == 0)
}

/// The mover's cells after playing cell `pos`.
pub open spec fn next_placed(s: State, pos: u128) -> u128 {
    s.player_placed.0 | (1u128 << pos)
}

/// The cells the opponent may play after cell `pos`: the sub-board `pos % 9`
/// if it is still open, else every open sub-board, without occupied cells.
pub open spec fn next_valid(s: State, pos: u128) -> u128 {
    let av = next_available(s, pos);
    let target = field_mask(pos % 9);
    let base = if av & target == 0 {
        av
    } else {
        target
    };
    base & !next_placed(s, pos) & !s.opponent_placed.0
}

/// The position after the mover plays cell `pos`, with the roles swapped.
pub open spec fn successor(s: State, pos: u128) -> State {
    State {
        player_placed: s.opponent_placed,
        opponent_placed: Mask81(next_placed(s, pos)),
        next_valid: Mask81(next_valid(s, pos)),
        available_fields: Mask81(next_available(s, pos)),
        meta_player_placed: s.meta_opponent_placed,
        meta_opponent_placed: next_meta(s, pos),
    }
}

/// What the move generator needs of a position: open sub-boards lie on the
/// board, and the meta masks have nine bits.
pub open spec fn shaped(s: State) -> bool {
    &&& s.available_fields.0 & !ALL_BITS == 0
    &&& s.meta_player_placed < 512
    &&& s.meta_opponent_placed < 512
}

impl State {
    /// The empty board, with every cell legal.
    pub fn initial() -> (r: State)
        ensures
            r.player_placed.0 == 0,
            r.opponent_placed.0 == 0,
            r.next_valid.0 == ALL_BITS,
            r.available_fields.0 == ALL_BITS,
            r.meta_player_placed == 0,
            r.meta_opponent_placed == 0,
    {
        State {
            player_placed: Mask81::default(),
            opponent_placed: Mask81::default(),
            next_valid: Mask81::all(),
            available_fields: Mask81::all(),
            meta_player_placed: 0,
            meta_opponent_placed: 0,
        }
    }
}

/// Plays cell `pos` for the side to move: the successor position, and
/// whether the game is over there.
pub fn play(c: &Constants, s: &State, pos: u128) -> (r: (State, bool))
    requires
        c.wf(),
        shaped(*s),
        pos < 81,
    ensures
        r.0 == successor(*s, pos),
        r.1 == game_over(*s, pos),
        shaped(r.0),
{
    let field = pos / 9;
    let field_mask = c.fields[field as usize];
    let pos_in_field = pos % 9;
    let next_field_mask = c.fields[pos_in_field as usize];

    let next_placed = s.player_placed.0 | (1u128 << pos);

    let pp = s.player_placed.0;
    let extracted = ((pp >> (field * 9)) & 0x1ffu128) as u16;
    let new_field = extracted | (1u16 << (pos_in_field as u16));
    assert(new_field < 512) by (bit_vector)
        requires
            new_field == extracted | (1u16 << (pos_in_field as u16)),
            extracted == ((pp >> (field * 9)) & 0x1ffu128) as u16,
            pos_in_field < 9,
    ;
    let occupied = pp | s.opponent_placed.0;
    let new_occupied = ((occupied >> (field * 9)) & 0x1ffu128) as u16 | (1u16 << (
    pos_in_field as u16));
    let new_win = c.info[new_field as usize] != 0;
    let new_end = new_win || new_occupied == FIELD_ALL;

    let mut next_available_fields = s.available_fields.0;
    let mut meta_next_placed = s.meta_player_placed;
    let mut game_over = false;

    if new_end {
        next_available_fields = next_available_fields & !field_mask.0;
        if new_win {
            let mp = meta_next_placed;
            meta_next_placed = mp | (1u16 << (field as u16));
            assert(meta_next_placed < 512) by (bit_vector)
                requires
                    meta_next_placed == mp | (1u16 << (field as u16)),
                    mp < 512,
                    field < 9,
            ;
        }
        game_over = c.info[meta_next_placed as usize] != 0 || next_available_fields == 0;
    }

    let base = if next_available_fields & next_field_mask.0 == 0 {
        next_available_fields
    } else {
        next_field_mask.0
    };
    let next_valid = base & !next_placed & !s.opponent_placed.0;

    let av0 = s.available_fields.0;
    let fm = field_mask.0;
    assert(av0 & !fm & !0x1_ffff_ffff_ffff_ffff_ffffu128 == 0) by (bit_vector)
        requires
            av0 & !0x1_ffff_ffff_ffff_ffff_ffffu128 == 0,
    ;
    let succ = State {
        player_placed: s.opponent_placed,
        opponent_placed: Mask81(next_placed),
        next_valid: Mask81(next_valid),
        available_fields: Mask81(next_available_fields),
        meta_player_placed: s.meta_opponent_placed,
        meta_opponent_placed: meta_next_placed,
    };
    (succ, game_over)
}

} // verus!

verus! {

/// Playing a cell keeps a position shaped, and the opponent's legal cells lie
/// on the board.
pub proof fn lemma_successor_shaped(s: State, pos: u128)
    requires
        shaped(s),
        pos < 81,
    ensures
        shaped(successor(s, pos)),
        next_valid(s, pos) & !ALL_BITS == 0,
{
    let av = s.available_fields.0;
    let f = pos / 9;
    let t = pos % 9;
    let fm = field_mask(f);
    let tm = field_mask(t);
    let np = next_placed(s, pos);
    let op = s.opponent_placed.0;
    let mp = s.meta_player_placed;
    assert(av & !fm & !0x1_ffff_ffff_ffff_ffff_ffffu128 == 0) by (bit_vector)
        requires
            av & !0x1_ffff_ffff_ffff_ffff_ffffu128 == 0,
    ;
    assert(mp | (1u16 << (f as u16)) < 512) by (bit_vector)
        requires
            mp < 512,
            f < 9,
    ;
    let nav = next_available(s, pos);
    assert(tm & !0x1_ffff_ffff_ffff_ffff_ffffu128 == 0) by (bit_vector)
        requires
            tm == 0x1ffu128 << ((t * 9) as u128),
            t < 9,
    ;
    assert(nav & !np & !op & !0x1_ffff_ffff_ffff_ffff_ffffu128 == 0) by (bit_vector)
        requires
            nav & !0x1_ffff_ffff_ffff_ffff_ffffu128 == 0,
    ;
    assert(tm & !np & !op & !0x1_ffff_ffff_ffff_ffff_ffffu128 == 0) by (bit_vector)
        requires
            tm & !0x1_ffff_ffff_ffff_ffff_ffffu128 == 0,
    ;
}

} // verus!
