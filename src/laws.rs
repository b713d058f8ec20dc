use vstd::prelude::*;
use crate::mask::{ALL_BITS, bit};
use crate::counter::initial_state;
use crate::position::{
    State, lemma_successor_shaped, new_end, next_available, next_meta, next_placed, next_valid,
    shaped, slice, successor,
};
use crate::rules::field_mask;

verus! {

/// Whether sub-board `f` is marked in the 9-bit meta mask `m`.
pub open spec fn meta_bit(m: u16, f: u128) -> bool {
    (m >> (f as u16)) & 1u16 == 1u16
}

/// The invariants of a position: the two sides' cells are disjoint; legal
/// cells are open and empty; each sub-board is wholly open or wholly closed;
/// and a sub-board is closed exactly when it is won by either side or all
/// nine of its cells are occupied.
pub open spec fn valid(s: State) -> bool {
    let pp = s.player_placed.0;
    let op = s.opponent_placed.0;
    let av = s.available_fields.0;
    &&& shaped(s)
    &&& pp & op == 0
    &&& s.next_valid.0 & (pp | op | !av) == 0
    &&& forall|f: u128| f < 9 ==> #[trigger] slice(av, f) == 0 || slice(av, f) == 0x1ff
    &&& forall|f: u128|
        f < 9 ==> (#[trigger] slice(av, f) == 0) == (meta_bit(
            s.meta_player_placed | s.meta_opponent_placed,
            f,
        ) || slice(pp | op, f) == 0x1ff)
}

/// Bits of sub-board `f` are untouched by a change to cell `pos` of another
/// sub-board, and the cell shows up in its own sub-board.
proof fn lemma_slice_set_bit(x: u128, pos: u128, f: u128)
    requires
        pos < 81,
        f < 9,
    ensures
        f != pos / 9 ==> slice(x | (1u128 << pos), f) == slice(x, f),
        f == pos / 9 ==> slice(x | (1u128 << pos), f) == slice(x, f) | (1u16 << ((pos % 9) as u16)),
{
    let big_f = pos / 9;
    let t = pos % 9;
    assert((f != big_f ==> slice(x | (1u128 << pos), f) == slice(x, f)) && (f == big_f ==> slice(
        x | (1u128 << pos),
        f,
    ) == slice(x, f) | (1u16 << (t as u16)))) by (bit_vector)
        requires
            pos == big_f * 9 + t,
            t < 9,
            big_f < 9,
            f < 9,
    ;
}

/// Closing sub-board `g` clears its slice and no other.
proof fn lemma_slice_clear_field(av: u128, g: u128, f: u128)
    requires
        g < 9,
        f < 9,
    ensures
        f != g ==> slice(av & !field_mask(g), f) == slice(av, f),
        slice(av & !field_mask(g), g) == 0,
{
    assert((f != g ==> slice(av & !(0x1ffu128 << ((g * 9) as u128)), f) == slice(av, f)) && slice(
        av & !(0x1ffu128 << ((g * 9) as u128)),
        g,
    ) == 0) by (bit_vector)
        requires
            g < 9,
            f < 9,
    ;
}

/// Marking sub-board `g` in a meta mask marks it and no other.
proof fn lemma_meta_set(m: u16, g: u128, f: u128)
    requires
        g < 9,
        f < 9,
    ensures
        f != g ==> meta_bit(m | (1u16 << (g as u16)), f) == meta_bit(m, f),
        meta_bit(m | (1u16 << (g as u16)), g),
{
    assert((f != g ==> meta_bit(m | (1u16 << (g as u16)), f) == meta_bit(m, f)) && meta_bit(
        m | (1u16 << (g as u16)),
        g,
    )) by (bit_vector)
        requires
            g < 9,
            f < 9,
    ;
}

/// Every move of the move generator keeps a valid position valid.
pub proof fn lemma_successor_valid(s: State, pos: u128)
    requires
        valid(s),
        pos < 81,
        bit(s.next_valid.0, pos as int),
    ensures
        valid(successor(s, pos)),
{
    let pp = s.player_placed.0;
    let op = s.opponent_placed.0;
    let nv = s.next_valid.0;
    let av = s.available_fields.0;
    let big_f = pos / 9;
    let t = pos % 9;
    let n = successor(s, pos);
    let np = next_placed(s, pos);
    let nav = next_available(s, pos);
    let nnv = next_valid(s, pos);
    lemma_successor_shaped(s, pos);
    assert(op & (pp | (1u128 << pos)) == 0 && (av >> pos) & 1u128 == 1u128) by (bit_vector)
        requires
            pp & op == 0,
            nv & (pp | op | !av) == 0,
            (nv >> pos) & 1u128 == 1u128,
            pos < 81,
    ;
    assert(slice(av, big_f) != 0) by (bit_vector)
        requires
            (av >> pos) & 1u128 == 1u128,
            pos == big_f * 9 + t,
            t < 9,
            big_f < 9,
    ;
    assert(op | np == (pp | op) | (1u128 << pos)) by (bit_vector)
        requires
            np == pp | (1u128 << pos),
    ;
    // Each sub-board after the move.
    assert forall|f: u128| f < 9 implies (#[trigger] slice(nav, f) == 0 || slice(nav, f) == 0x1ff)
        && (slice(nav, f) == 0) == (meta_bit(
        n.meta_player_placed | n.meta_opponent_placed,
        f,
    ) || slice(op | np, f) == 0x1ff) by {
        lemma_slice_set_bit(pp | op, pos, f);
        lemma_slice_clear_field(av, big_f, f);
        let mp = s.meta_player_placed;
        let mo = s.meta_opponent_placed;
        lemma_meta_set(mp | mo, big_f, f);
        assert(mo | (mp | (1u16 << (big_f as u16))) == (mp | mo) | (1u16 << (big_f as u16)) && mo
            | mp == mp | mo) by (bit_vector);
        assert(slice(av, f) == 0 || slice(av, f) == 0x1ff);
        assert(n.meta_player_placed | n.meta_opponent_placed == mo | next_meta(s, pos));
    }
    // The opponent's legal cells lie in open sub-boards.
    let tm = field_mask(t);
    if nav & tm != 0 {
        assert(slice(nav, t) == 0 || slice(nav, t) == 0x1ff);
        assert(tm & !nav == 0) by (bit_vector)
            requires
                tm == 0x1ffu128 << ((t * 9) as u128),
                nav & tm != 0,
                slice(nav, t) == 0 || slice(nav, t) == 0x1ff,
                t < 9,
        ;
        assert(nnv == tm & !np & !op);
        assert(nnv & (op | np | !nav) == 0) by (bit_vector)
            requires
                nnv == tm & !np & !op,
                tm & !nav == 0,
        ;
    } else {
        assert(nnv == nav & !np & !op);
        assert(nnv & (op | np | !nav) == 0) by (bit_vector)
            requires
                nnv == nav & !np & !op,
        ;
    }
}

/// The empty board is a valid position.
pub proof fn lemma_initial_valid()
    ensures
        valid(initial_state()),
{
    let all = ALL_BITS;
    assert(all & !0x1_ffff_ffff_ffff_ffff_ffffu128 == 0 && all & (0u128 | 0u128 | !all) == 0
        && 0u128 & 0u128 == 0) by (bit_vector)
        requires
            all == 0x1_ffff_ffff_ffff_ffff_ffffu128,
    ;
    assert forall|f: u128| f < 9 implies #[trigger] slice(all, f) == 0x1ff by {
        assert(slice(all, f) == 0x1ff) by (bit_vector)
            requires
                all == 0x1_ffff_ffff_ffff_ffff_ffffu128,
                f < 9,
        ;
    }
    let s0 = initial_state();
    assert forall|f: u128| f < 9 implies (#[trigger] slice(s0.available_fields.0, f) == 0) == (
    meta_bit(s0.meta_player_placed | s0.meta_opponent_placed, f) || slice(
        s0.player_placed.0 | s0.opponent_placed.0,
        f,
    ) == 0x1ff) by {
        let m = s0.meta_player_placed | s0.meta_opponent_placed;
        let o = s0.player_placed.0 | s0.opponent_placed.0;
        assert(!meta_bit(m, f) && slice(o, f) == 0) by (bit_vector)
            requires
                m == 0u16 | 0u16,
                o == 0u128 | 0u128,
        ;
    }
}

/// A move closes no sub-board but its own, closes that one exactly when it
/// is won or filled by the move, and never reopens a sub-board.
pub proof fn lemma_closure_once(s: State, pos: u128, f: u128)
    requires
        valid(s),
        pos < 81,
        bit(s.next_valid.0, pos as int),
        f < 9,
    ensures
        next_available(s, pos) & !s.available_fields.0 == 0,
        (slice(s.available_fields.0, f) != 0 && slice(next_available(s, pos), f) == 0) <==> (f
            == pos / 9 && new_end(s, pos)),
{
    let pp = s.player_placed.0;
    let op = s.opponent_placed.0;
    let nv = s.next_valid.0;
    let av = s.available_fields.0;
    let big_f = pos / 9;
    let t = pos % 9;
    let fm = field_mask(big_f);
    assert(av & !fm & !av == 0 && av & !av == 0) by (bit_vector);
    assert((av >> pos) & 1u128 == 1u128) by (bit_vector)
        requires
            nv & (pp | op | !av) == 0,
            (nv >> pos) & 1u128 == 1u128,
    ;
    assert(slice(av, big_f) != 0) by (bit_vector)
        requires
            (av >> pos) & 1u128 == 1u128,
            pos == big_f * 9 + t,
            t < 9,
            big_f < 9,
    ;
    lemma_slice_clear_field(av, big_f, f);
}

} // verus!
