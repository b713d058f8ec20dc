use vstd::prelude::*;
use crate::mask::{
    ALL_BITS, Mask81, bit, count_bits, lemma_count_bits_board, lemma_count_ones_board,
};
use crate::position::{
    State, game_over, lemma_successor_shaped, next_valid, play, shaped, successor,
};
use crate::rules::Constants;

verus! {

/// What one legal move `pos` adds to the count at remaining depth `d`: the
/// move itself, and unless it ends the game, the sequences that extend it
/// (at the last level, the opponent's legal replies, counted without being
/// played).
pub open spec fn move_count(s: State, pos: int, d: nat) -> nat
    decreases d, 0int,
{
    1 + if game_over(s, pos as u128) {
        0nat
    } else if d <= 1 {
        count_bits(next_valid(s, pos as u128), 128)
    } else {
        sequences(successor(s, pos as u128), (d - 1) as nat)
    }
}

/// The sum of `move_count` over the legal cells of `s` from `pos` on.
pub open spec fn sequences_from(s: State, d: nat, pos: int) -> nat
    decreases d, 81 - pos,
{
    if pos < 0 || pos >= 81 {
        0
    } else {
        (if bit(s.next_valid.0, pos) {
            move_count(s, pos, d)
        } else {
            0nat
        }) + sequences_from(s, d, pos + 1)
    }
}

/// The number of move sequences of 1 to `d + 1` plies from `s` that the
/// engine counts at remaining depth `d` (none at depth 0).
pub open spec fn sequences(s: State, d: nat) -> nat
    decreases d, 82int,
{
    if d == 0 {
        0
    } else {
        sequences_from(s, d, 0)
    }
}

/// A bound on `sequences` at depth `d`: 81 moves at each ply.
pub open spec fn cap(d: nat) -> nat
    decreases d,
{
    if d == 0 {
        81
    } else {
        81 * (1 + cap((d - 1) as nat))
    }
}

/// Counts move sequences of nested tic-tac-toe from the empty board.
pub struct MoveCounter {
    constants: Constants,
}

impl MoveCounter {
    /// The counter's tables are built.
    pub closed spec fn wf(&self) -> bool {
        self.constants.wf()
    }

    /// Builds a counter and its tables.
    pub fn new() -> (r: Self)
        ensures
            r.wf(),
    {
        MoveCounter { constants: Constants::build() }
    }

    /// The move generator's tables.
    pub fn constant_tables(&self) -> (r: &Constants)
        requires
            self.wf(),
        ensures
            r.wf(),
    {
        &self.constants
    }

    /// The count of sequences from `state` at remaining depth `depth`.
    pub(crate) fn recurse(&self, state: State, depth: u32) -> (r: u64)
        requires
            self.wf(),
            shaped(state),
            1 <= depth <= 9,
        ensures
            r == sequences(state, depth as nat),
        decreases depth,
    {
        proof {
            lemma_sequences_le(state, depth as nat);
            lemma_cap_fits(depth as nat);
        }
        let mut total: u64 = 0;
        let mut pos: u128 = 0;
        while pos < 81
            invariant
                self.wf(),
                shaped(state),
                1 <= depth <= 9,
                pos <= 81,
                total + sequences_from(state, depth as nat, pos as int) == sequences(
                    state,
                    depth as nat,
                ),
                sequences(state, depth as nat) <= u64::MAX,
            decreases 81 - pos,
        {
            if (state.next_valid.0 >> pos) & 1u128 == 1u128 {
                let (next, over) = play(&self.constants, &state, pos);
                proof {
                    lemma_successor_shaped(state, pos);
                }
                let extra: u64 = if over {
                    0
                } else if depth == 1 {
                    next.next_valid.count_ones() as u64
                } else {
                    self.recurse(next, depth - 1)
                };
                assert(1 + extra == move_count(state, pos as int, depth as nat));
                assert(sequences_from(state, depth as nat, pos as int) == move_count(
                    state,
                    pos as int,
                    depth as nat,
                ) + sequences_from(state, depth as nat, pos as int + 1));
                total = total + 1 + extra;
            }
            pos = pos + 1;
        }
        total
    }

    /// The number of move sequences of 1 to `depth + 1` plies from the empty
    /// board that the engine counts at depth `depth`; 0 at depth 0.
    pub fn count_moves(&self, depth: u32) -> (r: u64)
        requires
            self.wf(),
            depth <= 9,
        ensures
            r == sequences(initial_state(), depth as nat),
            depth == 0 ==> r == 0,
    {
        if depth == 0 {
            0
        } else {
            let s = State::initial();
            proof {
                assert(s == initial_state());
                assert(0x1_ffff_ffff_ffff_ffff_ffffu128 & !0x1_ffff_ffff_ffff_ffff_ffffu128 == 0)
                    by (bit_vector);
            }
            self.recurse(s, depth)
        }
    }
}

/// The empty board, with every cell legal.
pub open spec fn initial_state() -> State {
    State {
        player_placed: Mask81(0),
        opponent_placed: Mask81(0),
        next_valid: Mask81(ALL_BITS),
        available_fields: Mask81(ALL_BITS),
        meta_player_placed: 0,
        meta_opponent_placed: 0,
    }
}

/// The bound at depth 9 fits in 64 bits.
pub proof fn lemma_cap_fits(d: nat)
    requires
        d <= 9,
    ensures
        cap(d) <= u64::MAX,
        d <= 8 ==> cap(d) <= 151970818238211609,
{
    assert(cap(0) == 81);
    assert(cap(1) == 6642);
    assert(cap(2) == 538083);
    assert(cap(3) == 43584804);
    assert(cap(4) == 3530369205);
    assert(cap(5) == 285959905686);
    assert(cap(6) == 23162752360647);
    assert(cap(7) == 1876182941212488);
    assert(cap(8) == 151970818238211609);
    assert(cap(9) == 12309636277295140410);
}

/// The count at depth `d` is at most `cap(d)`.
pub proof fn lemma_sequences_le(s: State, d: nat)
    requires
        shaped(s),
        d >= 1,
    ensures
        sequences(s, d) <= cap(d),
    decreases d, 82int,
{
    lemma_sequences_from_le(s, d, 0);
}

/// From cell `pos` on, each of the remaining cells adds at most `1 + cap(d - 1)`.
proof fn lemma_sequences_from_le(s: State, d: nat, pos: int)
    requires
        shaped(s),
        d >= 1,
        0 <= pos <= 81,
    ensures
        sequences_from(s, d, pos) <= (81 - pos) * (1 + cap((d - 1) as nat)),
    decreases d, 81 - pos,
{
    let c = cap((d - 1) as nat);
    if pos < 81 {
        lemma_sequences_from_le(s, d, pos + 1);
        lemma_successor_shaped(s, pos as u128);
        if !game_over(s, pos as u128) {
            if d <= 1 {
                lemma_count_ones_board(next_valid(s, pos as u128));
            } else {
                lemma_sequences_le(successor(s, pos as u128), (d - 1) as nat);
            }
        }
        assert(move_count(s, pos, d) <= 1 + c);
        assert((81 - pos) * (1 + c) == (1 + c) + (81 - (pos + 1)) * (1 + c)) by (nonlinear_arith);
    }
}

/// Each legal cell from `pos` on adds at least one to the count.
proof fn lemma_sequences_from_ge_moves(s: State, d: nat, pos: int)
    requires
        0 <= pos <= 81,
    ensures
        sequences_from(s, d, pos) + count_bits(s.next_valid.0, pos as nat) >= count_bits(
            s.next_valid.0,
            81,
        ),
    decreases 81 - pos,
{
    if pos < 81 {
        lemma_sequences_from_ge_moves(s, d, pos + 1);
        assert(count_bits(s.next_valid.0, (pos + 1) as nat) == count_bits(s.next_valid.0, pos as nat)
            + if bit(s.next_valid.0, pos) {
            1nat
        } else {
            0nat
        });
        assert(sequences_from(s, d, pos) == (if bit(s.next_valid.0, pos) {
            move_count(s, pos, d)
        } else {
            0nat
        }) + sequences_from(s, d, pos + 1));
        assert(move_count(s, pos, d) >= 1);
    }
}

/// The count never shrinks when the search goes one ply deeper: a sequence
/// counted at depth `d` is counted at depth `d + 1` as well.
pub proof fn lemma_sequences_monotone(s: State, d: nat)
    requires
        shaped(s),
        d >= 1,
    ensures
        sequences(s, d) <= sequences(s, d + 1),
    decreases d, 82int,
{
    lemma_sequences_from_monotone(s, d, 0);
}

proof fn lemma_sequences_from_monotone(s: State, d: nat, pos: int)
    requires
        shaped(s),
        d >= 1,
        0 <= pos <= 81,
    ensures
        sequences_from(s, d, pos) <= sequences_from(s, d + 1, pos),
    decreases d, 81 - pos,
{
    if pos < 81 {
        lemma_sequences_from_monotone(s, d, pos + 1);
        if bit(s.next_valid.0, pos) && !game_over(s, pos as u128) {
            let n = successor(s, pos as u128);
            lemma_successor_shaped(s, pos as u128);
            if d == 1 {
                lemma_count_bits_board(n.next_valid.0, 128);
                lemma_sequences_from_ge_moves(n, 1, 0);
                assert(count_bits(n.next_valid.0, 0) == 0);
                assert(sequences(n, 1) == sequences_from(n, 1, 0));
            } else {
                lemma_sequences_monotone(n, (d - 1) as nat);
            }
            assert(move_count(s, pos, d) <= move_count(s, pos, d + 1));
        }
        assert(sequences_from(s, d, pos) == (if bit(s.next_valid.0, pos) {
            move_count(s, pos, d)
        } else {
            0nat
        }) + sequences_from(s, d, pos + 1));
        assert(sequences_from(s, d + 1, pos) == (if bit(s.next_valid.0, pos) {
            move_count(s, pos, d + 1)
        } else {
            0nat
        }) + sequences_from(s, d + 1, pos + 1));
    }
}

/// The count of sequences from the empty board never shrinks as the depth
/// grows.
pub proof fn lemma_count_moves_monotone(d: nat)
    ensures
        sequences(initial_state(), d) <= sequences(initial_state(), d + 1),
{
    if d >= 1 {
        let all = ALL_BITS;
        assert(all & !0x1_ffff_ffff_ffff_ffff_ffffu128 == 0) by (bit_vector)
            requires
                all == 0x1_ffff_ffff_ffff_ffff_ffffu128,
        ;
        lemma_sequences_monotone(initial_state(), d);
    }
}

/// Whether play from `s` can go on for `n + 1` more plies: a legal move,
/// followed (for `n > 0`) by `n` more plies without the game ending.
pub open spec fn playable(s: State, n: nat) -> bool
    decreases n,
{
    exists|pos: int|
        0 <= pos < 81 && #[trigger] bit(s.next_valid.0, pos) && (n == 0 || (!game_over(
            s,
            pos as u128,
        ) && playable(successor(s, pos as u128), (n - 1) as nat)))
}

/// A legal cell counts among the set bits.
proof fn lemma_count_bits_pos(m: u128, pos: int, n: nat)
    requires
        0 <= pos < n,
        bit(m, pos),
    ensures
        count_bits(m, n) >= 1,
    decreases n,
{
    if pos < n - 1 {
        lemma_count_bits_pos(m, pos, (n - 1) as nat);
    }
}

/// One move `w` at depth 1 that is followed by a reply with a reply of its
/// own adds one more than the count of the legal cells.
proof fn lemma_sequences_from_one(s: State, pos: int, w: int)
    requires
        shaped(s),
        0 <= pos <= 81,
        0 <= w < 81,
        bit(s.next_valid.0, w),
        move_count(s, w, 1) >= 2,
    ensures
        sequences_from(s, 1, pos) + count_bits(s.next_valid.0, pos as nat) >= count_bits(
            s.next_valid.0,
            81,
        ) + if pos <= w {
            1int
        } else {
            0
        },
    decreases 81 - pos,
{
    if pos < 81 {
        lemma_sequences_from_one(s, pos + 1, w);
        assert(count_bits(s.next_valid.0, (pos + 1) as nat) == count_bits(s.next_valid.0, pos as nat)
            + if bit(s.next_valid.0, pos) {
            1nat
        } else {
            0nat
        });
        assert(move_count(s, pos, 1) >= 1);
    }
}

/// The count grows strictly from depth `d` to depth `d + 1` where play can
/// go on for `d + 2` plies.
pub proof fn lemma_sequences_strict(s: State, d: nat)
    requires
        shaped(s),
        d >= 1,
        playable(s, d + 1),
    ensures
        sequences(s, d) < sequences(s, d + 1),
    decreases d, 82int,
{
    let w = choose|pos: int|
        0 <= pos < 81 && #[trigger] bit(s.next_valid.0, pos) && (!game_over(s, pos as u128)
            && playable(successor(s, pos as u128), d));
    lemma_sequences_from_strict(s, d, 0, w);
}

proof fn lemma_sequences_from_strict(s: State, d: nat, pos: int, w: int)
    requires
        shaped(s),
        d >= 1,
        0 <= pos <= w < 81,
        bit(s.next_valid.0, w),
        !game_over(s, w as u128),
        playable(successor(s, w as u128), d),
    ensures
        sequences_from(s, d, pos) < sequences_from(s, d + 1, pos),
    decreases d, 81 - pos,
{
    lemma_successor_shaped(s, pos as u128);
    if pos < w {
        lemma_sequences_from_strict(s, d, pos + 1, w);
        if bit(s.next_valid.0, pos) && !game_over(s, pos as u128) {
            let n = successor(s, pos as u128);
            if d == 1 {
                lemma_count_bits_board(n.next_valid.0, 128);
                lemma_sequences_from_ge_moves(n, 1, 0);
                assert(count_bits(n.next_valid.0, 0) == 0);
                assert(sequences(n, 1) == sequences_from(n, 1, 0));
            } else {
                lemma_sequences_monotone(n, (d - 1) as nat);
            }
        }
    } else {
        lemma_sequences_from_monotone(s, d, pos + 1);
        let n = successor(s, w as u128);
        lemma_successor_shaped(s, w as u128);
        if d == 1 {
            // A reply `v` that does not end the game, and a reply to it.
            let v = choose|v: int|
                0 <= v < 81 && #[trigger] bit(n.next_valid.0, v) && (!game_over(n, v as u128)
                    && playable(successor(n, v as u128), 0));
            let nn = successor(n, v as u128);
            let u = choose|u: int| 0 <= u < 81 && #[trigger] bit(nn.next_valid.0, u);
            lemma_count_bits_pos(nn.next_valid.0, u, 128);
            assert(move_count(n, v, 1) >= 2);
            lemma_count_bits_board(n.next_valid.0, 128);
            lemma_sequences_from_one(n, 0, v);
            assert(count_bits(n.next_valid.0, 0) == 0);
            assert(sequences(n, 1) == sequences_from(n, 1, 0));
        } else {
            lemma_sequences_strict(n, (d - 1) as nat);
        }
    }
    assert(sequences_from(s, d, pos) == (if bit(s.next_valid.0, pos) {
        move_count(s, pos, d)
    } else {
        0nat
    }) + sequences_from(s, d, pos + 1));
    assert(sequences_from(s, d + 1, pos) == (if bit(s.next_valid.0, pos) {
        move_count(s, pos, d + 1)
    } else {
        0nat
    }) + sequences_from(s, d + 1, pos + 1));
}

} // verus!
