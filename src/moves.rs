use vstd::prelude::*;
use crate::laws::{lemma_successor_valid, valid};
use crate::mask::{ALL_BITS, bit, count_bits, lemma_count_bits_board};
use crate::position::{State, game_over, play, shaped, successor};
use crate::rules::Constants;

verus! {

/// The non-terminal successors of `s` for the legal cells from `pos` on, in
/// ascending cell order.
pub open spec fn successors_from(s: State, pos: int) -> Seq<State>
    decreases 81 - pos,
{
    if pos < 0 || pos >= 81 {
        Seq::empty()
    } else if bit(s.next_valid.0, pos) && !game_over(s, pos as u128) {
        seq![successor(s, pos as u128)] + successors_from(s, pos + 1)
    } else {
        successors_from(s, pos + 1)
    }
}

/// The positions after each legal move of `s` that does not end the game, in
/// ascending cell order.
pub fn successors(c: &Constants, s: &State) -> (r: Vec<State>)
    requires
        c.wf(),
        shaped(*s),
    ensures
        r@ == successors_from(*s, 0),
{
    let mut out: Vec<State> = Vec::new();
    let mut pos: u128 = 0;
    while pos < 81
        invariant
            c.wf(),
            shaped(*s),
            pos <= 81,
            out@ + successors_from(*s, pos as int) == successors_from(*s, 0),
        decreases 81 - pos,
    {
        if (s.next_valid.0 >> pos) & 1u128 == 1u128 {
            let (next, over) = play(c, s, pos);
            if !over {
                proof {
                    assert(out@.push(next) + successors_from(*s, pos as int + 1) =~= out@
                        + successors_from(*s, pos as int));
                }
                out.push(next);
            }
        }
        pos = pos + 1;
    }
    proof {
        assert(out@ + successors_from(*s, 81) =~= out@);
    }
    out
}

/// The move generator emits at most one successor per legal cell, each of
/// them valid, so in none do the two sides' cells overlap.
pub proof fn lemma_successors_bounded(s: State)
    requires
        valid(s),
    ensures
        successors_from(s, 0).len() <= count_bits(s.next_valid.0, 128),
        forall|i: int|
            0 <= i < successors_from(s, 0).len() ==> valid(#[trigger] successors_from(s, 0)[i]),
        forall|i: int|
            0 <= i < successors_from(s, 0).len() ==> (#[trigger] successors_from(s, 0)[i]).player_placed.0
                & successors_from(s, 0)[i].opponent_placed.0 == 0,
{
    let nv = s.next_valid.0;
    let av = s.available_fields.0;
    let occ = s.player_placed.0 | s.opponent_placed.0;
    assert(nv & !ALL_BITS == 0) by (bit_vector)
        requires
            nv & (occ | !av) == 0,
            av & !0x1_ffff_ffff_ffff_ffff_ffffu128 == 0,
            ALL_BITS == 0x1_ffff_ffff_ffff_ffff_ffffu128,
    ;
    lemma_count_bits_board(nv, 128);
    lemma_successors_from(s, 0);
}

proof fn lemma_successors_from(s: State, pos: int)
    requires
        valid(s),
        0 <= pos <= 81,
    ensures
        successors_from(s, pos).len() + count_bits(s.next_valid.0, pos as nat) <= count_bits(
            s.next_valid.0,
            81,
        ),
        forall|i: int|
            0 <= i < successors_from(s, pos).len() ==> valid(#[trigger] successors_from(s, pos)[i]),
    decreases 81 - pos,
{
    if pos < 81 {
        lemma_successors_from(s, pos + 1);
        lemma_count_bits_monotone(s.next_valid.0, (pos + 1) as nat, 81);
        if bit(s.next_valid.0, pos) && !game_over(s, pos as u128) {
            lemma_successor_valid(s, pos as u128);
            let rest = successors_from(s, pos + 1);
            assert forall|i: int|
                0 <= i < successors_from(s, pos).len() implies valid(
                #[trigger] successors_from(s, pos)[i],
            ) by {
                if i > 0 {
                    assert(successors_from(s, pos)[i] == rest[i - 1]);
                }
            }
        }
    }
}

proof fn lemma_count_bits_monotone(m: u128, a: nat, b: nat)
    requires
        a <= b,
    ensures
        count_bits(m, a) <= count_bits(m, b),
    decreases b - a,
{
    if a < b {
        lemma_count_bits_monotone(m, a, (b - 1) as nat);
    }
}

} // verus!
