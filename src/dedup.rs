use vstd::prelude::*;
use crate::counter::{
    MoveCounter, cap, initial_state, lemma_cap_fits, lemma_sequences_le, sequences,
};
use crate::mask::{ALL_BITS, count_bits, lemma_count_bits_le, lemma_count_ones_board};
use crate::moves::{successors, successors_from};
use crate::position::{State, shaped};
use crate::symmetry::{
    best_symmetry, canonical, canonicalize, lemma_apply_shaped, lemma_image_shaped,
};

verus! {

/// What a non-terminal successor `n` adds beyond its own move at remaining
/// depth `e`: its legal replies at the last level, else its own count.
pub open spec fn sub_count(n: State, e: nat) -> nat {
    if e == 0 {
        count_bits(n.next_valid.0, 128)
    } else {
        sequences(n, e)
    }
}

/// The sum of `sub_count` over the canonical forms of the positions of `q`.
pub open spec fn canonical_sum(q: Seq<State>, e: nat) -> nat
    decreases q.len(),
{
    if q.len() == 0 {
        0
    } else {
        canonical_sum(q.drop_last(), e) + sub_count(canonical(q.last()), e)
    }
}

/// The sum over the first `n` classes of multiplicity times `sub_count`.
pub open spec fn class_sum(keys: Seq<State>, mults: Seq<u64>, e: nat, n: int) -> nat
    decreases n,
{
    if n <= 0 {
        0
    } else {
        class_sum(keys, mults, e, n - 1) + (mults[n - 1] * sub_count(keys[n - 1], e)) as nat
    }
}

/// The count that the symmetry-merging strategy reports for `s` at depth
/// `d`: one per legal move, plus, for each move that does not end the game,
/// the count of the canonical form of the position it leads to.
pub open spec fn symmetric_count(s: State, d: nat) -> nat {
    if d == 0 {
        0
    } else {
        count_bits(s.next_valid.0, 128) + canonical_sum(successors_from(s, 0), (d - 1) as nat)
    }
}

proof fn lemma_sub_count_le(n: State, e: nat)
    requires
        shaped(n),
        n.next_valid.0 & !ALL_BITS == 0,
    ensures
        sub_count(n, e) <= cap(e),
{
    if e == 0 {
        lemma_count_ones_board(n.next_valid.0);
    } else {
        lemma_sequences_le(n, e);
    }
}

proof fn lemma_canonical_sum_le(q: Seq<State>, e: nat)
    ensures
        canonical_sum(q, e) <= q.len() * cap(e),
    decreases q.len(),
{
    if q.len() > 0 {
        lemma_canonical_sum_le(q.drop_last(), e);
        let c = canonical(q.last());
        let k = best_symmetry(q.last(), 8);
        lemma_apply_shaped(k, q.last());
        lemma_image_shaped(k, q.last().next_valid.0, 0, 81);
        lemma_sub_count_le(c, e);
        assert(q.len() * cap(e) == (q.len() - 1) * cap(e) + cap(e)) by (nonlinear_arith);
    }
}

proof fn lemma_successors_len(s: State, pos: int)
    requires
        0 <= pos <= 81,
    ensures
        successors_from(s, pos).len() <= 81 - pos,
    decreases 81 - pos,
{
    if pos < 81 {
        lemma_successors_len(s, pos + 1);
    }
}

proof fn lemma_class_sum_prefix(k1: Seq<State>, m1: Seq<u64>, k2: Seq<State>, m2: Seq<u64>, e: nat, n: int)
    requires
        0 <= n <= k1.len(),
        n <= k2.len(),
        n <= m1.len(),
        n <= m2.len(),
        forall|i: int| 0 <= i < n ==> k1[i] == k2[i] && m1[i] == m2[i],
    ensures
        class_sum(k1, m1, e, n) == class_sum(k2, m2, e, n),
    decreases n,
{
    if n > 0 {
        lemma_class_sum_prefix(k1, m1, k2, m2, e, n - 1);
    }
}

proof fn lemma_class_sum_bump(keys: Seq<State>, mults: Seq<u64>, e: nat, g: int, n: int)
    requires
        0 <= g < keys.len(),
        keys.len() == mults.len(),
        0 <= n <= keys.len(),
        mults[g] < u64::MAX,
    ensures
        class_sum(keys, mults.update(g, (mults[g] + 1) as u64), e, n) == class_sum(keys, mults, e, n)
            + if g < n {
            sub_count(keys[g], e)
        } else {
            0
        },
    decreases n,
{
    if n > 0 {
        lemma_class_sum_bump(keys, mults, e, g, n - 1);
        if n - 1 == g {
            let m = mults[g] as int;
            let v = sub_count(keys[g], e) as int;
            assert((m + 1) * v == m * v + v) by (nonlinear_arith);
        }
    }
}

proof fn lemma_class_sum_monotone(keys: Seq<State>, mults: Seq<u64>, e: nat, a: int, b: int)
    requires
        0 <= a <= b,
    ensures
        class_sum(keys, mults, e, a) <= class_sum(keys, mults, e, b),
    decreases b - a,
{
    if a < b {
        lemma_class_sum_monotone(keys, mults, e, a, b - 1);
    }
}

impl MoveCounter {
    /// The count of `state` at depth `depth`, with the successors merged by
    /// symmetry: each class of successors with one canonical form is counted
    /// once and weighted by its size.
    pub fn count_symmetric(&self, state: State, depth: u32) -> (r: u64)
        requires
            self.wf(),
            shaped(state),
            1 <= depth <= 9,
        ensures
            r == symmetric_count(state, depth as nat),
    {
        let e: u32 = depth - 1;
        let succs = successors(self.constant_tables(), &state);
        let mut keys: Vec<State> = Vec::new();
        let mut mults: Vec<u64> = Vec::new();
        let mut i: usize = 0;
        proof {
            lemma_successors_len(state, 0);
        }
        while i < succs.len()
            invariant
                succs@ == successors_from(state, 0),
                succs@.len() <= 81,
                i <= succs@.len(),
                keys@.len() == mults@.len(),
                keys@.len() <= i,
                forall|g: int| 0 <= g < keys@.len() ==> mults@[g] <= i,
                forall|g: int|
                    0 <= g < keys@.len() ==> exists|x: State| #[trigger] keys@[g] == canonical(x),
                class_sum(keys@, mults@, e as nat, keys@.len() as int) == canonical_sum(
                    succs@.take(i as int),
                    e as nat,
                ),
            decreases succs@.len() - i,
        {
            let c = canonicalize(&succs[i]);
            let mut g: usize = 0;
            while g < keys.len()
                invariant
                    g <= keys@.len(),
                ensures
                    g <= keys@.len(),
                    g < keys@.len() ==> keys@[g as int] == c,
                decreases keys@.len() - g,
            {
                if keys[g] == c {
                    break;
                }
                g = g + 1;
            }
            let found = g < keys.len();
            assert(succs@.take(i as int + 1).drop_last() =~= succs@.take(i as int));
            assert(succs@.take(i as int + 1).last() == succs@[i as int]);
            assert(canonical_sum(succs@.take(i as int + 1), e as nat) == canonical_sum(
                succs@.take(i as int),
                e as nat,
            ) + sub_count(canonical(succs@[i as int]), e as nat));
            let ghost old_mults = mults@;
            if found {
                proof {
                    lemma_class_sum_bump(keys@, mults@, e as nat, g as int, keys@.len() as int);
                }
                let m = mults[g];
                mults.set(g, m + 1);
                assert(mults@ == old_mults.update(g as int, (old_mults[g as int] + 1) as u64));
            } else {
                proof {
                    let k2 = keys@.push(c);
                    let m2 = mults@.push(1u64);
                    lemma_class_sum_prefix(keys@, mults@, k2, m2, e as nat, keys@.len() as int);
                    assert(k2[keys@.len() as int] == canonical(succs@[i as int]));
                    assert(class_sum(k2, m2, e as nat, keys@.len() as int + 1) == class_sum(
                        k2,
                        m2,
                        e as nat,
                        keys@.len() as int,
                    ) + (m2[keys@.len() as int] * sub_count(k2[keys@.len() as int], e as nat)) as nat);
                    assert(m2[keys@.len() as int] == 1);
                }
                keys.push(c);
                mults.push(1);
            }
            i = i + 1;
        }
        assert(succs@.take(succs@.len() as int) =~= succs@);
        let moves: u64 = state.next_valid.count_ones() as u64;
        proof {
            lemma_count_bits_le(state.next_valid.0, 128);
            lemma_canonical_sum_le(succs@, e as nat);
            lemma_cap_fits(e as nat);
            assert(succs@.len() * cap(e as nat) <= 81 * cap(e as nat)) by (nonlinear_arith)
                requires
                    succs@.len() <= 81,
            ;
            assert(81 * cap(e as nat) <= 81 * 151970818238211609) by (nonlinear_arith)
                requires
                    cap(e as nat) <= 151970818238211609,
            ;
        }
        let mut total: u64 = moves;
        let mut g: usize = 0;
        while g < keys.len()
            invariant
                self.wf(),
                0 <= e <= 8,
                g <= keys@.len(),
                keys@.len() == mults@.len(),
                forall|h: int|
                    0 <= h < keys@.len() ==> exists|x: State| #[trigger] keys@[h] == canonical(x),
                total == moves + class_sum(keys@, mults@, e as nat, g as int),
                moves + class_sum(keys@, mults@, e as nat, keys@.len() as int) <= u64::MAX,
            decreases keys@.len() - g,
        {
            let key = keys[g];
            proof {
                let x = choose|x: State| keys@[g as int] == canonical(x);
                let k = best_symmetry(x, 8);
                lemma_apply_shaped(k, x);
                lemma_class_sum_monotone(keys@, mults@, e as nat, g as int + 1, keys@.len() as int);
            }
            let v: u64 = if e == 0 {
                key.next_valid.count_ones() as u64
            } else {
                self.recurse(key, e)
            };
            total = total + mults[g] * v;
            g = g + 1;
        }
        total
    }

    /// The count of sequences from the empty board at depth `depth`, with the
    /// first layer of successors merged by symmetry.
    pub fn count_moves_symmetric(&self, depth: u32) -> (r: u64)
        requires
            self.wf(),
            depth <= 9,
        ensures
            r == symmetric_count(initial_state(), depth as nat),
    {
        if depth == 0 {
            0
        } else {
            let s = State::initial();
            proof {
                assert(s == initial_state());
                assert(ALL_BITS & !0x1_ffff_ffff_ffff_ffff_ffffu128 == 0) by (bit_vector)
                    requires
                        ALL_BITS == 0x1_ffff_ffff_ffff_ffff_ffffu128,
                ;
            }
            self.count_symmetric(s, depth)
        }
    }
}

} // verus!
