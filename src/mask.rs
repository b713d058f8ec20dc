use vstd::prelude::*;

verus! {

/// The mask with all 81 cells set.
pub const ALL_BITS: u128 = 0x1_ffff_ffff_ffff_ffff_ffff;

/// Whether bit `i` of `m` is set.
pub open spec fn bit(m: u128, i: int) -> bool {
    (m >> (i as u128)) & 1u128 == 1u128
}

/// Number of set bits of `m` among the positions below `n`.
pub open spec fn count_bits(m: u128, n: nat) -> nat
    decreases n,
{
    if n == 0 {
        0
    } else {
        count_bits(m, (n - 1) as nat) + if bit(m, n - 1) { 1nat } else { 0nat }
    }
}

/// A set of cells of the 81-cell board, one bit per cell.
#[derive(Debug, Clone, Copy, PartialEq, Eq, Structural)]
pub struct Mask81(pub u128);

impl Mask81 {
    /// All 81 cells.
    pub fn all() -> (r: Mask81)
        ensures
            r.0 == ALL_BITS,
    {
        Mask81(ALL_BITS)
    }

    /// Number of cells in the set.
    pub fn count_ones(&self) -> (r: u32)
        ensures
            r as nat == count_bits(self.0, 128),
    {
        u128_count_ones(self.0)
    }
}

impl Default for Mask81 {
    fn default() -> (r: Mask81)
        ensures
            r.0 == 0,
    {
        Mask81(0)
    }
}

/// Relies on `u128::count_ones`: the number of ones in the binary representation.
#[verifier::external_body]
fn u128_count_ones(x: u128) -> (r: u32)
    ensures
        r as nat == count_bits(x, 128),
{
    x.count_ones()
}

/// At most `n` of the positions below `n` are set.
pub proof fn lemma_count_bits_le(m: u128, n: nat)
    ensures
        count_bits(m, n) <= n,
    decreases n,
{
    if n > 0 {
        lemma_count_bits_le(m, (n - 1) as nat);
    }
}

/// A mask within the board has no set bit at or above position 81.
pub proof fn lemma_count_bits_board(m: u128, n: nat)
    requires
        m & !ALL_BITS == 0,
        81 <= n <= 128,
    ensures
        count_bits(m, n) == count_bits(m, 81),
    decreases n,
{
    if n > 81 {
        let i: u128 = (n - 1) as u128;
        assert((m >> i) & 1u128 == 0u128) by (bit_vector)
            requires
                m & !0x1_ffff_ffff_ffff_ffff_ffffu128 == 0,
                81 <= i < 128,
        ;
        lemma_count_bits_board(m, (n - 1) as nat);
    }
}

/// A mask within the board has at most 81 cells.
pub proof fn lemma_count_ones_board(m: u128)
    requires
        m & !ALL_BITS == 0,
    ensures
        count_bits(m, 128) <= 81,
{
    lemma_count_bits_board(m, 128);
    lemma_count_bits_le(m, 81);
}

} // verus!
