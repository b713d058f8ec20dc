use vstd::prelude::*;
use crate::mask::Mask81;

verus! {

/// The nine cells of one sub-board, or the nine sub-boards of the meta-board.
pub const FIELD_ALL: u16 = 0x1ff;

/// Whether a 9-bit occupancy of a 3x3 grid holds one of its eight lines
/// (three rows, three columns, two diagonals).
pub open spec fn is_win(m: u16) -> bool {
    ||| m & 0o421 == 0o421
    ||| m & 0o124 == 0o124
    ||| m & 0o700 == 0o700
    ||| m & 0o070 == 0o070
    ||| m & 0o007 == 0o007
    ||| m & 0o111 == 0o111
    ||| m & 0o222 == 0o222
    ||| m & 0o444 == 0o444
}

/// The 81-bit mask of the nine cells of sub-board `i`.
pub open spec fn field_mask(i: u128) -> u128 {
    0x1ffu128 << ((i * 9) as u128)
}

/// Tests a 9-bit occupancy for a line.
pub fn has_line(m: u16) -> (r: bool)
    ensures
        r == is_win(m),
{
    m & 0o421 == 0o421 || m & 0o124 == 0o124 || m & 0o700 == 0o700 || m & 0o070 == 0o070
        || m & 0o007 == 0o007 || m & 0o111 == 0o111 || m & 0o222 == 0o222 || m & 0o444
        == 0o444
}

/// The precomputed, read-only tables of the move generator.
pub struct Constants {
    /// For each 9-bit occupancy, 1 if it holds a line, else 0.
    pub info: Vec<u8>,
    /// For each sub-board, the mask of its cells.
    pub fields: Vec<Mask81>,
}

impl Constants {
    /// The tables hold what their documentation says.
    pub open spec fn wf(&self) -> bool {
        &&& self.info@.len() == 512
        &&& forall|m: int| 0 <= m < 512 ==> (#[trigger] self.info@[m] != 0) == is_win(m as u16)
        &&& self.fields@.len() == 9
        &&& forall|i: int| 0 <= i < 9 ==> (#[trigger] self.fields@[i]).0 == field_mask(i as u128)
    }

    /// Builds the win table and the sub-board masks.
    pub fn build() -> (r: Constants)
        ensures
            r.wf(),
    {
        let mut info: Vec<u8> = Vec::new();
        let mut mask: u16 = 0;
        while mask < 512
            invariant
                mask <= 512,
                info@.len() == mask,
                forall|m: int| 0 <= m < mask ==> (#[trigger] info@[m] != 0) == is_win(m as u16),
            decreases 512 - mask,
        {
            info.push(if has_line(mask) { 1 } else { 0 });
            mask = mask + 1;
        }
        let mut fields: Vec<Mask81> = Vec::new();
        let mut i: u128 = 0;
        while i < 9
            invariant
                i <= 9,
                fields@.len() == i,
                forall|j: int| 0 <= j < i ==> (#[trigger] fields@[j]).0 == field_mask(j as u128),
            decreases 9 - i,
        {
            fields.push(Mask81(0x1ffu128 << (i * 9)));
            i = i + 1;
        }
        Constants { info, fields }
    }
}

} // verus!
