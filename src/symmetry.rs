use vstd::prelude::*;
use crate::laws::meta_bit;
use crate::mask::{ALL_BITS, Mask81, bit};
use crate::position::{State, shaped};

verus! {

/// The row that symmetry `k` carries onto row `r`, column `c` of a 3x3 grid.
pub open spec fn row_of(k: int, r: int, c: int) -> int {
    if k == 0 || k == 1 {
        r
    } else if k == 2 || k == 3 {
        2 - r
    } else if k == 4 || k == 5 {
        c
    } else {
        2 - c
    }
}

/// The column that symmetry `k` carries onto row `r`, column `c` of a 3x3
/// grid.
pub open spec fn col_of(k: int, r: int, c: int) -> int {
    if k == 0 || k == 2 {
        c
    } else if k == 1 || k == 3 {
        2 - c
    } else if k == 4 || k == 6 {
        r
    } else {
        2 - r
    }
}

/// The cell of a 3x3 grid that symmetry `k` carries onto cell `i`: the eight
/// symmetries of the square (identity, the two mirror images, the half turn,
/// the two diagonal mirror images and the two quarter turns).
pub open spec fn sym9(k: int, i: int) -> int {
    3 * row_of(k, i / 3, i % 3) + col_of(k, i / 3, i % 3)
}

/// The board cell that symmetry `k` carries onto cell `j`: the symmetry acts
/// alike on the layout of the sub-boards and on the cells inside each.
pub open spec fn sym81(k: int, j: int) -> int {
    9 * sym9(k, j / 9) + sym9(k, j % 9)
}

/// The first `n` bits of the image of board mask `m` under symmetry `k`.
pub open spec fn mask_image(k: int, m: u128, n: nat) -> u128
    decreases n,
{
    if n == 0 {
        0
    } else {
        mask_image(k, m, (n - 1) as nat) | if bit(m, sym81(k, n - 1)) {
            1u128 << ((n - 1) as u128)
        } else {
            0u128
        }
    }
}

/// The first `n` bits of the image of meta mask `m` under symmetry `k`.
pub open spec fn meta_image(k: int, m: u16, n: nat) -> u16
    decreases n,
{
    if n == 0 {
        0
    } else {
        meta_image(k, m, (n - 1) as nat) | if meta_bit(m, sym9(k, n - 1) as u128) {
            1u16 << ((n - 1) as u16)
        } else {
            0u16
        }
    }
}

/// The image of position `s` under symmetry `k`.
pub open spec fn apply(k: int, s: State) -> State {
    State {
        player_placed: Mask81(mask_image(k, s.player_placed.0, 81)),
        opponent_placed: Mask81(mask_image(k, s.opponent_placed.0, 81)),
        next_valid: Mask81(mask_image(k, s.next_valid.0, 81)),
        available_fields: Mask81(mask_image(k, s.available_fields.0, 81)),
        meta_player_placed: meta_image(k, s.meta_player_placed, 9),
        meta_opponent_placed: meta_image(k, s.meta_opponent_placed, 9),
    }
}

/// The tag of cell `i`: 4 if the mover holds it, 2 if the opponent does, plus
/// 1 if it is legal.
pub open spec fn tag(s: State, i: int) -> u8 {
    ((if bit(s.player_placed.0, i) {
        4int
    } else {
        0int
    }) + (if bit(s.opponent_placed.0, i) {
        2int
    } else {
        0int
    }) + (if bit(s.next_valid.0, i) {
        1int
    } else {
        0int
    })) as u8
}

/// The cell tags of the image of `s` under symmetry `k`.
pub open spec fn image_descriptor(s: State, k: int) -> Seq<u8> {
    Seq::new(81, |j: int| tag(s, sym81(k, j)))
}

/// Whether `a` comes strictly before `b` in lexicographic order, looking
/// from index `i` on.
pub open spec fn lex_less_from(a: Seq<u8>, b: Seq<u8>, i: int) -> bool
    decreases a.len() - i,
{
    if i < 0 || i >= a.len() || i >= b.len() {
        false
    } else if a[i] < b[i] {
        true
    } else if a[i] > b[i] {
        false
    } else {
        lex_less_from(a, b, i + 1)
    }
}

/// Among symmetries `0..n`, the first whose image descriptor is smallest.
pub open spec fn best_symmetry(s: State, n: int) -> int
    decreases n,
{
    if n <= 1 {
        0
    } else {
        let b = best_symmetry(s, n - 1);
        if lex_less_from(image_descriptor(s, n - 1), image_descriptor(s, b), 0) {
            n - 1
        } else {
            b
        }
    }
}

/// The canonical representative of `s` among its eight symmetric images.
pub open spec fn canonical(s: State) -> State {
    apply(best_symmetry(s, 8), s)
}

/// The cell of a 3x3 grid that symmetry `k` carries onto cell `i`.
pub fn sym_cell(k: u128, i: u128) -> (r: u128)
    requires
        k < 8,
        i < 9,
    ensures
        r == sym9(k as int, i as int),
        r < 9,
{
    let r = i / 3;
    let c = i % 3;
    if k == 0 {
        3 * r + c
    } else if k == 1 {
        3 * r + (2 - c)
    } else if k == 2 {
        3 * (2 - r) + c
    } else if k == 3 {
        3 * (2 - r) + (2 - c)
    } else if k == 4 {
        3 * c + r
    } else if k == 5 {
        3 * c + (2 - r)
    } else if k == 6 {
        3 * (2 - c) + r
    } else {
        3 * (2 - c) + (2 - r)
    }
}

/// The board cell that symmetry `k` carries onto cell `j`.
pub fn sym_board_cell(k: u128, j: u128) -> (r: u128)
    requires
        k < 8,
        j < 81,
    ensures
        r == sym81(k as int, j as int),
        r < 81,
{
    9 * sym_cell(k, j / 9) + sym_cell(k, j % 9)
}

/// The image of board mask `m` under symmetry `k`.
pub fn image_mask(k: u128, m: u128) -> (r: u128)
    requires
        k < 8,
    ensures
        r == mask_image(k as int, m, 81),
{
    let mut r: u128 = 0;
    let mut j: u128 = 0;
    while j < 81
        invariant
            k < 8,
            j <= 81,
            r == mask_image(k as int, m, j as nat),
        decreases 81 - j,
    {
        let src = sym_board_cell(k, j);
        let add: u128 = if (m >> src) & 1u128 == 1u128 {
            1u128 << j
        } else {
            0
        };
        r = r | add;
        j = j + 1;
    }
    r
}

/// The image of meta mask `m` under symmetry `k`.
pub fn image_meta(k: u128, m: u16) -> (r: u16)
    requires
        k < 8,
    ensures
        r == meta_image(k as int, m, 9),
{
    let mut r: u16 = 0;
    let mut f: u128 = 0;
    while f < 9
        invariant
            k < 8,
            f <= 9,
            r == meta_image(k as int, m, f as nat),
        decreases 9 - f,
    {
        let src = sym_cell(k, f);
        let add: u16 = if (m >> (src as u16)) & 1u16 == 1u16 {
            1u16 << (f as u16)
        } else {
            0
        };
        r = r | add;
        f = f + 1;
    }
    r
}

/// The image of position `s` under symmetry `k`.
pub fn apply_symmetry(k: u128, s: &State) -> (r: State)
    requires
        k < 8,
    ensures
        r == apply(k as int, *s),
{
    State {
        player_placed: Mask81(image_mask(k, s.player_placed.0)),
        opponent_placed: Mask81(image_mask(k, s.opponent_placed.0)),
        next_valid: Mask81(image_mask(k, s.next_valid.0)),
        available_fields: Mask81(image_mask(k, s.available_fields.0)),
        meta_player_placed: image_meta(k, s.meta_player_placed),
        meta_opponent_placed: image_meta(k, s.meta_opponent_placed),
    }
}

/// The cell tags of the image of `s` under symmetry `k`.
pub fn descriptor(s: &State, k: u128) -> (r: Vec<u8>)
    requires
        k < 8,
    ensures
        r@ == image_descriptor(*s, k as int),
{
    let mut out: Vec<u8> = Vec::new();
    let mut j: u128 = 0;
    while j < 81
        invariant
            k < 8,
            j <= 81,
            out@.len() == j,
            forall|i: int| 0 <= i < j ==> out@[i] == tag(*s, sym81(k as int, i)),
        decreases 81 - j,
    {
        let src = sym_board_cell(k, j);
        let mut t: u8 = 0;
        if (s.player_placed.0 >> src) & 1u128 == 1u128 {
            t = t + 4;
        }
        if (s.opponent_placed.0 >> src) & 1u128 == 1u128 {
            t = t + 2;
        }
        if (s.next_valid.0 >> src) & 1u128 == 1u128 {
            t = t + 1;
        }
        out.push(t);
        j = j + 1;
    }
    assert(out@ =~= image_descriptor(*s, k as int));
    out
}

/// Whether `a` comes strictly before `b` in lexicographic order.
pub fn lex_less(a: &Vec<u8>, b: &Vec<u8>) -> (r: bool)
    ensures
        r == lex_less_from(a@, b@, 0),
{
    let mut i: usize = 0;
    while i < a.len() && i < b.len()
        invariant
            lex_less_from(a@, b@, 0) == lex_less_from(a@, b@, i as int),
        decreases a.len() - i,
    {
        if a[i] < b[i] {
            return true;
        }
        if a[i] > b[i] {
            return false;
        }
        i = i + 1;
    }
    false
}

/// The canonical representative of `s`: its image under the first of the
/// eight symmetries whose cell tags are lexicographically smallest.
pub fn canonicalize(s: &State) -> (r: State)
    ensures
        r == canonical(*s),
{
    let mut best_k: u128 = 0;
    let mut best = descriptor(s, 0);
    let mut k: u128 = 1;
    while k < 8
        invariant
            1 <= k <= 8,
            best_k < 8,
            best_k == best_symmetry(*s, k as int),
            best@ == image_descriptor(*s, best_k as int),
        decreases 8 - k,
    {
        let d = descriptor(s, k);
        if lex_less(&d, &best) {
            best = d;
            best_k = k;
        }
        k = k + 1;
    }
    apply_symmetry(best_k, s)
}

/// Images of masks stay on the board, and images of meta masks keep nine bits.
pub proof fn lemma_image_shaped(k: int, m: u128, q: u16, n: nat)
    ensures
        n <= 81 ==> mask_image(k, m, n) & !ALL_BITS == 0,
        n <= 9 ==> meta_image(k, q, n) < 512,
    decreases n,
{
    assert(0u128 & !0x1_ffff_ffff_ffff_ffff_ffffu128 == 0) by (bit_vector);
    if n > 0 {
        lemma_image_shaped(k, m, q, (n - 1) as nat);
        let x = mask_image(k, m, (n - 1) as nat);
        if n <= 81 {
            let j = (n - 1) as u128;
            assert((x | (1u128 << j)) & !0x1_ffff_ffff_ffff_ffff_ffffu128 == 0 && (x | 0u128)
                & !0x1_ffff_ffff_ffff_ffff_ffffu128 == 0) by (bit_vector)
                requires
                    x & !0x1_ffff_ffff_ffff_ffff_ffffu128 == 0,
                    j < 81,
            ;
        }
        let y = meta_image(k, q, (n - 1) as nat);
        if n <= 9 {
            let g = (n - 1) as u16;
            assert((y | (1u16 << g)) < 512 && (y | 0u16) < 512) by (bit_vector)
                requires
                    y < 512,
                    g < 9,
            ;
        }
    }
}

/// Every symmetric image of a shaped position is shaped.
pub proof fn lemma_apply_shaped(k: int, s: State)
    ensures
        shaped(apply(k, s)),
{
    lemma_image_shaped(k, s.available_fields.0, s.meta_player_placed, 81);
    lemma_image_shaped(k, s.available_fields.0, s.meta_player_placed, 9);
    lemma_image_shaped(k, s.available_fields.0, s.meta_opponent_placed, 9);
}

} // verus!

verus! {

/// The symmetry that acts as `b` after `k`: the image under `b` of the image
/// under `k` is the image under `compose(b, k)`.
pub open spec fn compose(b: int, k: int) -> int {
    if b == 0 {
        if k == 0 {
                0
            } else if k == 1 {
                1
            } else if k == 2 {
                2
            } else if k == 3 {
                3
            } else if k == 4 {
                4
            } else if k == 5 {
                5
            } else if k == 6 {
                6
            } else {
                7
            }
    } else if b == 1 {
        if k == 0 {
                1
            } else if k == 1 {
                0
            } else if k == 2 {
                3
            } else if k == 3 {
                2
            } else if k == 4 {
                5
            } else if k == 5 {
                4
            } else if k == 6 {
                7
            } else {
                6
            }
    } else if b == 2 {
        if k == 0 {
                2
            } else if k == 1 {
                3
            } else if k == 2 {
                0
            } else if k == 3 {
                1
            } else if k == 4 {
                6
            } else if k == 5 {
                7
            } else if k == 6 {
                4
            } else {
                5
            }
    } else if b == 3 {
        if k == 0 {
                3
            } else if k == 1 {
                2
            } else if k == 2 {
                1
            } else if k == 3 {
                0
            } else if k == 4 {
                7
            } else if k == 5 {
                6
            } else if k == 6 {
                5
            } else {
                4
            }
    } else if b == 4 {
        if k == 0 {
                4
            } else if k == 1 {
                6
            } else if k == 2 {
                5
            } else if k == 3 {
                7
            } else if k == 4 {
                0
            } else if k == 5 {
                2
            } else if k == 6 {
                1
            } else {
                3
            }
    } else if b == 5 {
        if k == 0 {
                5
            } else if k == 1 {
                7
            } else if k == 2 {
                4
            } else if k == 3 {
                6
            } else if k == 4 {
                1
            } else if k == 5 {
                3
            } else if k == 6 {
                0
            } else {
                2
            }
    } else if b == 6 {
        if k == 0 {
                6
            } else if k == 1 {
                4
            } else if k == 2 {
                7
            } else if k == 3 {
                5
            } else if k == 4 {
                2
            } else if k == 5 {
                0
            } else if k == 6 {
                3
            } else {
                1
            }
    } else {
        if k == 0 {
                7
            } else if k == 1 {
                5
            } else if k == 2 {
                6
            } else if k == 3 {
                4
            } else if k == 4 {
                3
            } else if k == 5 {
                1
            } else if k == 6 {
                2
            } else {
                0
            }
    }
}

/// The eight symmetries are closed under composition.
pub proof fn lemma_compose(b: int, k: int, i: int)
    requires
        0 <= b < 8,
        0 <= k < 8,
        0 <= i < 9,
    ensures
        0 <= sym9(k, i) < 9,
        0 <= compose(b, k) < 8,
        sym9(b, sym9(k, i)) == sym9(compose(b, k), i),
{
    let r = i / 3;
    let c = i % 3;
    let rr = row_of(k, r, c);
    let cc = col_of(k, r, c);
    assert((3 * rr + cc) / 3 == rr && (3 * rr + cc) % 3 == cc);
    lemma_compose_grid(b, k, r, c);
}

/// Composition on rows and columns.
proof fn lemma_compose_grid(b: int, k: int, r: int, c: int)
    requires
        0 <= b < 8,
        0 <= k < 8,
        0 <= r < 3,
        0 <= c < 3,
    ensures
        0 <= row_of(k, r, c) < 3,
        0 <= col_of(k, r, c) < 3,
        0 <= compose(b, k) < 8,
        row_of(b, row_of(k, r, c), col_of(k, r, c)) == row_of(compose(b, k), r, c),
        col_of(b, row_of(k, r, c), col_of(k, r, c)) == col_of(compose(b, k), r, c),
{
}

/// Board-level composition of symmetries.
pub proof fn lemma_compose_board(b: int, k: int, j: int)
    requires
        0 <= b < 8,
        0 <= k < 8,
        0 <= j < 81,
    ensures
        0 <= sym81(k, j) < 81,
        sym81(b, sym81(k, j)) == sym81(compose(b, k), j),
{
    let f = j / 9;
    let i = j % 9;
    lemma_compose(b, k, f);
    lemma_compose(b, k, i);
    let x = sym9(k, f);
    let y = sym9(k, i);
    assert((9 * x + y) / 9 == x && (9 * x + y) % 9 == y);
}

/// Setting bit `t` of `x` sets that bit and no other.
proof fn lemma_bit_or(x: u128, t: u128, j: u128)
    requires
        t < 128,
        j < 128,
    ensures
        bit(x | (1u128 << t), j as int) == (bit(x, j as int) || j == t),
        bit(x | 0u128, j as int) == bit(x, j as int),
        !bit(0u128, j as int),
{
    assert((((x | (1u128 << t)) >> j) & 1u128 == 1u128 <==> ((x >> j) & 1u128 == 1u128 || j
        == t)) && ((x | 0u128) >> j) & 1u128 == (x >> j) & 1u128 && (0u128 >> j) & 1u128 == 0u128)
        by (bit_vector)
        requires
            t < 128,
            j < 128,
    ;
}

/// Bit `j` of the image of `m` under `k` is bit `sym81(k, j)` of `m`.
pub proof fn lemma_mask_image_bit(k: int, m: u128, n: nat, j: int)
    requires
        n <= 81,
        0 <= j < 128,
    ensures
        bit(mask_image(k, m, n), j) == (j < n && bit(m, sym81(k, j))),
    decreases n,
{
    if n == 0 {
        lemma_bit_or(0, 0, j as u128);
    } else {
        lemma_mask_image_bit(k, m, (n - 1) as nat, j);
        lemma_bit_or(mask_image(k, m, (n - 1) as nat), (n - 1) as u128, j as u128);
    }
}

/// The tags of an image of an image are the tags of the composed image.
pub proof fn lemma_descriptor_compose(b: int, k: int, s: State)
    requires
        0 <= b < 8,
        0 <= k < 8,
    ensures
        image_descriptor(apply(b, s), k) == image_descriptor(s, compose(b, k)),
{
    let c = apply(b, s);
    assert forall|j: int| 0 <= j < 81 implies tag(c, sym81(k, j)) == tag(
        s,
        sym81(compose(b, k), j),
    ) by {
        lemma_compose_board(b, k, j);
        let x = sym81(k, j);
        lemma_mask_image_bit(b, s.player_placed.0, 81, x);
        lemma_mask_image_bit(b, s.opponent_placed.0, 81, x);
        lemma_mask_image_bit(b, s.next_valid.0, 81, x);
    }
    assert(image_descriptor(c, k) =~= image_descriptor(s, compose(b, k)));
}

/// No sequence comes before itself.
proof fn lemma_lex_irreflexive(a: Seq<u8>, i: int)
    ensures
        !lex_less_from(a, a, i),
    decreases a.len() - i,
{
    if 0 <= i < a.len() {
        lemma_lex_irreflexive(a, i + 1);
    }
}

/// The lexicographic order is transitive.
proof fn lemma_lex_transitive(a: Seq<u8>, b: Seq<u8>, c: Seq<u8>, i: int)
    requires
        lex_less_from(a, b, i),
        lex_less_from(b, c, i),
    ensures
        lex_less_from(a, c, i),
    decreases a.len() - i,
{
    if a[i] == b[i] && b[i] == c[i] {
        lemma_lex_transitive(a, b, c, i + 1);
    }
}

/// The chosen symmetry's tags come before none of the others'.
proof fn lemma_best_minimal(s: State, n: int)
    requires
        1 <= n <= 8,
    ensures
        0 <= best_symmetry(s, n) < n,
        forall|k: int|
            0 <= k < n ==> !lex_less_from(
                #[trigger] image_descriptor(s, k),
                image_descriptor(s, best_symmetry(s, n)),
                0,
            ),
    decreases n,
{
    if n == 1 {
        lemma_lex_irreflexive(image_descriptor(s, 0), 0);
    } else {
        lemma_best_minimal(s, n - 1);
        let b = best_symmetry(s, n - 1);
        let d = image_descriptor(s, n - 1);
        if lex_less_from(d, image_descriptor(s, b), 0) {
            assert forall|k: int| 0 <= k < n implies !lex_less_from(
                #[trigger] image_descriptor(s, k),
                d,
                0,
            ) by {
                if k == n - 1 {
                    lemma_lex_irreflexive(d, 0);
                } else if lex_less_from(image_descriptor(s, k), d, 0) {
                    lemma_lex_transitive(image_descriptor(s, k), d, image_descriptor(s, b), 0);
                }
            }
        }
    }
}

/// Where no symmetry's tags come before those of the identity, the identity
/// is chosen.
proof fn lemma_best_identity(s: State, n: int)
    requires
        1 <= n <= 8,
        forall|k: int|
            0 <= k < n ==> !lex_less_from(#[trigger] image_descriptor(s, k), image_descriptor(s, 0), 0),
    ensures
        best_symmetry(s, n) == 0,
    decreases n,
{
    if n > 1 {
        lemma_best_identity(s, n - 1);
        assert(!lex_less_from(image_descriptor(s, n - 1), image_descriptor(s, 0), 0));
    }
}

/// The identity maps a mask on the board to itself.
proof fn lemma_identity_mask(m: u128, n: nat)
    requires
        n <= 81,
    ensures
        mask_image(0, m, n) == m & ((1u128 << (n as u128)) - 1) as u128,
    decreases n,
{
    if n == 0 {
        assert(0u128 == m & ((1u128 << 0u128) - 1) as u128) by (bit_vector);
    } else {
        lemma_identity_mask(m, (n - 1) as nat);
        let t = (n - 1) as u128;
        let j = t as int;
        assert(sym81(0, j) == j) by {
            assert(3 * ((j / 9) / 3) + (j / 9) % 3 == j / 9);
            assert(3 * ((j % 9) / 3) + (j % 9) % 3 == j % 9);
        }
        let lo = m & ((1u128 << t) - 1) as u128;
        let hi = m & ((1u128 << ((t + 1) as u128)) - 1) as u128;
        assert((lo | (1u128 << t) == hi || (m >> t) & 1u128 != 1u128) && (lo | 0u128 == hi || (m
            >> t) & 1u128 == 1u128)) by (bit_vector)
            requires
                lo == m & ((1u128 << t) - 1) as u128,
                hi == m & ((1u128 << ((t + 1) as u128)) - 1) as u128,
                t < 81,
        ;
        assert((t + 1) as u128 == n as u128);
    }
}

/// The identity maps a meta mask to itself.
proof fn lemma_identity_meta(q: u16, n: nat)
    requires
        n <= 9,
    ensures
        meta_image(0, q, n) == q & ((1u16 << (n as u16)) - 1) as u16,
    decreases n,
{
    if n == 0 {
        assert(0u16 == q & ((1u16 << 0u16) - 1) as u16) by (bit_vector);
    } else {
        lemma_identity_meta(q, (n - 1) as nat);
        let t = (n - 1) as u16;
        let j = t as int;
        assert(sym9(0, j) == j);
        let lo = q & ((1u16 << t) - 1) as u16;
        let hi = q & ((1u16 << ((t + 1) as u16)) - 1) as u16;
        assert((lo | (1u16 << t) == hi || (q >> t) & 1u16 != 1u16) && (lo | 0u16 == hi || (q >> t)
            & 1u16 == 1u16)) by (bit_vector)
            requires
                lo == q & ((1u16 << t) - 1) as u16,
                hi == q & ((1u16 << ((t + 1) as u16)) - 1) as u16,
                t < 9,
        ;
        assert((t + 1) as u16 == n as u16);
    }
}

/// The identity maps an image of any position to itself.
proof fn lemma_identity_apply(k: int, s: State)
    ensures
        apply(0, apply(k, s)) == apply(k, s),
{
    let c = apply(k, s);
    let all = ALL_BITS;
    assert(((1u128 << 81u128) - 1) as u128 == all && ((1u16 << 9u16) - 1) as u16 == 0x1ffu16)
        by (bit_vector)
        requires
            all == 0x1_ffff_ffff_ffff_ffff_ffffu128,
    ;
    assert forall|m: u128| m & !all == 0 implies #[trigger] mask_image(0, m, 81) == m by {
        lemma_identity_mask(m, 81);
        assert(m & all == m) by (bit_vector)
            requires
                m & !all == 0,
        ;
    }
    assert forall|q: u16| q < 512 implies #[trigger] meta_image(0, q, 9) == q by {
        lemma_identity_meta(q, 9);
        assert(q & 0x1ffu16 == q) by (bit_vector)
            requires
                q < 512,
        ;
    }
    lemma_image_shaped(k, s.player_placed.0, s.meta_player_placed, 81);
    lemma_image_shaped(k, s.opponent_placed.0, s.meta_opponent_placed, 81);
    lemma_image_shaped(k, s.next_valid.0, s.meta_player_placed, 81);
    lemma_image_shaped(k, s.available_fields.0, s.meta_player_placed, 81);
    lemma_image_shaped(k, s.available_fields.0, s.meta_player_placed, 9);
    lemma_image_shaped(k, s.available_fields.0, s.meta_opponent_placed, 9);
    assert(mask_image(0, c.player_placed.0, 81) == c.player_placed.0);
    assert(mask_image(0, c.opponent_placed.0, 81) == c.opponent_placed.0);
    assert(mask_image(0, c.next_valid.0, 81) == c.next_valid.0);
    assert(mask_image(0, c.available_fields.0, 81) == c.available_fields.0);
    assert(meta_image(0, c.meta_player_placed, 9) == c.meta_player_placed);
    assert(meta_image(0, c.meta_opponent_placed, 9) == c.meta_opponent_placed);
    assert(mask_image(0, c.player_placed.0, 81) == c.player_placed.0);
    assert(mask_image(0, c.opponent_placed.0, 81) == c.opponent_placed.0);
    assert(mask_image(0, c.next_valid.0, 81) == c.next_valid.0);
    assert(mask_image(0, c.available_fields.0, 81) == c.available_fields.0);
    assert(meta_image(0, c.meta_player_placed, 9) == c.meta_player_placed);
    assert(meta_image(0, c.meta_opponent_placed, 9) == c.meta_opponent_placed);
}

/// Canonicalizing a canonical position returns it unchanged.
pub proof fn lemma_canonical_idempotent(s: State)
    ensures
        canonical(canonical(s)) == canonical(s),
{
    let b = best_symmetry(s, 8);
    let c = canonical(s);
    lemma_best_minimal(s, 8);
    assert forall|k: int| 0 <= k < 8 implies !lex_less_from(
        #[trigger] image_descriptor(c, k),
        image_descriptor(c, 0),
        0,
    ) by {
        lemma_descriptor_compose(b, k, s);
        lemma_descriptor_compose(b, 0, s);
        lemma_compose(b, k, 0);
        assert(compose(b, 0) == b);
        assert(!lex_less_from(image_descriptor(s, compose(b, k)), image_descriptor(s, b), 0));
    }
    lemma_best_identity(c, 8);
    lemma_identity_apply(b, s);
}

/// The symmetry that undoes `g`: the two quarter turns undo each other, and
/// every other symmetry undoes itself.
pub open spec fn inverse(g: int) -> int {
    if g == 5 {
        6
    } else if g == 6 {
        5
    } else {
        g
    }
}

/// Composing `g` with its inverse before `t` gives `t`.
proof fn lemma_compose_inverse(g: int, t: int)
    requires
        0 <= g < 8,
        0 <= t < 8,
    ensures
        0 <= compose(inverse(g), t) < 8,
        compose(g, compose(inverse(g), t)) == t,
{
}

/// Bit `f` of the image of meta mask `q` under `k` is bit `sym9(k, f)` of `q`.
proof fn lemma_meta_image_bit(k: int, q: u16, n: nat, f: int)
    requires
        n <= 9,
        0 <= f < 16,
    ensures
        meta_bit(meta_image(k, q, n), f as u128) == (f < n && meta_bit(q, sym9(k, f) as u128)),
    decreases n,
{
    let fu = f as u16;
    if n == 0 {
        assert((0u16 >> fu) & 1u16 == 0u16) by (bit_vector);
    } else {
        lemma_meta_image_bit(k, q, (n - 1) as nat, f);
        let x = meta_image(k, q, (n - 1) as nat);
        let t = (n - 1) as u16;
        assert((((x | (1u16 << t)) >> fu) & 1u16 == 1u16 <==> ((x >> fu) & 1u16 == 1u16 || fu
            == t)) && ((x | 0u16) >> fu) & 1u16 == (x >> fu) & 1u16) by (bit_vector)
            requires
                t < 16,
                fu < 16,
        ;
    }
}

proof fn lemma_mask_image_compose(b: int, k: int, m: u128, n: nat)
    requires
        0 <= b < 8,
        0 <= k < 8,
        n <= 81,
    ensures
        mask_image(k, mask_image(b, m, 81), n) == mask_image(compose(b, k), m, n),
    decreases n,
{
    if n > 0 {
        lemma_mask_image_compose(b, k, m, (n - 1) as nat);
        lemma_compose_board(b, k, n - 1);
        lemma_mask_image_bit(b, m, 81, sym81(k, n - 1));
    }
}

proof fn lemma_meta_image_compose(b: int, k: int, q: u16, n: nat)
    requires
        0 <= b < 8,
        0 <= k < 8,
        n <= 9,
    ensures
        meta_image(k, meta_image(b, q, 9), n) == meta_image(compose(b, k), q, n),
    decreases n,
{
    if n > 0 {
        lemma_meta_image_compose(b, k, q, (n - 1) as nat);
        lemma_compose(b, k, n - 1);
        lemma_meta_image_bit(b, q, 9, sym9(k, n - 1));
    }
}

/// The image under `k` of the image under `b` is the image under
/// `compose(b, k)`.
pub proof fn lemma_apply_compose(b: int, k: int, s: State)
    requires
        0 <= b < 8,
        0 <= k < 8,
    ensures
        apply(k, apply(b, s)) == apply(compose(b, k), s),
{
    lemma_mask_image_compose(b, k, s.player_placed.0, 81);
    lemma_mask_image_compose(b, k, s.opponent_placed.0, 81);
    lemma_mask_image_compose(b, k, s.next_valid.0, 81);
    lemma_mask_image_compose(b, k, s.available_fields.0, 81);
    lemma_meta_image_compose(b, k, s.meta_player_placed, 9);
    lemma_meta_image_compose(b, k, s.meta_opponent_placed, 9);
}

/// Two sequences of one length, neither before the other, agree from `i` on.
proof fn lemma_lex_total(a: Seq<u8>, b: Seq<u8>, i: int)
    requires
        a.len() == b.len(),
        0 <= i,
        !lex_less_from(a, b, i),
        !lex_less_from(b, a, i),
    ensures
        forall|j: int| i <= j < a.len() ==> a[j] == b[j],
    decreases a.len() - i,
{
    if i < a.len() {
        lemma_lex_total(a, b, i + 1);
    }
}

/// Whether images of `s` with the same cell tags are the same position.
pub open spec fn tags_decide_images(s: State) -> bool {
    forall|k1: int, k2: int|
        0 <= k1 < 8 && 0 <= k2 < 8 && #[trigger] image_descriptor(s, k1) == #[trigger] image_descriptor(s, k2)
            ==> apply(k1, s) == apply(k2, s)
}

/// Every symmetric image of a position has the position's canonical form,
/// where images with the same cell tags are the same position.
pub proof fn lemma_canonical_invariant(g: int, s: State)
    requires
        0 <= g < 8,
        tags_decide_images(s),
    ensures
        canonical(apply(g, s)) == canonical(s),
{
    let q = apply(g, s);
    let b = best_symmetry(s, 8);
    let bq = best_symmetry(q, 8);
    lemma_best_minimal(s, 8);
    lemma_best_minimal(q, 8);
    let h = compose(g, bq);
    lemma_compose(g, bq, 0);
    lemma_descriptor_compose(g, bq, s);
    // The tags of p's image under h come before none of p's images.
    assert forall|t: int| 0 <= t < 8 implies !lex_less_from(
        #[trigger] image_descriptor(s, t),
        image_descriptor(s, h),
        0,
    ) by {
        lemma_compose_inverse(g, t);
        let k = compose(inverse(g), t);
        lemma_descriptor_compose(g, k, s);
        assert(!lex_less_from(image_descriptor(q, k), image_descriptor(q, bq), 0));
    }
    lemma_lex_total(image_descriptor(s, h), image_descriptor(s, b), 0);
    assert(image_descriptor(s, h) =~= image_descriptor(s, b));
    assert(apply(h, s) == apply(b, s));
    lemma_apply_compose(g, bq, s);
}

} // verus!
