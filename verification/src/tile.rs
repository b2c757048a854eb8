//! Tile values: a cell is empty (`0`) or holds a power of two, 2 at least.
use vstd::arithmetic::power2::{lemma_pow2_strictly_increases, lemma_pow2_unfold, pow2};
use vstd::prelude::*;

verus! {

/// `v` is a power of two, 2 at least.
pub open spec fn is_tile(v: nat) -> bool {
    exists|e: nat| e >= 1 && v == #[trigger] pow2(e)
}

/// `v` may stand in a cell: it is empty or a tile.
pub open spec fn valid_cell(v: nat) -> bool {
    v == 0 || is_tile(v)
}

/// A tile is 2 at least.
pub proof fn lemma_tile_at_least_two(v: nat)
    requires
        is_tile(v),
    ensures
        v >= 2,
{
    let e = choose|e: nat| e >= 1 && v == #[trigger] pow2(e);
    vstd::arithmetic::power2::lemma2_to64();
    if e > 1 {
        lemma_pow2_strictly_increases(1, e);
    }
}

/// The double of a tile is a tile.
pub proof fn lemma_double_tile(v: nat)
    requires
        is_tile(v),
    ensures
        is_tile(2 * v),
{
    let e = choose|e: nat| e >= 1 && v == #[trigger] pow2(e);
    lemma_pow2_unfold(e + 1);
    assert(2 * v == pow2(e + 1));
}

/// The values 2 and 4 are tiles.
pub proof fn lemma_two_and_four_are_tiles()
    ensures
        is_tile(2),
        is_tile(4),
{
    vstd::arithmetic::power2::lemma2_to64();
    assert(2 == pow2(1));
    assert(4 == pow2(2));
}

/// Tells whether `v` may stand in a cell.
pub fn is_valid_cell(v: u32) -> (ok: bool)
    ensures
        ok == valid_cell(v as nat),
{
    if v == 0 {
        return true;
    }
    let mut p: u32 = 2;
    let ghost mut e: nat = 1;
    proof {
        vstd::arithmetic::power2::lemma2_to64();
    }
    while p < v && p <= u32::MAX / 2
        invariant
            e >= 1,
            p >= 2,
            p == pow2(e),
            forall|k: nat| 1 <= k < e ==> #[trigger] pow2(k) < v,
        decreases u32::MAX - p,
    {
        proof {
            lemma_pow2_unfold(e + 1);
            e = e + 1;
        }
        p = p * 2;
    }
    proof {
        if p != v {
            assert forall|k: nat| k >= 1 implies v != #[trigger] pow2(k) by {
                if k > e {
                    lemma_pow2_strictly_increases(e, k);
                    lemma_pow2_unfold(e + 1);
                    if k > e + 1 {
                        lemma_pow2_strictly_increases(e + 1, k);
                    }
                }
            }
        }
    }
    p == v
}

} // verus!
