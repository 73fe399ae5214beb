//! Tile values and their compact ranks: a tile of value `2^r` has rank `r`,
//! and an empty cell has rank `0`.
use vstd::prelude::*;

verus! {

pub const SIZE: usize = 4;

pub const CELL_COUNT: usize = SIZE * SIZE;

pub type TileRank = u8;

pub type Row = [TileRank; SIZE];

pub type Matrix = [Row; SIZE];

/// `2` to the power `n`.
pub open spec fn two_pow(n: nat) -> nat
    decreases n,
{
    if n == 0 {
        1
    } else {
        2 * two_pow((n - 1) as nat)
    }
}

pub proof fn lemma_two_pow_grows(a: nat, b: nat)
    requires
        a < b,
    ensures
        two_pow(a) < two_pow(b),
    decreases b,
{
    if a + 1 < b {
        lemma_two_pow_grows(a, (b - 1) as nat);
    }
    lemma_two_pow_pos(a);
}

pub proof fn lemma_two_pow_pos(a: nat)
    ensures
        two_pow(a) >= 1,
    decreases a,
{
    if a > 0 {
        lemma_two_pow_pos((a - 1) as nat);
    }
}

pub proof fn lemma_two_pow_32()
    ensures
        two_pow(31) == 0x8000_0000,
        two_pow(32) == 0x1_0000_0000,
{
    reveal_with_fuel(two_pow, 33);
}

/// Floor of the base-2 logarithm; `0` for arguments below `2`.
pub open spec fn log2(x: int) -> int
    decreases x,
{
    if x < 2 {
        0
    } else {
        1 + log2(x / 2)
    }
}

/// `r` is the floor of the base-2 logarithm of `x`.
pub open spec fn is_floor_log2(x: int, r: int) -> bool {
    &&& 0 <= r
    &&& two_pow(r as nat) <= x < 2 * two_pow(r as nat)
}

/// Floor of the base-2 logarithm of a positive `u32`.
pub fn floor_log2(x: u32) -> (r: u32)
    requires
        x > 0,
    ensures
        r < 32,
        is_floor_log2(x as int, r as int),
        r == log2(x as int),
{
    let mut r: u32 = 0;
    let mut rest: u32 = x;
    assert(two_pow(0) == 1);
    assert(rest * two_pow(0) == x);
    assert((rest + 1) * two_pow(0) == x + 1);
    while rest > 1
        invariant
            rest >= 1,
            r < 32,
            rest * two_pow(r as nat) <= x < (rest + 1) * two_pow(r as nat),
            two_pow(r as nat) <= x,
            r + log2(rest as int) == log2(x as int),
        decreases rest,
    {
        proof {
            lemma_two_pow_pos(r as nat);
            let p = two_pow(r as nat);
            assert(two_pow((r + 1) as nat) == 2 * p);
            assert((rest / 2) * (2 * p) <= rest * p) by (nonlinear_arith)
                requires
                    p >= 1,
                    rest >= 0,
            ;
            assert((rest + 1) * p <= (rest / 2 + 1) * (2 * p)) by (nonlinear_arith)
                requires
                    p >= 1,
                    rest >= 0,
            ;
            assert(2 * p <= rest * p) by (nonlinear_arith)
                requires
                    p >= 1,
                    rest >= 2,
            ;
            if r + 1 >= 32 {
                lemma_two_pow_32();
                if r + 1 > 32 {
                    lemma_two_pow_grows(32, (r + 1) as nat);
                }
            }
        }
        rest = rest / 2;
        r = r + 1;
    }
    proof {
        let p = two_pow(r as nat);
        assert(rest == 1);
    }
    r
}

/// Ranks and values correspond one to one: the value of rank `r` has rank `r`,
/// so `rank_from_value(value_from_rank(r)) == r` for every rank `r` from `1` to `31`.
pub proof fn law_rank_of_value(r: nat)
    requires
        r < 32,
    ensures
        log2(two_pow(r) as int) == r,
    decreases r,
{
    if r > 0 {
        law_rank_of_value((r - 1) as nat);
        lemma_two_pow_pos((r - 1) as nat);
        assert(two_pow(r) as int / 2 == two_pow((r - 1) as nat));
    }
}

/// Rank of a tile value: `0` for an empty cell, `r` for the value `2^r`.
pub fn rank_from_value(value: u32) -> (rank: TileRank)
    requires
        value == 0 || exists|r: nat| r < 32 && two_pow(r) == value,
    ensures
        value == 0 ==> rank == 0,
        value != 0 ==> rank < 32 && two_pow(rank as nat) == value && rank == log2(value as int),
{
    if value == 0 {
        return 0;
    }
    let r = floor_log2(value);
    proof {
        let k = choose|k: nat| k < 32 && two_pow(k) == value;
        if k < r {
            lemma_two_pow_grows(k, r as nat);
        } else if k > r {
            lemma_two_pow_grows(r as nat, k);
            assert(two_pow(k) >= two_pow((r + 1) as nat)) by {
                if k > r + 1 {
                    lemma_two_pow_grows((r + 1) as nat, k);
                }
            }
        }
    }
    r as TileRank
}

/// Value of the tile of a given rank; ranks past the width of `u32` give `u32::MAX`.
pub fn value_from_rank(rank: TileRank) -> (value: u32)
    ensures
        rank < 32 ==> value == two_pow(rank as nat),
        rank >= 32 ==> value == u32::MAX,
{
    if rank < 32 {
        let mut v: u32 = 1;
        let mut i: u8 = 0;
        while i < rank
            invariant
                i <= rank < 32,
                v == two_pow(i as nat),
            decreases rank - i,
        {
            proof {
                lemma_two_pow_32();
                if i + 1 < 32 {
                    lemma_two_pow_grows((i + 1) as nat, 32);
                }
            }
            v = v * 2;
            i = i + 1;
        }
        v
    } else {
        u32::MAX
    }
}

} // verus!
