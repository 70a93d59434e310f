//! Coordinate arithmetic shared by every other part of the terrain.
//!
//! World positions are integers on an unbounded plane; each square chunk
//! covers `size` world units per axis. Splitting a world coordinate into a
//! chunk coordinate and a local offset uses flooring (Euclidean) division,
//! so negative coordinates behave the same as positive ones.

use vstd::arithmetic::div_mod::{
    lemma_div_basics_4, lemma_div_nonincreasing, lemma_fundamental_div_mod,
    lemma_fundamental_div_mod_converse_div, lemma_mod_division_less_than_divisor,
};
use vstd::prelude::*;

verus! {

/// Bound on the world coordinates the arithmetic here accepts; wide enough
/// for every chunk coordinate times the largest chunk side.
pub const WORLD_COORD_BOUND: i64 = 0x7FFF_FFFF_FFFF;

/// Chunk coordinate holding world coordinate `w`, for chunks of side `size`.
pub open spec fn chunk_coord(w: int, size: int) -> int {
    w / size
}

/// Offset of world coordinate `w` inside its chunk, always in `[0, size)`.
pub open spec fn local_coord(w: int, size: int) -> int {
    w % size
}

/// Flooring division: rounds the quotient toward negative infinity.
pub fn floor_div(a: i64, b: i64) -> (q: i64)
    requires
        1 <= b,
    ensures
        q == a as int / b as int,
{
    if a >= 0 {
        let qu: u64 = (a as u64) / (b as u64);
        proof {
            lemma_div_nonincreasing(a as int, b as int);
            lemma_div_basics_4(a as int, b as int);
        }
        qu as i64
    } else {
        let n: i64 = -(a + 1);
        let nq: u64 = (n as u64) / (b as u64);
        proof {
            let ai = a as int;
            let bi = b as int;
            let ni = n as int;
            let nqi = nq as int;
            lemma_div_nonincreasing(ni, bi);
            lemma_div_basics_4(ni, bi);
            lemma_fundamental_div_mod(ni, bi);
            lemma_mod_division_less_than_divisor(ni, bi);
            let r = ni % bi;
            assert(bi * nqi == nqi * bi) by (nonlinear_arith);
            assert((0 - nqi - 1) * bi == 0 - (nqi * bi) - bi) by (nonlinear_arith);
            lemma_fundamental_div_mod_converse_div(ai, bi, 0 - nqi - 1, bi - r - 1);
        }
        -(nq as i64) - 1
    }
}

/// Flooring remainder: `a - floor_div(a, b) * b`, always in `[0, b)`.
pub fn floor_rem(a: i64, b: i64) -> (r: i64)
    requires
        1 <= b,
        -WORLD_COORD_BOUND <= a <= WORLD_COORD_BOUND,
        b <= 0x10000,
    ensures
        r == a as int % b as int,
        0 <= r < b,
{
    let q = floor_div(a, b);
    proof {
        lemma_fundamental_div_mod(a as int, b as int);
        lemma_mod_division_less_than_divisor(a as int, b as int);
        assert((a as int / b as int) * b as int == b as int * (a as int / b as int))
            by (nonlinear_arith);
    }
    a - q * b
}

/// Recombines a chunk coordinate and a local offset into a world coordinate.
pub fn local_to_world(c: i64, l: i64, size: i64) -> (w: i64)
    requires
        1 <= size <= 0x10000,
        0 <= l < size,
        -0x4100_0000 <= c <= 0x4100_0000,
    ensures
        w == c * size + l,
{
    proof {
        assert(-0x4100_0000 * 0x10000 <= c * size <= 0x4100_0000 * 0x10000) by (nonlinear_arith)
            requires
                -0x4100_0000 <= c <= 0x4100_0000,
                1 <= size <= 0x10000,
        ;
    }
    c * size + l
}

/// Wraps a possibly negative coordinate into `[0, modulus)`, so sampling
/// repeats (tiles) in both directions.
pub fn mod_neg(num: i32, modulus: usize) -> (r: usize)
    requires
        1 <= modulus <= 0x10000,
    ensures
        r == num as int % modulus as int,
        r < modulus,
{
    let r = floor_rem(num as i64, modulus as i64);
    r as usize
}

/// Samples a square tile map at a wrapped coordinate, repeating the tile
/// across the whole plane.
pub fn sample_repeating<T: Copy>(x: i32, y: i32, values: &Vec<T>, size: usize) -> (r: T)
    requires
        1 <= size <= 0x10000,
        values@.len() == size * size,
    ensures
        r == values@[x as int % size as int + (y as int % size as int) * size as int],
{
    let xr = mod_neg(x, size);
    let yr = mod_neg(y, size);
    proof {
        assert(yr * size <= (size - 1) * size && xr + (size - 1) * size < size * size && 0 <= yr
            * size && size * size <= 0x10000 * 0x10000) by (nonlinear_arith)
            requires
                0 <= yr < size,
                0 <= xr < size,
                size <= 0x10000,
        ;
    }
    values[xr + yr * size]
}

/// A coordinate no farther out than `b` whole chunks stays within `b`
/// chunks after the split.
pub proof fn lemma_div_bound(w: int, size: int, b: int)
    requires
        size >= 1,
        b >= 0,
        -b * size <= w <= b * size,
    ensures
        -b <= w / size <= b,
{
    lemma_fundamental_div_mod(w, size);
    lemma_mod_division_less_than_divisor(w, size);
    let q = w / size;
    let r = w % size;
    assert(w == size * q + r ==> -b <= q <= b) by (nonlinear_arith)
        requires
            size >= 1,
            b >= 0,
            -b * size <= w <= b * size,
            0 <= r < size,
            w == size * q + r,
    ;
}

/// Splitting a world coordinate into chunk and local parts loses nothing:
/// the two recombine to exactly the original coordinate, for positive and
/// negative coordinates alike.
pub proof fn lemma_coord_round_trip(w: int, size: int)
    requires
        size > 0,
    ensures
        chunk_coord(w, size) * size + local_coord(w, size) == w,
        0 <= local_coord(w, size) < size,
{
    lemma_fundamental_div_mod(w, size);
    lemma_mod_division_less_than_divisor(w, size);
    assert(size * (w / size) == (w / size) * size) by (nonlinear_arith);
}

/// The chunk coordinate of a recombined pair is the chunk part again, and
/// the local part likewise: the split is the inverse of recombination.
pub proof fn lemma_coord_split_unique(c: int, l: int, size: int)
    requires
        size > 0,
        0 <= l < size,
    ensures
        chunk_coord(c * size + l, size) == c,
        local_coord(c * size + l, size) == l,
{
    lemma_fundamental_div_mod_converse_div(c * size + l, size, c, l);
    lemma_fundamental_div_mod(c * size + l, size);
    let w = c * size + l;
    assert(size * (w / size) == (w / size) * size) by (nonlinear_arith);
}

} // verus!
