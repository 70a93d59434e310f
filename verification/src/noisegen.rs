//! The deterministic noise source that fills chunks the first time they
//! are read.
//!
//! Every cell of a fresh chunk is an open-simplex sample at one tenth of
//! the cell's world coordinates, scaled by an amplitude of seven world
//! units, quantized to height units and clamped into the storable range.
//! The same world cell always yields the same height, whatever the order
//! of chunk accesses.

use crate::coords::local_to_world;
use crate::HEIGHT_LIMIT;
use vstd::prelude::*;

verus! {

/// Quantized noise sample at integer world coordinates, in height units,
/// before clamping. A fixed seed makes this a function of the coordinates
/// alone.
pub uninterp spec fn raw_noise(wx: int, wy: int) -> i64;

/// Height a never-written world cell holds: the noise sample, clamped to
/// the storable range.
pub open spec fn gen_height(wx: int, wy: int) -> i64 {
    clamped(raw_noise(wx, wy))
}

pub open spec fn clamped(h: i64) -> i64 {
    if h < -HEIGHT_LIMIT {
        (-HEIGHT_LIMIT) as i64
    } else if h > HEIGHT_LIMIT {
        HEIGHT_LIMIT
    } else {
        h
    }
}

/// Relies on `noise::core::open_simplex::open_simplex_2d` over
/// `noise::permutationtable::PermutationTable::new(1)`: the table is
/// documented to be generated deterministically from the seed, and the
/// sample is a pure function of the point and the table, so the result
/// depends on the world coordinates alone. The point is the world position
/// divided by ten; the sample is scaled by 7 * 65536 (amplitude times the
/// fixed-point height scale) and truncated to an integer.
#[verifier::external_body]
fn sample_noise(wx: i64, wy: i64) -> (h: i64)
    ensures
        h == raw_noise(wx as int, wy as int),
{
    let table = noise::permutationtable::PermutationTable::new(1);
    let point = noise::Vector2::new(wx, wy).numcast().unwrap() / (10 as _);
    let sample = noise::core::open_simplex::open_simplex_2d(point, &table);
    let scaled = noise::Vector2::new(458752 as _, sample) * noise::Vector2::broadcast(sample);
    scaled.x as i64
}

fn clamp_height(h: i64) -> (c: i64)
    ensures
        c == clamped(h),
{
    if h < -HEIGHT_LIMIT {
        -HEIGHT_LIMIT
    } else if h > HEIGHT_LIMIT {
        HEIGHT_LIMIT
    } else {
        h
    }
}

/// The generated height of local cell `i` (row-major) of chunk `(cx, cy)`.
pub open spec fn gen_cell(cx: int, cy: int, size: int, i: int) -> i64 {
    gen_height(cx * size + i % size, cy * size + i / size)
}

/// The whole generated height array of chunk `(cx, cy)`: `size * size`
/// cells, row-major, each the clamped noise sample at its world position.
pub open spec fn gen_chunk_spec(cx: int, cy: int, size: int) -> Seq<i64> {
    Seq::new((size * size) as nat, |i: int| gen_cell(cx, cy, size, i))
}

/// Generates the height array of one chunk from the noise source.
pub fn gen_chunk(cx: i32, cy: i32, size: usize) -> (v: Vec<i64>)
    requires
        1 <= size <= 0x1000,
        -0x4100_0000 <= cx <= 0x4100_0000,
        -0x4100_0000 <= cy <= 0x4100_0000,
    ensures
        v@ == gen_chunk_spec(cx as int, cy as int, size as int),
        v@.len() == size * size,
        forall|i: int| 0 <= i < v@.len() ==> -HEIGHT_LIMIT <= #[trigger] v@[i] <= HEIGHT_LIMIT,
{
    let mut v: Vec<i64> = Vec::new();
    let mut y: usize = 0;
    while y < size
        invariant
            1 <= size <= 0x1000,
            -0x4100_0000 <= cx <= 0x4100_0000,
            -0x4100_0000 <= cy <= 0x4100_0000,
            y <= size,
            v@.len() == y * size,
            forall|i: int| 0 <= i < v@.len() ==> v@[i] == gen_cell(cx as int, cy as int, size as int, i),
            forall|i: int| 0 <= i < v@.len() ==> -HEIGHT_LIMIT <= #[trigger] v@[i] <= HEIGHT_LIMIT,
        decreases size - y,
    {
        let wy = local_to_world(cy as i64, y as i64, size as i64);
        let mut x: usize = 0;
        while x < size
            invariant
                1 <= size <= 0x1000,
                -0x4100_0000 <= cx <= 0x4100_0000,
                -0x4100_0000 <= cy <= 0x4100_0000,
                y < size,
                x <= size,
                wy == cy as int * size as int + y as int,
                v@.len() == y * size + x,
                forall|i: int|
                    0 <= i < v@.len() ==> v@[i] == gen_cell(cx as int, cy as int, size as int, i),
                forall|i: int| 0 <= i < v@.len() ==> -HEIGHT_LIMIT <= #[trigger] v@[i] <= HEIGHT_LIMIT,
            decreases size - x,
        {
            let wx = local_to_world(cx as i64, x as i64, size as i64);
            let h = clamp_height(sample_noise(wx, wy));
            v.push(h);
            proof {
                let i = v@.len() - 1;
                crate::coords::lemma_coord_split_unique(y as int, x as int, size as int);
                assert(i == y * size + x);
                assert(i % (size as int) == x && i / (size as int) == y);
                assert(v@[i] == gen_cell(cx as int, cy as int, size as int, i));
            }
            x += 1;
        }
        y += 1;
        proof {
            assert((y - 1) * size + size == y * size) by (nonlinear_arith);
        }
    }
    proof {
        assert(v@ =~= gen_chunk_spec(cx as int, cy as int, size as int));
    }
    v
}

} // verus!
