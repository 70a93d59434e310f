//! A chunked terrain core: a sparse height field over a grid of square
//! chunks, lazily filled from a deterministic noise source, with per-chunk
//! level-of-detail meshes that are re-tessellated incrementally as the
//! height field is edited.
//!
//! All quantities are integers. Heights are fixed-point values in "height
//! units" (`HEIGHT_ONE` units per world unit); view distances are fixed-point
//! values in the same ratio (`DIST_ONE` units per world unit). A renderer
//! converts to its own floating-point types at the boundary.

use vstd::prelude::*;

pub mod coords;
pub mod dirty;
pub mod lod;
pub mod mesh;
pub mod noisegen;
pub mod terrain;
pub mod vecmap;

verus! {

/// Fixed-point scale: height units per world unit.
pub const HEIGHT_ONE: i64 = 65536;

/// Largest height magnitude the terrain stores, in height units.
/// Keeps every normal-vector product well inside `i64`.
pub const HEIGHT_LIMIT: i64 = 0x100_0000_0000;

/// Fixed-point scale: distance units per world unit.
pub const DIST_ONE: u64 = 65536;

/// Largest supported chunk side, in world units.
pub const MAX_CHUNK_SIZE: usize = 4096;

/// Largest supported texture side, in pixels.
pub const MAX_TEXTURE_SIZE: usize = 16384;

/// Largest chunk coordinate magnitude, so every world coordinate of a
/// vertex fits comfortably in `i64` arithmetic.
pub const MAX_CHUNK_COORD: i32 = 0x4000_0000;

/// Index of a chunk on the plane of chunks.
#[derive(Clone, Copy, PartialEq, Eq, Structural, Debug)]
pub struct ChunkPos {
    pub x: i32,
    pub y: i32,
}

impl ChunkPos {
    pub open spec fn key_spec(self) -> u64 {
        ((self.x as u32 as u64) << 32u64) | (self.y as u32 as u64)
    }

    /// Packs both coordinates into one map key.
    pub fn key(self) -> (k: u64)
        ensures
            k == self.key_spec(),
    {
        ((self.x as u32 as u64) << 32u64) | (self.y as u32 as u64)
    }

    pub fn new(x: i32, y: i32) -> (p: ChunkPos)
        ensures
            p.x == x && p.y == y,
    {
        ChunkPos { x, y }
    }

    pub open spec fn from_key_spec(k: u64) -> ChunkPos {
        ChunkPos { x: (k >> 32u64) as u32 as i32, y: k as u32 as i32 }
    }

    /// Unpacks a map key back into the chunk index it came from.
    pub fn from_key(k: u64) -> (p: ChunkPos)
        ensures
            p == ChunkPos::from_key_spec(k),
    {
        ChunkPos { x: (k >> 32u64) as u32 as i32, y: k as u32 as i32 }
    }
}

/// Packing an unpacked key gives the key back: the two maps are inverse
/// bijections between chunk indices and keys.
pub proof fn lemma_key_pack_unpack(k: u64)
    ensures
        ChunkPos::from_key_spec(k).key_spec() == k,
{
    assert((((((((k >> 32u64) as u32) as i32) as u32) as u64) << 32u64) | ((((k as u32) as i32)
        as u32) as u64)) == k) by (bit_vector);
}

/// Unpacking a packed chunk key recovers the chunk index.
pub proof fn lemma_chunk_key_round_trip(p: ChunkPos)
    ensures
        ChunkPos::from_key_spec(p.key_spec()) == p,
{
    let x = p.x;
    let y = p.y;
    assert(((((x as u32 as u64) << 32u64) | (y as u32 as u64)) >> 32u64) as u32 as i32 == x
        && ((((x as u32 as u64) << 32u64) | (y as u32 as u64)) as u32 as i32) == y)
        by (bit_vector);
}

/// Distinct chunk indices pack to distinct keys.
pub proof fn lemma_chunk_key_injective(a: ChunkPos, b: ChunkPos)
    requires
        a.key_spec() == b.key_spec(),
    ensures
        a == b,
{
    let ax = a.x;
    let ay = a.y;
    let bx = b.x;
    let by = b.y;
    assert((((ax as u32 as u64) << 32u64) | (ay as u32 as u64)) == (((bx as u32 as u64) << 32u64)
        | (by as u32 as u64)) ==> ax == bx && ay == by) by (bit_vector);
}

} // verus!
