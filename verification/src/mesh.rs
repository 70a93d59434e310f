//! Per-chunk triangle meshes: building a flat grid at a given level of
//! detail, and refreshing vertex heights and normals in place.
//!
//! A mesh at reduction factor `r` has `mesh_size = chunk_size / 2^r`
//! cells per side and `(mesh_size + 1)^2` vertices. Vertex `(gx, gy)` sits
//! at world offset `(gx * step, gy * step)` inside its chunk, where
//! `step = 2^r`; its height is a fixed-point value in height units, and
//! its normal is the unnormalized sum of up to four face normals, one per
//! pair of adjacent axis neighbors. Everything is exact integer
//! arithmetic; a renderer scales and normalizes at the boundary.

use crate::HEIGHT_LIMIT;
use vstd::arithmetic::power2::pow2;
use vstd::prelude::*;

verus! {

/// An unnormalized vertex normal; `(0, 1, 0)` is the flat default.
#[derive(Clone, Copy, PartialEq, Eq, Structural, Debug)]
pub struct NormalVec {
    pub x: i64,
    pub y: i64,
    pub z: i64,
}


/// Row-major vertex index of grid position `(gx, gy)`.
pub open spec fn vidx(ms: int, gx: int, gy: int) -> int {
    gx + gy * (ms + 1)
}

/// One LOD mesh of one chunk.
///
/// Vertex positions and texture coordinates are implied by the grid:
/// vertex `(gx, gy)` sits at `(gx * step, height, gy * step)` in chunk
/// space and samples the chunk texture at
/// `(gx / (mesh_size + 1), gy / (mesh_size + 1))`; a renderer derives
/// both when it uploads the buffers.
pub struct TerrainMesh {
    /// Reduction factor: each increment halves the vertex density.
    pub mesh_reduce: usize,
    /// Cells per side: `chunk_size / 2^mesh_reduce`.
    pub mesh_size: usize,
    /// World units between adjacent vertices: `2^mesh_reduce`.
    pub step: usize,
    /// Vertex heights, `(mesh_size + 1)^2` entries, row-major.
    pub heights: Vec<i64>,
    /// Vertex normals, same layout as `heights`.
    pub normals: Vec<NormalVec>,
    /// Triangle list: six indices per cell, two triangles each.
    pub indices: Vec<u32>,
}

impl TerrainMesh {
    pub open spec fn wf(self) -> bool {
        &&& 1 <= self.mesh_size <= 0x1000
        &&& 1 <= self.step <= 0x1000
        &&& self.step == pow2(self.mesh_reduce as nat)
        &&& self.mesh_size * self.step <= 0x1000
        &&& self.heights@.len() == (self.mesh_size + 1) * (self.mesh_size + 1)
        &&& self.normals@.len() == (self.mesh_size + 1) * (self.mesh_size + 1)
        &&& self.indices@.len() == 6 * self.mesh_size * self.mesh_size
        &&& forall|i: int|
            0 <= i < self.heights@.len() ==> -HEIGHT_LIMIT <= #[trigger] self.heights@[i]
                <= HEIGHT_LIMIT
    }

    /// Height of vertex `(gx, gy)`.
    pub fn vertex_height(&self, gx: usize, gy: usize) -> (h: i64)
        requires
            self.wf(),
            gx <= self.mesh_size,
            gy <= self.mesh_size,
        ensures
            h == self.heights@[vidx(self.mesh_size as int, gx as int, gy as int)],
    {
        proof {
            lemma_vidx_in_range(self.mesh_size as int, gx as int, gy as int);
        }
        self.heights[gx + gy * (self.mesh_size + 1)]
    }

    /// Normal of vertex `(gx, gy)`.
    pub fn vertex_normal(&self, gx: usize, gy: usize) -> (n: NormalVec)
        requires
            self.wf(),
            gx <= self.mesh_size,
            gy <= self.mesh_size,
        ensures
            n == self.normals@[vidx(self.mesh_size as int, gx as int, gy as int)],
    {
        proof {
            lemma_vidx_in_range(self.mesh_size as int, gx as int, gy as int);
        }
        self.normals[gx + gy * (self.mesh_size + 1)]
    }
}

/// A grid position's row-major index stays inside the vertex buffer.
pub proof fn lemma_vidx_in_range(ms: int, gx: int, gy: int)
    requires
        1 <= ms <= 0x1000,
        0 <= gx <= ms,
        0 <= gy <= ms,
    ensures
        0 <= vidx(ms, gx, gy) < (ms + 1) * (ms + 1),
        vidx(ms, gx, gy) == gx + gy * (ms + 1),
        0 <= gy * (ms + 1) <= ms * (ms + 1),
        ms + ms * (ms + 1) < (ms + 1) * (ms + 1),
        (ms + 1) * (ms + 1) <= 0x1001 * 0x1001,
{
    assert((ms + 1) * (ms + 1) <= 0x1001 * 0x1001) by (nonlinear_arith)
        requires
            1 <= ms <= 0x1000,
    ;
    assert(gy * (ms + 1) <= ms * (ms + 1)) by (nonlinear_arith)
        requires
            0 <= gy <= ms,
            ms >= 1,
    ;
    assert(ms + ms * (ms + 1) < (ms + 1) * (ms + 1)) by (nonlinear_arith);
    assert(gy * (ms + 1) >= 0) by (nonlinear_arith)
        requires
            gy >= 0,
            ms >= 1,
    ;
}


/// `2^r` for the small exponents a LOD table can hold.
pub fn pow2_exec(r: usize) -> (s: usize)
    requires
        r <= 12,
    ensures
        s == pow2(r as nat),
        1 <= s <= 0x1000,
{
    proof {
        vstd::arithmetic::power2::lemma2_to64();
    }
    let mut s: usize = 1;
    let mut i: usize = 0;
    while i < r
        invariant
            i <= r <= 12,
            s == pow2(i as nat),
            s <= 0x1000,
        decreases r - i,
    {
        proof {
            vstd::arithmetic::power2::lemma_pow2_unfold((i + 1) as nat);
            vstd::arithmetic::power2::lemma_pow2_pos(i as nat);
            vstd::arithmetic::power2::lemma_pow2_strictly_increases((i + 1) as nat, 13nat);
            vstd::arithmetic::power2::lemma2_to64();
        }
        s = s * 2;
        i += 1;
    }
    s
}

/// Entry `t` of the triangle list of a grid with `ms` cells per side.
/// Cells are laid out column-major (grid x outermost); each cell holds
/// two triangles wound so a flat surface faces up.
pub open spec fn tri_entry(ms: int, t: int) -> u32 {
    let cell = t / 6;
    let k = t % 6;
    let cx = cell / ms;
    let cy = cell % ms;
    let vi = vidx(ms, cx, cy);
    let v = if k == 0 {
        vi + ms + 1
    } else if k == 1 {
        vi + ms + 2
    } else if k == 2 {
        vi
    } else if k == 3 {
        vi + 1
    } else if k == 4 {
        vi
    } else {
        vi + ms + 2
    };
    v as u32
}

/// The whole triangle list of a grid with `ms` cells per side.
pub open spec fn grid_indices(ms: int) -> Seq<u32> {
    Seq::new((6 * ms * ms) as nat, |t: int| tri_entry(ms, t))
}

/// Builds the flat full-grid mesh of one chunk at one reduction factor:
/// all heights zero, all normals up, triangles covering every cell. No
/// height data is baked in; the first dirty-region pass fills it.
pub fn build_mesh(chunk_size: usize, mesh_reduce: usize) -> (m: TerrainMesh)
    requires
        1 <= chunk_size <= 0x1000,
        mesh_reduce <= 12,
        chunk_size as int % pow2(mesh_reduce as nat) as int == 0,
        chunk_size as int / pow2(mesh_reduce as nat) as int >= 1,
    ensures
        m.wf(),
        m.mesh_reduce == mesh_reduce,
        m.step == pow2(mesh_reduce as nat),
        m.mesh_size == chunk_size as int / pow2(mesh_reduce as nat) as int,
        m.mesh_size * m.step == chunk_size,
        m.heights@ == Seq::new(((m.mesh_size + 1) * (m.mesh_size + 1)) as nat, |i: int| 0i64),
        m.normals@ == Seq::new(
            ((m.mesh_size + 1) * (m.mesh_size + 1)) as nat,
            |i: int| NormalVec { x: 0, y: 1, z: 0 },
        ),
        m.indices@ == grid_indices(m.mesh_size as int),
{
    let step = pow2_exec(mesh_reduce);
    let ms = chunk_size / step;
    proof {
        vstd::arithmetic::div_mod::lemma_fundamental_div_mod(chunk_size as int, step as int);
        assert(step as int * (chunk_size as int / step as int) == (chunk_size as int / step as int)
            * step as int) by (nonlinear_arith);
        assert(ms * step == chunk_size);
        assert((ms + 1) * (ms + 1) <= 0x1001 * 0x1001) by (nonlinear_arith)
            requires
                1 <= ms <= 0x1000,
        ;
    }
    let vcount = (ms + 1) * (ms + 1);
    let heights: Vec<i64> = vec![0i64; vcount];
    let normals: Vec<NormalVec> = vec![NormalVec { x: 0, y: 1, z: 0 }; vcount];
    let mut indices: Vec<u32> = Vec::new();
    let mut cx: usize = 0;
    while cx < ms
        invariant
            1 <= ms <= 0x1000,
            cx <= ms,
            indices@.len() == 6 * (cx * ms),
            forall|t: int| 0 <= t < indices@.len() ==> indices@[t] == tri_entry(ms as int, t),
        decreases ms - cx,
    {
        let mut cy: usize = 0;
        proof {
            assert(cx * ms + ms <= ms * ms) by (nonlinear_arith)
                requires
                    0 <= cx < ms,
            ;
        }
        while cy < ms
            invariant
                1 <= ms <= 0x1000,
                cx < ms,
                cy <= ms,
                cx * ms + ms <= ms * ms,
                indices@.len() == 6 * (cx * ms + cy),
                forall|t: int| 0 <= t < indices@.len() ==> indices@[t] == tri_entry(ms as int, t),
            decreases ms - cy,
        {
            proof {
                lemma_vidx_in_range(ms as int, cx as int, cy as int);
            }
            let vi = cx + cy * (ms + 1);
            let base = vi as u32;
            let row = (ms + 1) as u32;
            indices.push(base + row);
            indices.push(base + row + 1);
            indices.push(base);
            indices.push(base + 1);
            indices.push(base);
            indices.push(base + row + 1);
            proof {
                let cell = cx * ms + cy;
                crate::coords::lemma_coord_split_unique(cx as int, cy as int, ms as int);
                assert forall|k: int| 0 <= k < 6 implies indices@[6 * cell + k] == #[trigger]
                tri_entry(ms as int, 6 * cell + k) by {
                    crate::coords::lemma_coord_split_unique(cell as int, k, 6);
                };
            }
            cy += 1;
        }
        cx += 1;
        proof {
            assert((cx - 1) * ms + ms == cx * ms) by (nonlinear_arith);
        }
    }
    let m = TerrainMesh { mesh_reduce, mesh_size: ms, step, heights, normals, indices };
    proof {
        assert(m.heights@ =~= Seq::new(((ms + 1) * (ms + 1)) as nat, |i: int| 0i64));
        assert(m.normals@ =~= Seq::new(
            ((ms + 1) * (ms + 1)) as nat,
            |i: int| NormalVec { x: 0, y: 1, z: 0 },
        ));
        assert(6 * ((ms as int) * (ms as int)) == 6 * (ms as int) * (ms as int))
            by (nonlinear_arith);
        assert(m.indices@ =~= grid_indices(ms as int));
        assert(ms * step <= 0x1000);
    }
    m
}

/// Neighbor-pair offsets for the four candidate face normals of a vertex,
/// in evaluation order: (north, east), (east, south), (south, west),
/// (west, north) — each pair is the offset of neighbor `b` then `c`.
pub open spec fn pair_bx(p: int) -> int {
    if p == 0 {
        0
    } else if p == 1 {
        1
    } else if p == 2 {
        0
    } else {
        -1
    }
}

pub open spec fn pair_by(p: int) -> int {
    if p == 0 {
        -1
    } else if p == 1 {
        0
    } else if p == 2 {
        1
    } else {
        0
    }
}

pub open spec fn pair_cx(p: int) -> int {
    if p == 0 {
        1
    } else if p == 1 {
        0
    } else if p == 2 {
        -1
    } else {
        0
    }
}

pub open spec fn pair_cy(p: int) -> int {
    if p == 0 {
        0
    } else if p == 1 {
        1
    } else if p == 2 {
        0
    } else {
        -1
    }
}

/// A candidate is available only when both neighbors lie on this mesh's
/// own grid; there is no cross-chunk normal blending.
pub open spec fn pair_ok(ms: int, gx: int, gy: int, p: int) -> bool {
    &&& 0 <= gx + pair_bx(p) <= ms
    &&& 0 <= gy + pair_by(p) <= ms
    &&& 0 <= gx + pair_cx(p) <= ms
    &&& 0 <= gy + pair_cy(p) <= ms
}

/// Height difference from vertex `(gx, gy)` to its `(dx, dy)` neighbor.
pub open spec fn dh(hs: Seq<i64>, ms: int, gx: int, gy: int, dx: int, dy: int) -> int {
    hs[vidx(ms, gx + dx, gy + dy)] - hs[vidx(ms, gx, gy)]
}

/// Components of candidate `p`: the negated cross product of the edge
/// vectors from the vertex to neighbors `b` and `c`, where a vertex sits
/// at `(gx * s, height, gy * s)`.
pub open spec fn cand_x(hs: Seq<i64>, ms: int, s: int, gx: int, gy: int, p: int) -> int {
    pair_by(p) * s * dh(hs, ms, gx, gy, pair_cx(p), pair_cy(p)) - dh(
        hs,
        ms,
        gx,
        gy,
        pair_bx(p),
        pair_by(p),
    ) * pair_cy(p) * s
}

pub open spec fn cand_y(hs: Seq<i64>, ms: int, s: int, gx: int, gy: int, p: int) -> int {
    (pair_bx(p) * pair_cy(p) - pair_by(p) * pair_cx(p)) * s * s
}

pub open spec fn cand_z(hs: Seq<i64>, ms: int, s: int, gx: int, gy: int, p: int) -> int {
    dh(hs, ms, gx, gy, pair_bx(p), pair_by(p)) * pair_cx(p) * s - pair_bx(p) * s * dh(
        hs,
        ms,
        gx,
        gy,
        pair_cx(p),
        pair_cy(p),
    )
}

pub open spec fn cand_term_x(hs: Seq<i64>, ms: int, s: int, gx: int, gy: int, p: int) -> int {
    if pair_ok(ms, gx, gy, p) {
        cand_x(hs, ms, s, gx, gy, p)
    } else {
        0
    }
}

pub open spec fn cand_term_y(hs: Seq<i64>, ms: int, s: int, gx: int, gy: int, p: int) -> int {
    if pair_ok(ms, gx, gy, p) {
        cand_y(hs, ms, s, gx, gy, p)
    } else {
        0
    }
}

pub open spec fn cand_term_z(hs: Seq<i64>, ms: int, s: int, gx: int, gy: int, p: int) -> int {
    if pair_ok(ms, gx, gy, p) {
        cand_z(hs, ms, s, gx, gy, p)
    } else {
        0
    }
}

/// The recomputed normal of a vertex: the sum of its available candidate
/// face normals (between one and four of them). The stored normal is this
/// unnormalized sum; the arithmetic mean the renderer may want differs
/// from it only by a positive scale, so the direction is the same.
pub open spec fn normal_x(hs: Seq<i64>, ms: int, s: int, gx: int, gy: int) -> int {
    cand_term_x(hs, ms, s, gx, gy, 0) + cand_term_x(hs, ms, s, gx, gy, 1) + cand_term_x(
        hs,
        ms,
        s,
        gx,
        gy,
        2,
    ) + cand_term_x(hs, ms, s, gx, gy, 3)
}

pub open spec fn normal_y(hs: Seq<i64>, ms: int, s: int, gx: int, gy: int) -> int {
    cand_term_y(hs, ms, s, gx, gy, 0) + cand_term_y(hs, ms, s, gx, gy, 1) + cand_term_y(
        hs,
        ms,
        s,
        gx,
        gy,
        2,
    ) + cand_term_y(hs, ms, s, gx, gy, 3)
}

pub open spec fn normal_z(hs: Seq<i64>, ms: int, s: int, gx: int, gy: int) -> int {
    cand_term_z(hs, ms, s, gx, gy, 0) + cand_term_z(hs, ms, s, gx, gy, 1) + cand_term_z(
        hs,
        ms,
        s,
        gx,
        gy,
        2,
    ) + cand_term_z(hs, ms, s, gx, gy, 3)
}

/// Whether the recomputed normal of vertex `(gx, gy)` is `n`.
pub open spec fn is_normal_at(hs: Seq<i64>, ms: int, s: int, gx: int, gy: int, n: NormalVec) -> bool {
    &&& n.x as int == normal_x(hs, ms, s, gx, gy)
    &&& n.y as int == normal_y(hs, ms, s, gx, gy)
    &&& n.z as int == normal_z(hs, ms, s, gx, gy)
}

/// The recomputed normal of vertex `(gx, gy)` as a value.
pub open spec fn normal_vec_at(hs: Seq<i64>, ms: int, s: int, gx: int, gy: int) -> NormalVec {
    NormalVec {
        x: normal_x(hs, ms, s, gx, gy) as i64,
        y: normal_y(hs, ms, s, gx, gy) as i64,
        z: normal_z(hs, ms, s, gx, gy) as i64,
    }
}

impl TerrainMesh {
    /// One candidate face normal; the offsets name the two neighbors.
    fn face_cand(&self, gx: usize, gy: usize, bx: i64, by: i64, cx: i64, cy: i64) -> (n: (
        i64,
        i64,
        i64,
    ))
        requires
            self.wf(),
            gx <= self.mesh_size,
            gy <= self.mesh_size,
            -1 <= bx <= 1,
            -1 <= by <= 1,
            -1 <= cx <= 1,
            -1 <= cy <= 1,
            0 <= gx + bx <= self.mesh_size,
            0 <= gy + by <= self.mesh_size,
            0 <= gx + cx <= self.mesh_size,
            0 <= gy + cy <= self.mesh_size,
        ensures
            ({
                let hs = self.heights@;
                let ms = self.mesh_size as int;
                let s = self.step as int;
                let dhb = dh(hs, ms, gx as int, gy as int, bx as int, by as int);
                let dhc = dh(hs, ms, gx as int, gy as int, cx as int, cy as int);
                &&& n.0 == by * s * dhc - dhb * cy * s
                &&& n.1 == (bx * cy - by * cx) * s * s
                &&& n.2 == dhb * cx * s - bx * s * dhc
                &&& -0x100_0000_0000_0000 <= n.0 <= 0x100_0000_0000_0000
                &&& -0x100_0000_0000_0000 <= n.1 <= 0x100_0000_0000_0000
                &&& -0x100_0000_0000_0000 <= n.2 <= 0x100_0000_0000_0000
            }),
    {
        let ms = self.mesh_size;
        proof {
            lemma_vidx_in_range(ms as int, gx as int, gy as int);
            lemma_vidx_in_range(ms as int, gx + bx, gy + by);
            lemma_vidx_in_range(ms as int, gx + cx, gy + cy);
        }
        let a = self.heights[gx + gy * (ms + 1)];
        let hb = self.heights[((gx as i64 + bx) + (gy as i64 + by) * (ms as i64 + 1)) as usize];
        let hc = self.heights[((gx as i64 + cx) + (gy as i64 + cy) * (ms as i64 + 1)) as usize];
        let dhb = hb - a;
        let dhc = hc - a;
        let s = self.step as i64;
        proof {
            let lim = 2 * HEIGHT_LIMIT;
            assert(-0x1000 <= by * s <= 0x1000 && -0x1000 <= bx * s <= 0x1000 && -lim <= dhb * cy
                <= lim && -lim <= dhb * cx <= lim && -1 <= bx * cy <= 1 && -1 <= by * cx <= 1
                && -2 <= bx * cy - by * cx <= 2 && -(2 * 0x1000)
                <= (bx * cy - by * cx) * s <= 2 * 0x1000 && (by * s) * dhc <= 0x1000 * lim && (by
                * s) * dhc >= -(0x1000 * lim) && (dhb * cy) * s <= 0x1000 * lim && (dhb * cy) * s
                >= -(0x1000 * lim) && (dhb * cx) * s <= 0x1000 * lim && (dhb * cx) * s >= -(0x1000
                * lim) && (bx * s) * dhc <= 0x1000 * lim && (bx * s) * dhc >= -(0x1000 * lim) && ((
            bx * cy - by * cx) * s) * s <= 2 * 0x1000 * 0x1000 && ((bx * cy - by * cx) * s) * s >= -(
            2 * 0x1000 * 0x1000)) by (nonlinear_arith)
                requires
                    -1 <= bx <= 1,
                    -1 <= by <= 1,
                    -1 <= cx <= 1,
                    -1 <= cy <= 1,
                    1 <= s <= 0x1000,
                    -lim <= dhb <= lim,
                    -lim <= dhc <= lim,
                    lim == 2 * HEIGHT_LIMIT,
            ;
        }
        let nx = by * s * dhc - dhb * cy * s;
        let ny = (bx * cy - by * cx) * s * s;
        let nz = dhb * cx * s - bx * s * dhc;
        (nx, ny, nz)
    }

    /// Recomputes the normal of vertex `(gx, gy)` from the current
    /// heights: the sum of the available candidate face normals.
    pub fn update_normal(&mut self, gx: usize, gy: usize)
        requires
            old(self).wf(),
            gx <= old(self).mesh_size,
            gy <= old(self).mesh_size,
        ensures
            final(self).wf(),
            final(self).mesh_reduce == old(self).mesh_reduce,
            final(self).mesh_size == old(self).mesh_size,
            final(self).step == old(self).step,
            final(self).heights@ == old(self).heights@,
            final(self).indices@ == old(self).indices@,
            final(self).normals@ == old(self).normals@.update(
                vidx(old(self).mesh_size as int, gx as int, gy as int),
                final(self).normals@[vidx(old(self).mesh_size as int, gx as int, gy as int)],
            ),
            is_normal_at(
                old(self).heights@,
                old(self).mesh_size as int,
                old(self).step as int,
                gx as int,
                gy as int,
                final(self).normals@[vidx(old(self).mesh_size as int, gx as int, gy as int)],
            ),
    {
        let ms = self.mesh_size;
        let mut nx: i64 = 0;
        let mut ny: i64 = 0;
        let mut nz: i64 = 0;
        // (north, east)
        if gy >= 1 && gx + 1 <= ms {
            let c = self.face_cand(gx, gy, 0, -1, 1, 0);
            nx = nx + c.0;
            ny = ny + c.1;
            nz = nz + c.2;
        }
        // (east, south)
        if gx + 1 <= ms && gy + 1 <= ms {
            let c = self.face_cand(gx, gy, 1, 0, 0, 1);
            nx = nx + c.0;
            ny = ny + c.1;
            nz = nz + c.2;
        }
        // (south, west)
        if gy + 1 <= ms && gx >= 1 {
            let c = self.face_cand(gx, gy, 0, 1, -1, 0);
            nx = nx + c.0;
            ny = ny + c.1;
            nz = nz + c.2;
        }
        // (west, north)
        if gx >= 1 && gy >= 1 {
            let c = self.face_cand(gx, gy, -1, 0, 0, -1);
            nx = nx + c.0;
            ny = ny + c.1;
            nz = nz + c.2;
        }
        proof {
            lemma_vidx_in_range(ms as int, gx as int, gy as int);
        }
        self.normals[gx + gy * (ms + 1)] = NormalVec { x: nx, y: ny, z: nz };
    }

    /// Overwrites the height of vertex `(gx, gy)`.
    pub fn set_vertex_height(&mut self, gx: usize, gy: usize, h: i64)
        requires
            old(self).wf(),
            gx <= old(self).mesh_size,
            gy <= old(self).mesh_size,
            -HEIGHT_LIMIT <= h <= HEIGHT_LIMIT,
        ensures
            final(self).wf(),
            final(self).mesh_reduce == old(self).mesh_reduce,
            final(self).mesh_size == old(self).mesh_size,
            final(self).step == old(self).step,
            final(self).normals@ == old(self).normals@,
            final(self).indices@ == old(self).indices@,
            final(self).heights@ == old(self).heights@.update(
                vidx(old(self).mesh_size as int, gx as int, gy as int),
                h,
            ),
    {
        proof {
            lemma_vidx_in_range(self.mesh_size as int, gx as int, gy as int);
        }
        let ms = self.mesh_size;
        self.heights[gx + gy * (ms + 1)] = h;
    }
}

} // verus!
