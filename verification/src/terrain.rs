//! The terrain state: the sparse height field, per-chunk textures and
//! LOD meshes, the spawn/destroy queues, and the dirty-region tracker.
//!
//! All operations go through one explicitly passed [`MasterTerrain`]
//! value. Heights are fixed-point integers in height units; chunks of
//! height data appear lazily, generated from the deterministic noise
//! source the first time a world cell inside them is read.

use crate::coords::{
    chunk_coord, floor_div, floor_rem, lemma_coord_round_trip, lemma_div_bound, local_coord,
};
use crate::dirty::{
    mark_all_model, mark_point_model, mark_write_model, DirtyModel, DirtyRegion, LocalPoint,
};
use crate::lod::{selected, table_wf, LODLevel, LOD};
use crate::mesh::{build_mesh, grid_indices, normal_vec_at, pow2_exec, NormalVec, TerrainMesh};
use crate::noisegen::{gen_chunk, gen_chunk_spec};
use crate::vecmap::VecMap;
use crate::{ChunkPos, HEIGHT_LIMIT, MAX_CHUNK_COORD, MAX_CHUNK_SIZE, MAX_TEXTURE_SIZE};
use vstd::arithmetic::power2::pow2;
use vstd::prelude::*;

verus! {

/// Why an operation on the terrain was refused.
#[derive(Clone, Copy, PartialEq, Eq, Structural, Debug)]
pub enum TerrainError {
    /// The chunk side must be between 1 and [`MAX_CHUNK_SIZE`] world units.
    InvalidChunkSize,
    /// The texture side must be a multiple of the chunk side, no larger
    /// than [`MAX_TEXTURE_SIZE`] pixels.
    InvalidTextureSize,
    /// The LOD table must be non-empty, ascending, end in an unbounded
    /// threshold, and use reduction factors that divide the chunk side.
    InvalidLodTable,
    /// The operation needs an initialized terrain.
    NotLoaded,
    /// Restored chunk data does not match the terrain's configuration.
    InvalidChunkData,
}

/// The height array a chunk presents: what is stored for it, or the
/// generated one when no cell of it was ever stored.
pub open spec fn stored_or_generated(hm: Map<u64, Seq<i64>>, c: ChunkPos, size: int) -> Seq<i64> {
    if hm.contains_key(c.key_spec()) {
        hm[c.key_spec()]
    } else {
        gen_chunk_spec(c.x as int, c.y as int, size)
    }
}

/// The chunk index of the chunk holding world position `(wx, wy)`.
pub open spec fn chunk_of(size: int, wx: int, wy: int) -> ChunkPos {
    ChunkPos { x: chunk_coord(wx, size) as i32, y: chunk_coord(wy, size) as i32 }
}

/// Row-major index of a local cell.
pub open spec fn cell_index(size: int, lx: int, ly: int) -> int {
    lx + ly * size
}

/// The height the terrain holds at a world position, whether stored or
/// still only implied by the noise source.
pub open spec fn height_at_model(hm: Map<u64, Seq<i64>>, size: int, wx: int, wy: int) -> i64 {
    stored_or_generated(hm, chunk_of(size, wx, wy), size)[cell_index(
        size,
        local_coord(wx, size),
        local_coord(wy, size),
    )]
}

/// Effect of a height write on the stored height field: the touched
/// chunk is materialized if it was only implied, then its cell is set.
pub open spec fn set_height_model(
    hm: Map<u64, Seq<i64>>,
    size: int,
    wx: int,
    wy: int,
    v: i64,
) -> Map<u64, Seq<i64>> {
    let c = chunk_of(size, wx, wy);
    hm.insert(
        c.key_spec(),
        stored_or_generated(hm, c, size).update(
            cell_index(size, local_coord(wx, size), local_coord(wy, size)),
            v,
        ),
    )
}

/// Every stored chunk has `size * size` cells, all in the storable range.
pub open spec fn heights_wf_model(hm: Map<u64, Seq<i64>>, size: int) -> bool {
    forall|k: u64| #[trigger]
        hm.contains_key(k) ==> hm[k].len() == size * size && forall|i: int|
            0 <= i < hm[k].len() ==> -HEIGHT_LIMIT <= #[trigger] hm[k][i] <= HEIGHT_LIMIT
}

/// A local cell's row-major index stays inside the chunk's height array.
pub proof fn lemma_cell_index_in_range(size: int, lx: int, ly: int)
    requires
        size >= 1,
        0 <= lx < size,
        0 <= ly < size,
    ensures
        0 <= cell_index(size, lx, ly) < size * size,
        size <= 0x1000 ==> cell_index(size, lx, ly) < 0x1000 * 0x1000,
{
    assert(0 <= lx + ly * size && lx + ly * size < size * size && (size <= 0x1000 ==> lx + ly
        * size < 0x1000 * 0x1000)) by (nonlinear_arith)
        requires
            size >= 1,
            0 <= lx < size,
            0 <= ly < size,
    ;
}

/// Law: the height of a never-stored chunk is a function of the world
/// position alone — two terrains with the same chunk size that both lack
/// the chunk agree on every cell of it, whatever else they store.
pub proof fn lemma_generation_deterministic(
    hm1: Map<u64, Seq<i64>>,
    hm2: Map<u64, Seq<i64>>,
    size: int,
    wx: int,
    wy: int,
)
    requires
        !hm1.contains_key(chunk_of(size, wx, wy).key_spec()),
        !hm2.contains_key(chunk_of(size, wx, wy).key_spec()),
    ensures
        height_at_model(hm1, size, wx, wy) == height_at_model(hm2, size, wx, wy),
{
}

/// Law: a height write followed by a read of the same world position
/// returns exactly the written value.
pub proof fn lemma_write_then_read(
    hm: Map<u64, Seq<i64>>,
    size: int,
    wx: int,
    wy: int,
    v: i64,
)
    requires
        size >= 1,
        heights_wf_model(hm, size),
    ensures
        height_at_model(set_height_model(hm, size, wx, wy, v), size, wx, wy) == v,
{
    let c = chunk_of(size, wx, wy);
    let lx = local_coord(wx, size);
    let ly = local_coord(wy, size);
    lemma_coord_round_trip(wx, size);
    lemma_coord_round_trip(wy, size);
    lemma_cell_index_in_range(size, lx, ly);
    if hm.contains_key(c.key_spec()) {
        assert(hm[c.key_spec()].len() == size * size);
    } else {
        assert(gen_chunk_spec(c.x as int, c.y as int, size).len() == size * size);
    }
}

/// Law: a height write changes no other world position: any position in
/// another cell (of this or any other chunk) reads as before.
pub proof fn lemma_write_is_local(
    hm: Map<u64, Seq<i64>>,
    size: int,
    wx: int,
    wy: int,
    v: i64,
    qx: int,
    qy: int,
)
    requires
        size >= 1,
        heights_wf_model(hm, size),
        qx != wx || qy != wy,
        -0x4000_0000 * size <= wx <= 0x4000_0000 * size,
        -0x4000_0000 * size <= wy <= 0x4000_0000 * size,
        -0x4000_0000 * size <= qx <= 0x4000_0000 * size,
        -0x4000_0000 * size <= qy <= 0x4000_0000 * size,
    ensures
        height_at_model(set_height_model(hm, size, wx, wy, v), size, qx, qy) == height_at_model(
            hm,
            size,
            qx,
            qy,
        ),
{
    let c = chunk_of(size, wx, wy);
    let q = chunk_of(size, qx, qy);
    lemma_coord_round_trip(wx, size);
    lemma_coord_round_trip(wy, size);
    lemma_coord_round_trip(qx, size);
    lemma_coord_round_trip(qy, size);
    lemma_div_bound(wx, size, 0x4000_0000);
    lemma_div_bound(wy, size, 0x4000_0000);
    lemma_div_bound(qx, size, 0x4000_0000);
    lemma_div_bound(qy, size, 0x4000_0000);
    let lwx = local_coord(wx, size);
    let lwy = local_coord(wy, size);
    let lqx = local_coord(qx, size);
    let lqy = local_coord(qy, size);
    lemma_cell_index_in_range(size, lwx, lwy);
    lemma_cell_index_in_range(size, lqx, lqy);
    if q.key_spec() == c.key_spec() {
        crate::lemma_chunk_key_injective(q, c);
        // Same chunk, so the two cells differ inside it.
        assert(chunk_coord(qx, size) == chunk_coord(wx, size));
        assert(chunk_coord(qy, size) == chunk_coord(wy, size));
        assert(lqx != lwx || lqy != lwy);
        if cell_index(size, lqx, lqy) == cell_index(size, lwx, lwy) {
            crate::coords::lemma_coord_split_unique(lqy, lqx, size);
            crate::coords::lemma_coord_split_unique(lwy, lwx, size);
        }
    }
}

/// Chunk indices a caller may pass in; one chunk of slack is kept so
/// edge spill-over to a neighbor never leaves the arithmetic's range.
pub open spec fn chunk_in_range(c: ChunkPos) -> bool {
    &&& -MAX_CHUNK_COORD <= c.x <= MAX_CHUNK_COORD
    &&& -MAX_CHUNK_COORD <= c.y <= MAX_CHUNK_COORD
}

/// Chunk indices that can appear as keys of the per-chunk tables.
pub open spec fn key_in_range(k: u64) -> bool {
    &&& -0x4001_0000 <= ChunkPos::from_key_spec(k).x <= 0x4001_0000
    &&& -0x4001_0000 <= ChunkPos::from_key_spec(k).y <= 0x4001_0000
}

/// Meshes of one chunk: one per configured LOD level, in table order,
/// each consistent with the chunk side.
pub open spec fn chunk_meshes_wf(ms: Seq<TerrainMesh>, size: int, levels: Seq<LODLevel>) -> bool {
    &&& ms.len() == levels.len()
    &&& forall|i: int|
        0 <= i < ms.len() ==> (#[trigger] ms[i]).wf() && ms[i].mesh_reduce == levels[i].mesh_reduce
            && ms[i].mesh_size * ms[i].step == size
}

/// The LOD table is valid for a chunk side: every reduction factor leaves
/// a whole, non-empty grid.
pub open spec fn valid_lod_table(size: int, levels: Seq<LODLevel>) -> bool {
    &&& table_wf(levels)
    &&& forall|i: int|
        0 <= i < levels.len() ==> (#[trigger] levels[i]).mesh_reduce <= 12 && size % pow2(
            levels[i].mesh_reduce as nat,
        ) as int == 0 && size / pow2(levels[i].mesh_reduce as nat) as int >= 1
}

pub open spec fn valid_chunk_size(size: int) -> bool {
    1 <= size <= MAX_CHUNK_SIZE
}

pub open spec fn valid_texture_size(size: int, tex: int) -> bool {
    &&& size <= tex <= MAX_TEXTURE_SIZE
    &&& tex % size == 0
}

/// The whole terrain: height field, textures, meshes, queues and dirty
/// tracker, with its configuration.
pub struct MasterTerrain {
    loaded: bool,
    chunk_size: usize,
    texture_size: usize,
    heights: VecMap<Vec<i64>>,
    textures: VecMap<Vec<u8>>,
    lod: LOD,
    chunks: VecMap<Vec<TerrainMesh>>,
    spawn_queue: Vec<ChunkPos>,
    destroy_queue: Vec<ChunkPos>,
    dirty: VecMap<DirtyRegion>,
}

impl MasterTerrain {
    pub closed spec fn is_loaded(self) -> bool {
        self.loaded
    }

    pub closed spec fn chunk_size_spec(self) -> int {
        self.chunk_size as int
    }

    pub closed spec fn texture_size_spec(self) -> int {
        self.texture_size as int
    }

    pub closed spec fn lod_table(self) -> Seq<LODLevel> {
        self.lod.levels@
    }

    pub closed spec fn height_map(self) -> Map<u64, Seq<i64>> {
        self.heights@.map_values(|v: Vec<i64>| v@)
    }

    pub closed spec fn texture_map(self) -> Map<u64, Seq<u8>> {
        self.textures@.map_values(|v: Vec<u8>| v@)
    }

    pub closed spec fn mesh_map(self) -> Map<u64, Seq<TerrainMesh>> {
        self.chunks@.map_values(|v: Vec<TerrainMesh>| v@)
    }

    pub open spec fn chunk_dom(self) -> Set<u64> {
        self.mesh_map().dom()
    }

    pub closed spec fn dirty_map(self) -> Map<u64, DirtyModel> {
        self.dirty@.map_values(|r: DirtyRegion| r@)
    }

    pub closed spec fn spawn_queue_spec(self) -> Seq<ChunkPos> {
        self.spawn_queue@
    }

    pub closed spec fn destroy_queue_spec(self) -> Seq<ChunkPos> {
        self.destroy_queue@
    }

    /// World coordinates whose chunk the terrain can address: wide enough
    /// for every chunk a caller can name, plus the vertex rings of their
    /// edge neighbors.
    pub open spec fn world_in_range(self, w: int) -> bool {
        -0x4001_0001 * self.chunk_size_spec() <= w <= 0x4001_0001 * self.chunk_size_spec()
    }

    /// World coordinates edits may touch; tighter than [`Self::world_in_range`]
    /// so the dirty spill-over to a neighbor chunk stays addressable.
    pub open spec fn world_editable(self, w: int) -> bool {
        -(MAX_CHUNK_COORD as int) * self.chunk_size_spec() <= w <= (MAX_CHUNK_COORD as int)
            * self.chunk_size_spec()
    }

    pub closed spec fn config_wf(self) -> bool {
        &&& valid_chunk_size(self.chunk_size as int)
        &&& valid_texture_size(self.chunk_size as int, self.texture_size as int)
        &&& valid_lod_table(self.chunk_size as int, self.lod.levels@)
    }

    pub closed spec fn data_wf(self) -> bool {
        &&& heights_wf_model(self.height_map(), self.chunk_size as int)
        &&& forall|k: u64| #[trigger]
            self.texture_map().contains_key(k) ==> self.texture_map()[k].len() == self.texture_size
                * self.texture_size * 4
        &&& forall|k: u64| #[trigger]
            self.mesh_map().contains_key(k) ==> chunk_meshes_wf(
                self.mesh_map()[k],
                self.chunk_size as int,
                self.lod.levels@,
            ) && key_in_range(k)
        &&& forall|k: u64| #[trigger]
            self.dirty_map().contains_key(k) ==> key_in_range(k) && match self.dirty_map()[k] {
                DirtyModel::All => true,
                DirtyModel::Points(s) => forall|j: int|
                    0 <= j < s.len() ==> (#[trigger] s[j]).x <= self.chunk_size && s[j].y
                        <= self.chunk_size,
            }
        &&& forall|i: int|
            0 <= i < self.spawn_queue@.len() ==> chunk_in_range(#[trigger] self.spawn_queue@[i])
        &&& forall|i: int|
            0 <= i < self.destroy_queue@.len() ==> chunk_in_range(#[trigger] self.destroy_queue@[i])
    }

    pub closed spec fn maps_wf(self) -> bool {
        &&& self.heights.wf()
        &&& self.textures.wf()
        &&& self.chunks.wf()
        &&& self.dirty.wf()
    }

    pub closed spec fn unloaded_state(self) -> bool {
        &&& !self.loaded
        &&& self.chunk_size == 0
        &&& self.texture_size == 0
        &&& self.lod.levels@.len() == 0
        &&& self.height_map() == Map::<u64, Seq<i64>>::empty()
        &&& self.texture_map() == Map::<u64, Seq<u8>>::empty()
        &&& self.mesh_map() == Map::<u64, Seq<TerrainMesh>>::empty()
        &&& self.dirty_map() == Map::<u64, DirtyModel>::empty()
        &&& self.spawn_queue@.len() == 0
        &&& self.destroy_queue@.len() == 0
    }

    /// The invariant every operation preserves.
    pub closed spec fn wf(self) -> bool {
        &&& self.maps_wf()
        &&& if self.loaded {
            self.config_wf() && self.data_wf()
        } else {
            self.unloaded_state()
        }
    }

    /// A terrain with nothing in it, not yet initialized.
    pub fn unloaded() -> (t: MasterTerrain)
        ensures
            t.wf(),
            !t.is_loaded(),
            t.unloaded_state(),
    {
        let t = MasterTerrain {
            loaded: false,
            chunk_size: 0,
            texture_size: 0,
            heights: VecMap::new(),
            textures: VecMap::new(),
            lod: LOD { levels: Vec::new() },
            chunks: VecMap::new(),
            spawn_queue: Vec::new(),
            destroy_queue: Vec::new(),
            dirty: VecMap::new(),
        };
        proof {
            assert(t.height_map() =~= Map::<u64, Seq<i64>>::empty());
            assert(t.texture_map() =~= Map::<u64, Seq<u8>>::empty());
            assert(t.mesh_map() =~= Map::<u64, Seq<TerrainMesh>>::empty());
            assert(t.dirty_map() =~= Map::<u64, DirtyModel>::empty());
        }
        t
    }

    /// Drops every chunk, mesh, texture and queue entry and returns the
    /// terrain to its uninitialized state.
    pub fn reset(&mut self)
        ensures
            final(self).wf(),
            !final(self).is_loaded(),
            final(self).unloaded_state(),
    {
        *self = MasterTerrain::unloaded();
    }

    pub fn loaded(&self) -> (b: bool)
        ensures
            b == self.is_loaded(),
    {
        self.loaded
    }

    pub fn chunk_size(&self) -> (s: usize)
        ensures
            s == self.chunk_size_spec(),
    {
        self.chunk_size
    }

    pub fn texture_size(&self) -> (s: usize)
        ensures
            s == self.texture_size_spec(),
    {
        self.texture_size
    }

    /// Texture pixels per world unit.
    pub fn pixels_per_tile(&self) -> (p: usize)
        requires
            self.wf(),
            self.is_loaded(),
        ensures
            p == self.texture_size_spec() / self.chunk_size_spec(),
            p >= 1,
    {
        proof {
            vstd::arithmetic::div_mod::lemma_fundamental_div_mod(
                self.texture_size as int,
                self.chunk_size as int,
            );
            lemma_div_bound(self.texture_size as int, self.chunk_size as int, 0x4000_0000);
            assert(self.texture_size as int / self.chunk_size as int >= 1) by {
                vstd::arithmetic::div_mod::lemma_div_non_zero(
                    self.texture_size as int,
                    self.chunk_size as int,
                );
            };
        }
        self.texture_size / self.chunk_size
    }

    /// The LOD table, for persistence and the visibility pass.
    pub fn lod_levels(&self) -> (levels: &Vec<LODLevel>)
        ensures
            levels@ == self.lod_table(),
    {
        &self.lod.levels
    }

    /// The reduction factor drawn from this terrain's LOD table for a
    /// chunk seen from `distance` distance units; `None` only for a
    /// distance beyond the whole table, which a valid table never has.
    pub fn select_lod(&self, distance: u64) -> (r: Option<usize>)
        requires
            self.wf(),
            self.is_loaded(),
        ensures
            r == selected(self.lod_table(), distance),
            distance < u64::MAX ==> r is Some,
    {
        proof {
            if distance < u64::MAX {
                LOD::lemma_selection_total(self.lod.levels@, distance);
            }
        }
        self.lod.get(distance)
    }

    /// Initializes the terrain: validates the configuration, clears all
    /// state, and queues the origin chunk for spawning.
    pub fn init(&mut self, chunk_size: usize, texture_size: usize, lod: Vec<LODLevel>) -> (r:
        Result<(), TerrainError>)
        requires
            old(self).wf(),
        ensures
            final(self).wf(),
            r is Ok <==> valid_chunk_size(chunk_size as int) && valid_texture_size(
                chunk_size as int,
                texture_size as int,
            ) && valid_lod_table(chunk_size as int, lod@),
            r == Err::<(), TerrainError>(TerrainError::InvalidChunkSize) <==> !valid_chunk_size(
                chunk_size as int,
            ),
            r == Err::<(), TerrainError>(TerrainError::InvalidTextureSize) <==> valid_chunk_size(
                chunk_size as int,
            ) && !valid_texture_size(chunk_size as int, texture_size as int),
            r is Err ==> *final(self) == *old(self),
            r is Ok ==> {
                &&& final(self).is_loaded()
                &&& final(self).chunk_size_spec() == chunk_size
                &&& final(self).texture_size_spec() == texture_size
                &&& final(self).lod_table() == lod@
                &&& final(self).height_map() == Map::<u64, Seq<i64>>::empty()
                &&& final(self).texture_map() == Map::<u64, Seq<u8>>::empty()
                &&& final(self).mesh_map() == Map::<u64, Seq<TerrainMesh>>::empty()
                &&& final(self).dirty_map() == Map::<u64, DirtyModel>::empty()
                &&& final(self).spawn_queue_spec() == seq![ChunkPos { x: 0, y: 0 }]
                &&& final(self).destroy_queue_spec().len() == 0
            },
    {
        match self.begin_restore(chunk_size, texture_size, lod) {
            Ok(()) => {
                self.spawn_chunk(ChunkPos { x: 0, y: 0 });
                proof {
                    assert(self.spawn_queue_spec() =~= seq![ChunkPos { x: 0, y: 0 }]);
                }
                Ok(())
            },
            Err(e) => Err(e),
        }
    }

    /// Validates a configuration and clears all state without queueing
    /// any chunk; a restore from saved data starts here, then re-spawns
    /// each saved chunk before reinstating its height data.
    pub fn begin_restore(&mut self, chunk_size: usize, texture_size: usize, lod: Vec<LODLevel>)
        -> (r: Result<(), TerrainError>)
        requires
            old(self).wf(),
        ensures
            final(self).wf(),
            r is Ok <==> valid_chunk_size(chunk_size as int) && valid_texture_size(
                chunk_size as int,
                texture_size as int,
            ) && valid_lod_table(chunk_size as int, lod@),
            r == Err::<(), TerrainError>(TerrainError::InvalidChunkSize) <==> !valid_chunk_size(
                chunk_size as int,
            ),
            r == Err::<(), TerrainError>(TerrainError::InvalidTextureSize) <==> valid_chunk_size(
                chunk_size as int,
            ) && !valid_texture_size(chunk_size as int, texture_size as int),
            r is Err ==> *final(self) == *old(self),
            r is Ok ==> {
                &&& final(self).is_loaded()
                &&& final(self).chunk_size_spec() == chunk_size
                &&& final(self).texture_size_spec() == texture_size
                &&& final(self).lod_table() == lod@
                &&& final(self).height_map() == Map::<u64, Seq<i64>>::empty()
                &&& final(self).texture_map() == Map::<u64, Seq<u8>>::empty()
                &&& final(self).mesh_map() == Map::<u64, Seq<TerrainMesh>>::empty()
                &&& final(self).dirty_map() == Map::<u64, DirtyModel>::empty()
                &&& final(self).spawn_queue_spec().len() == 0
                &&& final(self).destroy_queue_spec().len() == 0
            },
    {
        if chunk_size < 1 || chunk_size > MAX_CHUNK_SIZE {
            return Err(TerrainError::InvalidChunkSize);
        }
        if texture_size < chunk_size || texture_size > MAX_TEXTURE_SIZE || texture_size
            % chunk_size != 0 {
            return Err(TerrainError::InvalidTextureSize);
        }
        if !check_lod_table(chunk_size, &lod) {
            return Err(TerrainError::InvalidLodTable);
        }
        let t = MasterTerrain {
            loaded: true,
            chunk_size,
            texture_size,
            heights: VecMap::new(),
            textures: VecMap::new(),
            lod: LOD { levels: lod },
            chunks: VecMap::new(),
            spawn_queue: Vec::new(),
            destroy_queue: Vec::new(),
            dirty: VecMap::new(),
        };
        proof {
            assert(t.height_map() =~= Map::<u64, Seq<i64>>::empty());
            assert(t.texture_map() =~= Map::<u64, Seq<u8>>::empty());
            assert(t.mesh_map() =~= Map::<u64, Seq<TerrainMesh>>::empty());
            assert(t.dirty_map() =~= Map::<u64, DirtyModel>::empty());
        }
        *self = t;
        Ok(())
    }
}

/// Checks a LOD table against a chunk side: ascending thresholds, a final
/// unbounded threshold, and reduction factors that divide the side.
fn check_lod_table(chunk_size: usize, levels: &Vec<LODLevel>) -> (r: bool)
    requires
        1 <= chunk_size <= MAX_CHUNK_SIZE,
    ensures
        r == valid_lod_table(chunk_size as int, levels@),
{
    let n = levels.len();
    if n == 0 {
        return false;
    }
    if levels[n - 1].max_view_distance != u64::MAX {
        return false;
    }
    let mut i: usize = 0;
    while i < n
        invariant
            n == levels@.len(),
            1 <= chunk_size <= MAX_CHUNK_SIZE,
            i <= n,
            forall|a: int, b: int|
                0 <= a <= b < i ==> #[trigger] levels@[a].max_view_distance
                    <= #[trigger] levels@[b].max_view_distance,
            forall|a: int|
                0 <= a < i ==> (#[trigger] levels@[a]).mesh_reduce <= 12 && chunk_size as int
                    % pow2(levels@[a].mesh_reduce as nat) as int == 0 && chunk_size as int / pow2(
                    levels@[a].mesh_reduce as nat,
                ) as int >= 1,
        decreases n - i,
    {
        if i > 0 && levels[i - 1].max_view_distance > levels[i].max_view_distance {
            return false;
        }
        let reduce = levels[i].mesh_reduce;
        if reduce > 12 {
            return false;
        }
        let step = pow2_exec(reduce);
        if chunk_size % step != 0 || chunk_size / step < 1 {
            return false;
        }
        proof {
            assert forall|a: int, b: int| 0 <= a <= b < i + 1 implies #[trigger]
            levels@[a].max_view_distance <= #[trigger] levels@[b].max_view_distance by {};
        }
        i += 1;
    }
    true
}

/// Parts of the terrain a height read or write leaves alone.
pub open spec fn eq_except_heights_and_dirty(a: MasterTerrain, b: MasterTerrain) -> bool {
    &&& b.is_loaded() == a.is_loaded()
    &&& b.chunk_size_spec() == a.chunk_size_spec()
    &&& b.texture_size_spec() == a.texture_size_spec()
    &&& b.lod_table() == a.lod_table()
    &&& b.texture_map() == a.texture_map()
    &&& b.mesh_map() == a.mesh_map()
    &&& b.spawn_queue_spec() == a.spawn_queue_spec()
    &&& b.destroy_queue_spec() == a.destroy_queue_spec()
}

impl MasterTerrain {
    /// The chunk index holding a world position.
    pub fn world_to_chunk_pos(&self, wx: i64, wy: i64) -> (c: ChunkPos)
        requires
            self.wf(),
            self.is_loaded(),
            self.world_in_range(wx as int),
            self.world_in_range(wy as int),
        ensures
            c == chunk_of(self.chunk_size_spec(), wx as int, wy as int),
            -0x4001_0001 <= c.x <= 0x4001_0001,
            -0x4001_0001 <= c.y <= 0x4001_0001,
    {
        let size = self.chunk_size as i64;
        proof {
            lemma_div_bound(wx as int, size as int, 0x4001_0001);
            lemma_div_bound(wy as int, size as int, 0x4001_0001);
        }
        let cx = floor_div(wx, size);
        let cy = floor_div(wy, size);
        ChunkPos { x: cx as i32, y: cy as i32 }
    }

    /// The offset of a world position inside its chunk, in `[0, chunk_size)`
    /// on each axis.
    pub fn world_to_local_pos(&self, wx: i64, wy: i64) -> (l: (usize, usize))
        requires
            self.wf(),
            self.is_loaded(),
            self.world_in_range(wx as int),
            self.world_in_range(wy as int),
        ensures
            l.0 == local_coord(wx as int, self.chunk_size_spec()),
            l.1 == local_coord(wy as int, self.chunk_size_spec()),
            l.0 < self.chunk_size_spec(),
            l.1 < self.chunk_size_spec(),
    {
        let size = self.chunk_size as i64;
        proof {
            assert(0x4001_0001 * size as int <= 0x4001_0001 * 0x1000) by (nonlinear_arith)
                requires
                    1 <= size <= 0x1000,
            ;
        }
        let lx = floor_rem(wx, size);
        let ly = floor_rem(wy, size);
        (lx as usize, ly as usize)
    }

    /// The chunk index holding a texture-space (pixel) position.
    pub fn pixel_to_chunk_pos(&self, px: i64, py: i64) -> (c: ChunkPos)
        requires
            self.wf(),
            self.is_loaded(),
            -0x4001_0001 * self.texture_size_spec() <= px <= 0x4001_0001
                * self.texture_size_spec(),
            -0x4001_0001 * self.texture_size_spec() <= py <= 0x4001_0001
                * self.texture_size_spec(),
        ensures
            c.x as int == chunk_coord(px as int, self.texture_size_spec()),
            c.y as int == chunk_coord(py as int, self.texture_size_spec()),
    {
        let size = self.texture_size as i64;
        proof {
            lemma_div_bound(px as int, size as int, 0x4001_0001);
            lemma_div_bound(py as int, size as int, 0x4001_0001);
        }
        let cx = floor_div(px, size);
        let cy = floor_div(py, size);
        ChunkPos { x: cx as i32, y: cy as i32 }
    }

    /// The offset of a pixel position inside the given chunk's texture.
    /// The chunk must be the one holding the pixel.
    pub fn pixel_to_local_pixel_pos_with_chunk(&self, px: i64, py: i64, chunk: ChunkPos) -> (l: (
        usize,
        usize,
    ))
        requires
            self.wf(),
            self.is_loaded(),
            -0x4001_0001 * self.texture_size_spec() <= px <= 0x4001_0001
                * self.texture_size_spec(),
            -0x4001_0001 * self.texture_size_spec() <= py <= 0x4001_0001
                * self.texture_size_spec(),
            chunk.x as int == chunk_coord(px as int, self.texture_size_spec()),
            chunk.y as int == chunk_coord(py as int, self.texture_size_spec()),
        ensures
            l.0 == local_coord(px as int, self.texture_size_spec()),
            l.1 == local_coord(py as int, self.texture_size_spec()),
            l.0 < self.texture_size_spec(),
            l.1 < self.texture_size_spec(),
            px == chunk.x as int * self.texture_size_spec() + l.0,
            py == chunk.y as int * self.texture_size_spec() + l.1,
    {
        let size = self.texture_size as i64;
        proof {
            assert(0x4001_0001 * size as int <= 0x4001_0001 * 0x4000) by (nonlinear_arith)
                requires
                    1 <= size <= 0x4000,
            ;
            lemma_coord_round_trip(px as int, size as int);
            lemma_coord_round_trip(py as int, size as int);
        }
        let lx = floor_rem(px, size);
        let ly = floor_rem(py, size);
        (lx as usize, ly as usize)
    }

    /// Whether the chunk is registered (has meshes).
    pub fn does_chunk_exist(&self, pos: &ChunkPos) -> (b: bool)
        requires
            self.wf(),
        ensures
            b == self.chunk_dom().contains(pos.key_spec()),
    {
        self.chunks.contains_key(pos.key())
    }

    /// How many registered chunks there are.
    pub fn chunk_count(&self) -> (n: usize)
        requires
            self.wf(),
        ensures
            n == self.chunk_dom().len(),
    {
        proof {
            assert(self.chunks@.dom() =~= self.mesh_map().dom());
        }
        self.chunks.len()
    }

    /// How many of the four edge neighbors of `pos` exist, 0 to 4.
    pub fn count_neighbors(&self, pos: &ChunkPos) -> (n: usize)
        requires
            self.wf(),
            chunk_in_range(*pos),
        ensures
            n == neighbor_count_model(self.chunk_dom(), *pos),
            n <= 4,
    {
        let mut n: usize = 0;
        if self.does_chunk_exist(&ChunkPos { x: pos.x, y: pos.y + 1 }) {
            n += 1;
        }
        if self.does_chunk_exist(&ChunkPos { x: pos.x, y: pos.y - 1 }) {
            n += 1;
        }
        if self.does_chunk_exist(&ChunkPos { x: pos.x + 1, y: pos.y }) {
            n += 1;
        }
        if self.does_chunk_exist(&ChunkPos { x: pos.x - 1, y: pos.y }) {
            n += 1;
        }
        n
    }

    /// Queues a chunk to be created by the next spawn pass.
    pub fn spawn_chunk(&mut self, pos: ChunkPos)
        requires
            old(self).wf(),
            old(self).is_loaded(),
            chunk_in_range(pos),
        ensures
            final(self).wf(),
            final(self).is_loaded(),
            final(self).spawn_queue_spec() == old(self).spawn_queue_spec().push(pos),
            final(self).destroy_queue_spec() == old(self).destroy_queue_spec(),
            eq_except_queues(*old(self), *final(self)),
    {
        self.spawn_queue.push(pos);
        proof {
            assert(self.texture_map() == old(self).texture_map());
            assert(self.mesh_map() == old(self).mesh_map());
            assert(self.dirty_map() == old(self).dirty_map());
            assert(self.height_map() == old(self).height_map());
            assert forall|i: int| 0 <= i < self.spawn_queue@.len() implies chunk_in_range(
                #[trigger] self.spawn_queue@[i],
            ) by {
                if i < old(self).spawn_queue@.len() {
                    assert(old(self).spawn_queue_spec()[i] == self.spawn_queue@[i]);
                }
            };
        }
    }

    /// Queues a chunk to be removed by the next destroy pass.
    pub fn destroy_chunk(&mut self, pos: ChunkPos)
        requires
            old(self).wf(),
            old(self).is_loaded(),
            chunk_in_range(pos),
        ensures
            final(self).wf(),
            final(self).is_loaded(),
            final(self).destroy_queue_spec() == old(self).destroy_queue_spec().push(pos),
            final(self).spawn_queue_spec() == old(self).spawn_queue_spec(),
            eq_except_queues(*old(self), *final(self)),
    {
        self.destroy_queue.push(pos);
        proof {
            assert(self.texture_map() == old(self).texture_map());
            assert(self.mesh_map() == old(self).mesh_map());
            assert(self.dirty_map() == old(self).dirty_map());
            assert(self.height_map() == old(self).height_map());
            assert forall|i: int| 0 <= i < self.destroy_queue@.len() implies chunk_in_range(
                #[trigger] self.destroy_queue@[i],
            ) by {
                if i < old(self).destroy_queue@.len() {
                    assert(old(self).destroy_queue_spec()[i] == self.destroy_queue@[i]);
                }
            };
        }
    }

    /// The mesh this chunk shows at reduction factor `mesh_reduce`, if
    /// the chunk exists and the LOD table has such a level.
    pub fn get_chunk_mesh(&self, pos: &ChunkPos, mesh_reduce: usize) -> (r: Option<&TerrainMesh>)
        requires
            self.wf(),
            self.is_loaded(),
        ensures
            match r {
                Some(m) => self.chunk_dom().contains(pos.key_spec()) && exists|i: int|
                    0 <= i < self.mesh_map()[pos.key_spec()].len() && *m == self.mesh_map()[
                        pos.key_spec()
                    ][i] && m.mesh_reduce == mesh_reduce,
                None => !self.chunk_dom().contains(pos.key_spec()) || forall|i: int|
                    0 <= i < self.mesh_map()[pos.key_spec()].len() ==> (#[trigger] self.mesh_map()[
                        pos.key_spec()
                    ][i]).mesh_reduce != mesh_reduce,
            },
    {
        match self.chunks.get(pos.key()) {
            Some(meshes) => {
                let n = meshes.len();
                let mut i: usize = 0;
                while i < n
                    invariant
                        n == meshes@.len(),
                        i <= n,
                        self.wf(),
                        self.mesh_map().contains_key(pos.key_spec()),
                        meshes@ == self.mesh_map()[pos.key_spec()],
                        forall|j: int|
                            0 <= j < i ==> (#[trigger] meshes@[j]).mesh_reduce != mesh_reduce,
                    decreases n - i,
                {
                    if meshes[i].mesh_reduce == mesh_reduce {
                        return Some(&meshes[i]);
                    }
                    i += 1;
                }
                None
            },
            None => None,
        }
    }
}

/// How many of the four edge neighbors of `pos` are in the chunk set.
pub open spec fn neighbor_count_model(dom: Set<u64>, pos: ChunkPos) -> int {
    (if dom.contains((ChunkPos { x: pos.x, y: (pos.y + 1) as i32 }).key_spec()) {
        1int
    } else {
        0int
    }) + (if dom.contains((ChunkPos { x: pos.x, y: (pos.y - 1) as i32 }).key_spec()) {
        1int
    } else {
        0int
    }) + (if dom.contains((ChunkPos { x: (pos.x + 1) as i32, y: pos.y }).key_spec()) {
        1int
    } else {
        0int
    }) + (if dom.contains((ChunkPos { x: (pos.x - 1) as i32, y: pos.y }).key_spec()) {
        1int
    } else {
        0int
    })
}

/// Parts of the terrain that queueing a request leaves alone.
pub open spec fn eq_except_queues(a: MasterTerrain, b: MasterTerrain) -> bool {
    &&& b.is_loaded() == a.is_loaded()
    &&& b.chunk_size_spec() == a.chunk_size_spec()
    &&& b.texture_size_spec() == a.texture_size_spec()
    &&& b.lod_table() == a.lod_table()
    &&& b.height_map() == a.height_map()
    &&& b.texture_map() == a.texture_map()
    &&& b.mesh_map() == a.mesh_map()
    &&& b.dirty_map() == a.dirty_map()
}

impl MasterTerrain {
    /// Marks a whole chunk's meshes for refresh; idempotent, and final:
    /// later single-point marks cannot narrow it.
    pub fn mark_all(&mut self, chunk: ChunkPos)
        requires
            old(self).wf(),
            old(self).is_loaded(),
            chunk_in_range(chunk),
        ensures
            final(self).wf(),
            final(self).is_loaded(),
            final(self).dirty_map() == mark_all_model(old(self).dirty_map(), chunk.key_spec()),
            final(self).height_map() == old(self).height_map(),
            eq_except_heights_and_dirty(*old(self), *final(self)),
    {
        proof {
            crate::lemma_chunk_key_round_trip(chunk);
        }
        self.dirty.insert(chunk.key(), DirtyRegion::AllVertices);
        proof {
            assert(self.texture_map() == old(self).texture_map());
            assert(self.mesh_map() == old(self).mesh_map());
            assert(self.height_map() == old(self).height_map());
            assert(self.dirty_map() =~= mark_all_model(old(self).dirty_map(), chunk.key_spec()));
        }
    }

    /// Marks one lattice point of a chunk for refresh; a no-op on a chunk
    /// already marked whole.
    pub fn mark_point(&mut self, chunk: ChunkPos, p: LocalPoint)
        requires
            old(self).wf(),
            old(self).is_loaded(),
            -0x4000_0001 <= chunk.x <= 0x4000_0001,
            -0x4000_0001 <= chunk.y <= 0x4000_0001,
            p.x <= old(self).chunk_size_spec(),
            p.y <= old(self).chunk_size_spec(),
        ensures
            final(self).wf(),
            final(self).is_loaded(),
            final(self).dirty_map() == mark_point_model(
                old(self).dirty_map(),
                chunk.key_spec(),
                p,
            ),
            final(self).height_map() == old(self).height_map(),
            eq_except_heights_and_dirty(*old(self), *final(self)),
    {
        proof {
            crate::lemma_chunk_key_round_trip(chunk);
        }
        let k = chunk.key();
        match self.dirty.remove(k) {
            None => {
                let mut v: Vec<LocalPoint> = Vec::new();
                v.push(p);
                proof {
                    assert(v@ =~= seq![p]);
                }
                self.dirty.insert(k, DirtyRegion::Points(v));
            },
            Some(DirtyRegion::AllVertices) => {
                self.dirty.insert(k, DirtyRegion::AllVertices);
            },
            Some(DirtyRegion::Points(mut v)) => {
                v.push(p);
                self.dirty.insert(k, DirtyRegion::Points(v));
            },
        }
        proof {
            assert(self.texture_map() == old(self).texture_map());
            assert(self.mesh_map() == old(self).mesh_map());
            assert(self.height_map() == old(self).height_map());
            assert(self.dirty_map() =~= mark_point_model(
                old(self).dirty_map(),
                chunk.key_spec(),
                p,
            ));
        }
    }

    /// The height of local cell `(lx, ly)` of the given chunk, generating
    /// and storing the chunk's height array from the noise source if no
    /// cell of it was stored yet.
    pub fn get_local_height(&mut self, lx: usize, ly: usize, chunk: ChunkPos) -> (h: i64)
        requires
            old(self).wf(),
            old(self).is_loaded(),
            lx < old(self).chunk_size_spec(),
            ly < old(self).chunk_size_spec(),
            -0x4001_0001 <= chunk.x <= 0x4001_0001,
            -0x4001_0001 <= chunk.y <= 0x4001_0001,
        ensures
            final(self).wf(),
            final(self).is_loaded(),
            h == stored_or_generated(
                old(self).height_map(),
                chunk,
                old(self).chunk_size_spec(),
            )[cell_index(old(self).chunk_size_spec(), lx as int, ly as int)],
            -HEIGHT_LIMIT <= h <= HEIGHT_LIMIT,
            final(self).height_map() == old(self).height_map().insert(
                chunk.key_spec(),
                stored_or_generated(old(self).height_map(), chunk, old(self).chunk_size_spec()),
            ),
            final(self).dirty_map() == old(self).dirty_map(),
            eq_except_heights_and_dirty(*old(self), *final(self)),
    {
        let k = chunk.key();
        let ghost size = self.chunk_size_spec();
        if !self.heights.contains_key(k) {
            let g = gen_chunk(chunk.x, chunk.y, self.chunk_size);
            self.heights.insert(k, g);
        } else {
            proof {
                let hv = self.heights@[k];
                assert(self.height_map()[k] == hv@);
                assert(self.heights@.insert(k, hv) =~= self.heights@);
                assert(self.height_map().insert(k, self.height_map()[k]) =~= self.height_map());
            }
        }
        proof {
            assert(self.height_map() =~= old(self).height_map().insert(
                k,
                stored_or_generated(old(self).height_map(), chunk, size),
            ));
            assert(self.texture_map() == old(self).texture_map());
            assert(self.mesh_map() == old(self).mesh_map());
            assert(self.dirty_map() == old(self).dirty_map());
            lemma_cell_index_in_range(size, lx as int, ly as int);
            assert(self.height_map().contains_key(k));
        }
        let idx = lx + ly * self.chunk_size;
        match self.heights.get(k) {
            Some(hv) => {
                proof {
                    assert(hv@ == self.height_map()[k]);
                }
                hv[idx]
            },
            None => {
                proof {
                    assert(false);
                }
                0
            },
        }
    }

    /// The height at a world position, generating the chunk's height
    /// array from the noise source if it is not stored yet.
    pub fn get_height(&mut self, wx: i64, wy: i64) -> (h: i64)
        requires
            old(self).wf(),
            old(self).is_loaded(),
            old(self).world_in_range(wx as int),
            old(self).world_in_range(wy as int),
        ensures
            final(self).wf(),
            final(self).is_loaded(),
            h == height_at_model(
                old(self).height_map(),
                old(self).chunk_size_spec(),
                wx as int,
                wy as int,
            ),
            -HEIGHT_LIMIT <= h <= HEIGHT_LIMIT,
            final(self).height_map() == old(self).height_map().insert(
                chunk_of(old(self).chunk_size_spec(), wx as int, wy as int).key_spec(),
                stored_or_generated(
                    old(self).height_map(),
                    chunk_of(old(self).chunk_size_spec(), wx as int, wy as int),
                    old(self).chunk_size_spec(),
                ),
            ),
            final(self).dirty_map() == old(self).dirty_map(),
            eq_except_heights_and_dirty(*old(self), *final(self)),
    {
        let c = self.world_to_chunk_pos(wx, wy);
        let l = self.world_to_local_pos(wx, wy);
        self.get_local_height(l.0, l.1, c)
    }

    /// Writes the height of the world position's cell and marks the
    /// touched lattice point — plus the shared-edge points of the west,
    /// south, and diagonal neighbors where it lies on an edge — dirty.
    pub fn set_height(&mut self, wx: i64, wy: i64, value: i64)
        requires
            old(self).wf(),
            old(self).is_loaded(),
            old(self).world_editable(wx as int),
            old(self).world_editable(wy as int),
            -HEIGHT_LIMIT <= value <= HEIGHT_LIMIT,
        ensures
            final(self).wf(),
            final(self).is_loaded(),
            final(self).height_map() == set_height_model(
                old(self).height_map(),
                old(self).chunk_size_spec(),
                wx as int,
                wy as int,
                value,
            ),
            final(self).dirty_map() == mark_write_model(
                old(self).dirty_map(),
                chunk_of(old(self).chunk_size_spec(), wx as int, wy as int),
                old(self).chunk_size_spec() as usize,
                local_coord(wx as int, old(self).chunk_size_spec()) as usize,
                local_coord(wy as int, old(self).chunk_size_spec()) as usize,
            ),
            eq_except_heights_and_dirty(*old(self), *final(self)),
    {
        let ghost size = self.chunk_size_spec();
        proof {
            assert(0x4000_0000 * size <= 0x4001_0001 * size) by (nonlinear_arith)
                requires
                    size >= 1,
            ;
            lemma_div_bound(wx as int, size, 0x4000_0000);
            lemma_div_bound(wy as int, size, 0x4000_0000);
        }
        let c = self.world_to_chunk_pos(wx, wy);
        let l = self.world_to_local_pos(wx, wy);
        let _ = self.get_local_height(l.0, l.1, c);
        let k = c.key();
        proof {
            lemma_cell_index_in_range(size, l.0 as int, l.1 as int);
            assert(self.height_map().contains_key(k));
            assert(self.height_map()[k].len() == size * size);
        }
        let idx = l.0 + l.1 * self.chunk_size;
        match self.heights.remove(k) {
            Some(mut hv) => {
                hv[idx] = value;
                self.heights.insert(k, hv);
            },
            None => {
                proof {
                    assert(false);
                }
            },
        }
        proof {
            assert(self.height_map() =~= set_height_model(
                old(self).height_map(),
                size,
                wx as int,
                wy as int,
                value,
            ));
            assert(self.texture_map() == old(self).texture_map());
            assert(self.mesh_map() == old(self).mesh_map());
        }
        let cs = self.chunk_size;
        self.mark_point(c, LocalPoint { x: l.0, y: l.1 });
        if l.0 == 0 {
            self.mark_point(ChunkPos { x: c.x - 1, y: c.y }, LocalPoint { x: cs, y: l.1 });
        }
        if l.1 == 0 {
            self.mark_point(ChunkPos { x: c.x, y: c.y - 1 }, LocalPoint { x: l.0, y: cs });
        }
        if l.0 == 0 && l.1 == 0 {
            self.mark_point(ChunkPos { x: c.x - 1, y: c.y - 1 }, LocalPoint { x: cs, y: cs });
        }
    }

    /// Adds a delta to the height at a world position; the result is
    /// clamped into the storable range.
    pub fn add_height(&mut self, wx: i64, wy: i64, delta: i64)
        requires
            old(self).wf(),
            old(self).is_loaded(),
            old(self).world_editable(wx as int),
            old(self).world_editable(wy as int),
            -HEIGHT_LIMIT <= delta <= HEIGHT_LIMIT,
        ensures
            final(self).wf(),
            final(self).is_loaded(),
            final(self).height_map() == set_height_model(
                old(self).height_map(),
                old(self).chunk_size_spec(),
                wx as int,
                wy as int,
                crate::noisegen::clamped(
                    (height_at_model(
                        old(self).height_map(),
                        old(self).chunk_size_spec(),
                        wx as int,
                        wy as int,
                    ) + delta) as i64,
                ),
            ),
            final(self).dirty_map() == mark_write_model(
                old(self).dirty_map(),
                chunk_of(old(self).chunk_size_spec(), wx as int, wy as int),
                old(self).chunk_size_spec() as usize,
                local_coord(wx as int, old(self).chunk_size_spec()) as usize,
                local_coord(wy as int, old(self).chunk_size_spec()) as usize,
            ),
            eq_except_heights_and_dirty(*old(self), *final(self)),
    {
        let ghost size = self.chunk_size_spec();
        proof {
            assert(0x4000_0000 * size <= 0x4001_0001 * size) by (nonlinear_arith)
                requires
                    size >= 1,
            ;
        }
        let cur = self.get_height(wx, wy);
        let raw = cur + delta;
        let v = if raw < -HEIGHT_LIMIT {
            -HEIGHT_LIMIT
        } else if raw > HEIGHT_LIMIT {
            HEIGHT_LIMIT
        } else {
            raw
        };
        self.set_height(wx, wy, v);
        proof {
            let c = chunk_of(size, wx as int, wy as int);
            assert(final(self).height_map() =~= set_height_model(
                old(self).height_map(),
                size,
                wx as int,
                wy as int,
                crate::noisegen::clamped(raw as i64),
            ));
        }
    }
}

/// A freshly built chunk texture: opaque white, four bytes per pixel.
pub open spec fn white_texture(tex_size: int) -> Seq<u8> {
    Seq::new((tex_size * tex_size * 4) as nat, |i: int| 255u8)
}

/// What a chunk's mesh looks like straight from the builder: a flat grid
/// at the level's reduction factor, heights zero, normals up.
pub open spec fn is_fresh_mesh(m: TerrainMesh, size: int, reduce: int) -> bool {
    &&& m.wf()
    &&& m.mesh_reduce == reduce
    &&& m.step == pow2(m.mesh_reduce as nat)
    &&& m.mesh_size * m.step == size
    &&& m.heights@ == Seq::new(((m.mesh_size + 1) * (m.mesh_size + 1)) as nat, |i: int| 0i64)
    &&& m.normals@ == Seq::new(
        ((m.mesh_size + 1) * (m.mesh_size + 1)) as nat,
        |i: int| NormalVec { x: 0, y: 1, z: 0 },
    )
    &&& m.indices@ == grid_indices(m.mesh_size as int)
}

/// One fresh mesh per LOD level, in table order.
pub open spec fn fresh_meshes(ms: Seq<TerrainMesh>, size: int, levels: Seq<LODLevel>) -> bool {
    &&& ms.len() == levels.len()
    &&& forall|i: int|
        0 <= i < ms.len() ==> is_fresh_mesh(
            #[trigger] ms[i],
            size,
            levels[i].mesh_reduce as int,
        )
}

/// Effect of one spawn request on the set of existing chunks: skipped if
/// the chunk exists, refused if a non-empty terrain offers it no edge
/// neighbor, created otherwise.
pub open spec fn spawn_step_dom(dom: Set<u64>, p: ChunkPos) -> Set<u64> {
    if dom.contains(p.key_spec()) {
        dom
    } else if dom.len() > 0 && neighbor_count_model(dom, p) == 0 {
        dom
    } else {
        dom.insert(p.key_spec())
    }
}

/// The chunk set after a whole spawn queue is processed, front first.
pub open spec fn spawn_fold_dom(dom: Set<u64>, q: Seq<ChunkPos>) -> Set<u64>
    decreases q.len(),
{
    if q.len() == 0 {
        dom
    } else {
        spawn_fold_dom(spawn_step_dom(dom, q[0]), q.drop_first())
    }
}

pub proof fn lemma_spawn_fold_snoc(dom: Set<u64>, q: Seq<ChunkPos>, p: ChunkPos)
    ensures
        spawn_fold_dom(dom, q.push(p)) == spawn_step_dom(spawn_fold_dom(dom, q), p),
    decreases q.len(),
{
    if q.len() == 0 {
        assert(q.push(p).drop_first() =~= Seq::<ChunkPos>::empty());
        assert(q.push(p)[0] == p);
        assert(spawn_fold_dom(dom, q) == dom);
        assert(spawn_fold_dom(spawn_step_dom(dom, p), Seq::<ChunkPos>::empty()) == spawn_step_dom(
            dom,
            p,
        ));
    } else {
        assert(q.push(p)[0] == q[0]);
        assert(q.push(p).drop_first() =~= q.drop_first().push(p));
        lemma_spawn_fold_snoc(spawn_step_dom(dom, q[0]), q.drop_first(), p);
    }
}

/// Law: a spawn request for a chunk with no existing edge neighbor, on a
/// terrain that already has at least one chunk, creates nothing. Only
/// the first chunk of a fresh terrain is exempt.
pub proof fn lemma_spawn_needs_neighbor(dom: Set<u64>, p: ChunkPos)
    requires
        dom.len() > 0,
        !dom.contains(p.key_spec()),
        neighbor_count_model(dom, p) == 0,
    ensures
        spawn_step_dom(dom, p) == dom,
{
}

/// Effect of one destroy request on the set of existing chunks: refused
/// when only one chunk remains, skipped when the chunk does not exist.
pub open spec fn destroy_step_dom(dom: Set<u64>, p: ChunkPos) -> Set<u64> {
    if dom.len() <= 1 {
        dom
    } else if !dom.contains(p.key_spec()) {
        dom
    } else {
        dom.remove(p.key_spec())
    }
}

/// The chunk set after a whole destroy queue is processed, front first.
pub open spec fn destroy_fold_dom(dom: Set<u64>, q: Seq<ChunkPos>) -> Set<u64>
    decreases q.len(),
{
    if q.len() == 0 {
        dom
    } else {
        destroy_fold_dom(destroy_step_dom(dom, q[0]), q.drop_first())
    }
}

pub proof fn lemma_destroy_fold_snoc(dom: Set<u64>, q: Seq<ChunkPos>, p: ChunkPos)
    ensures
        destroy_fold_dom(dom, q.push(p)) == destroy_step_dom(destroy_fold_dom(dom, q), p),
    decreases q.len(),
{
    if q.len() == 0 {
        assert(q.push(p).drop_first() =~= Seq::<ChunkPos>::empty());
        assert(q.push(p)[0] == p);
        assert(destroy_fold_dom(dom, q) == dom);
        assert(destroy_fold_dom(destroy_step_dom(dom, p), Seq::<ChunkPos>::empty())
            == destroy_step_dom(dom, p));
    } else {
        assert(q.push(p)[0] == q[0]);
        assert(q.push(p).drop_first() =~= q.drop_first().push(p));
        lemma_destroy_fold_snoc(destroy_step_dom(dom, q[0]), q.drop_first(), p);
    }
}

/// Law: a terrain that has a chunk keeps at least one, whatever destroy
/// requests are processed — the last chunk cannot be destroyed.
pub proof fn lemma_last_chunk_survives(dom: Set<u64>, q: Seq<ChunkPos>)
    requires
        dom.finite(),
        dom.len() >= 1,
    ensures
        destroy_fold_dom(dom, q).finite(),
        destroy_fold_dom(dom, q).len() >= 1,
        destroy_fold_dom(dom, q).subset_of(dom),
    decreases q.len(),
{
    if q.len() > 0 {
        let d1 = destroy_step_dom(dom, q[0]);
        assert(d1.finite() && d1.len() >= 1 && d1.subset_of(dom));
        lemma_last_chunk_survives(d1, q.drop_first());
    }
}

impl MasterTerrain {
    /// Returns every accumulated dirty region for a chunk that still
    /// exists, clears the tracker, and silently drops regions of chunks
    /// that are gone. Each existing dirty chunk appears exactly once.
    pub fn drain_dirty_regions(&mut self) -> (out: Vec<(ChunkPos, DirtyRegion)>)
        requires
            old(self).wf(),
            old(self).is_loaded(),
        ensures
            final(self).wf(),
            final(self).is_loaded(),
            final(self).dirty_map() == Map::<u64, DirtyModel>::empty(),
            final(self).height_map() == old(self).height_map(),
            eq_except_heights_and_dirty(*old(self), *final(self)),
            forall|j: int|
                0 <= j < out@.len() ==> {
                    let k = (#[trigger] out@[j]).0.key_spec();
                    &&& old(self).dirty_map().contains_key(k)
                    &&& old(self).chunk_dom().contains(k)
                    &&& out@[j].1@ == old(self).dirty_map()[k]
                    &&& out@[j].0 == ChunkPos::from_key_spec(k)
                    &&& -0x4001_0000 <= out@[j].0.x <= 0x4001_0000
                    &&& -0x4001_0000 <= out@[j].0.y <= 0x4001_0000
                },
            forall|a: int, b: int|
                0 <= a < b < out@.len() ==> (#[trigger] out@[a]).0.key_spec() != (
                #[trigger] out@[b]).0.key_spec(),
            forall|k: u64|
                old(self).dirty_map().contains_key(k) && old(self).chunk_dom().contains(k)
                    ==> exists|j: int|
                    0 <= j < out@.len() && (#[trigger] out@[j]).0.key_spec() == k,
    {
        let taken = self.dirty.take_entries();
        let mut ks = taken.0;
        let mut vs = taken.1;
        let ghost ks0 = ks@;
        let ghost vs0 = vs@;
        let mut out: Vec<(ChunkPos, DirtyRegion)> = Vec::new();
        proof {
            assert(self.dirty_map() =~= Map::<u64, DirtyModel>::empty());
            assert(self.texture_map() == old(self).texture_map());
            assert(self.mesh_map() == old(self).mesh_map());
            assert(self.height_map() == old(self).height_map());
        }
        while vs.len() > 0
            invariant
                self.wf(),
                self.is_loaded(),
                self.dirty_map() == Map::<u64, DirtyModel>::empty(),
                self.height_map() == old(self).height_map(),
                eq_except_heights_and_dirty(*old(self), *self),
                ks@.len() == vs@.len(),
                ks@.len() <= ks0.len(),
                ks@ == ks0.take(ks@.len() as int),
                vs@ == vs0.take(vs@.len() as int),
                ks0.no_duplicates(),
                ks0.len() == vs0.len(),
                forall|i: int|
                    0 <= i < ks0.len() ==> old(self).dirty_map().contains_key(#[trigger] ks0[i])
                        && vs0[i]@ == old(self).dirty_map()[ks0[i]],
                forall|k: u64| old(self).dirty_map().contains_key(k) ==> ks0.contains(k),
                forall|j: int|
                    0 <= j < out@.len() ==> {
                        let k = (#[trigger] out@[j]).0.key_spec();
                        &&& old(self).dirty_map().contains_key(k)
                        &&& old(self).chunk_dom().contains(k)
                        &&& out@[j].1@ == old(self).dirty_map()[k]
                        &&& out@[j].0 == ChunkPos::from_key_spec(k)
                        &&& !ks@.contains(k)
                    },
                forall|a: int, b: int|
                    0 <= a < b < out@.len() ==> (#[trigger] out@[a]).0.key_spec() != (
                    #[trigger] out@[b]).0.key_spec(),
                forall|i: int|
                    ks@.len() <= i < ks0.len() && old(self).chunk_dom().contains(#[trigger] ks0[i])
                        ==> exists|j: int|
                        0 <= j < out@.len() && (#[trigger] out@[j]).0.key_spec() == ks0[i],
            decreases vs@.len(),
        {
            let ghost m = ks@.len() as int;
            let r = match vs.pop() {
                Some(r) => r,
                None => {
                    proof {
                        assert(false);
                    }
                    DirtyRegion::AllVertices
                },
            };
            let k = match ks.pop() {
                Some(k) => k,
                None => {
                    proof {
                        assert(false);
                    }
                    0
                },
            };
            proof {
                assert(ks0.take(m).last() == ks0[m - 1]);
                assert(vs0.take(m).last() == vs0[m - 1]);
                assert(k == ks0[m - 1] && r == vs0[m - 1]);
                assert(ks0.take(m).drop_last() =~= ks0.take(m - 1));
                assert(vs0.take(m).drop_last() =~= vs0.take(m - 1));
                crate::lemma_key_pack_unpack(k);
                // The popped key is not among the remaining ones.
                assert(!ks0.take(m - 1).contains(k)) by {
                    if ks0.take(m - 1).contains(k) {
                        let i = choose|i: int|
                            0 <= i < ks0.take(m - 1).len() && #[trigger] ks0.take(m - 1)[i] == k;
                        assert(ks0[i] == ks0[m - 1]);
                    }
                };
            }
            let ghost out_prev = out@;
            if self.chunks.contains_key(k) {
                let c = ChunkPos::from_key(k);
                out.push((c, r));
            }
            proof {
                // Every out entry's key is outside what remains.
                assert forall|j: int| 0 <= j < out@.len() implies !ks@.contains(
                    (#[trigger] out@[j]).0.key_spec(),
                ) by {
                    let kk = out@[j].0.key_spec();
                    if j < out@.len() - 1 || !old(self).chunk_dom().contains(k) || kk != k {
                        if ks@.contains(kk) {
                            let i = choose|i: int|
                                0 <= i < ks@.len() && #[trigger] ks@[i] == kk;
                            assert(ks0.take(m).contains(kk)) by {
                                assert(ks0.take(m)[i] == kk);
                            };
                        }
                    }
                };
                // Every processed chunk that exists is in `out`.
                assert forall|i: int|
                    ks@.len() <= i < ks0.len() && old(self).chunk_dom().contains(
                        #[trigger] ks0[i],
                    ) implies exists|j: int|
                    0 <= j < out@.len() && (#[trigger] out@[j]).0.key_spec() == ks0[i] by {
                    if i == m - 1 {
                        assert(out@[out@.len() - 1].0.key_spec() == k);
                    } else {
                        let j = choose|j: int|
                            0 <= j < out_prev.len() && (#[trigger] out_prev[j]).0.key_spec()
                                == ks0[i];
                        assert(out@[j] == out_prev[j]);
                    }
                };
            }
        }
        proof {
            assert forall|k: u64|
                old(self).dirty_map().contains_key(k) && old(self).chunk_dom().contains(
                    k,
                ) implies exists|j: int|
                0 <= j < out@.len() && (#[trigger] out@[j]).0.key_spec() == k by {
                assert(ks0.contains(k));
                let i = choose|i: int| 0 <= i < ks0.len() && #[trigger] ks0[i] == k;
                assert(ks@.len() == 0);
                assert(ks@.len() <= i < ks0.len() && old(self).chunk_dom().contains(ks0[i]));
            };
        }
        out
    }
}

impl MasterTerrain {
    /// Processes every queued destroy request, front first. A request is
    /// refused while only one chunk remains and skipped when its chunk
    /// does not exist; otherwise the chunk's meshes, height array and
    /// dirty region are dropped. Textures are kept for a later respawn.
    pub fn process_destroy_queue(&mut self)
        requires
            old(self).wf(),
            old(self).is_loaded(),
        ensures
            final(self).wf(),
            final(self).is_loaded(),
            final(self).destroy_queue_spec().len() == 0,
            final(self).spawn_queue_spec() == old(self).spawn_queue_spec(),
            final(self).chunk_size_spec() == old(self).chunk_size_spec(),
            final(self).texture_size_spec() == old(self).texture_size_spec(),
            final(self).lod_table() == old(self).lod_table(),
            final(self).texture_map() == old(self).texture_map(),
            final(self).chunk_dom() == destroy_fold_dom(
                old(self).chunk_dom(),
                old(self).destroy_queue_spec(),
            ),
            forall|k: u64| #[trigger]
                final(self).chunk_dom().contains(k) ==> old(self).chunk_dom().contains(k)
                    && final(self).mesh_map()[k] == old(self).mesh_map()[k],
            final(self).height_map() == old(self).height_map().remove_keys(
                old(self).chunk_dom().difference(final(self).chunk_dom()),
            ),
            final(self).dirty_map() == old(self).dirty_map().remove_keys(
                old(self).chunk_dom().difference(final(self).chunk_dom()),
            ),
            old(self).chunk_dom().len() >= 1 ==> final(self).chunk_dom().len() >= 1,
    {
        let mut queue: Vec<ChunkPos> = Vec::new();
        core::mem::swap(&mut queue, &mut self.destroy_queue);
        let ghost q0 = queue@;
        let ghost dom0 = old(self).chunk_dom();
        proof {
            self.chunks.lemma_dom_finite();
            assert(self.texture_map() == old(self).texture_map());
            assert(self.mesh_map() == old(self).mesh_map());
            assert(self.dirty_map() == old(self).dirty_map());
            assert(self.height_map() == old(self).height_map());
            assert(self.height_map() =~= old(self).height_map().remove_keys(
                dom0.difference(self.chunk_dom()),
            ));
            assert(self.dirty_map() =~= old(self).dirty_map().remove_keys(
                dom0.difference(self.chunk_dom()),
            ));
        }
        let n = queue.len();
        let mut i: usize = 0;
        while i < n
            invariant
                self.wf(),
                self.is_loaded(),
                n == q0.len(),
                i <= n,
                queue@ == q0,
                forall|j: int| 0 <= j < q0.len() ==> chunk_in_range(#[trigger] q0[j]),
                self.destroy_queue_spec().len() == 0,
                self.spawn_queue_spec() == old(self).spawn_queue_spec(),
                self.chunk_size_spec() == old(self).chunk_size_spec(),
                self.texture_size_spec() == old(self).texture_size_spec(),
                self.lod_table() == old(self).lod_table(),
                self.texture_map() == old(self).texture_map(),
                self.chunk_dom() == destroy_fold_dom(dom0, q0.take(i as int)),
                forall|k: u64| #[trigger]
                    self.chunk_dom().contains(k) ==> dom0.contains(k) && self.mesh_map()[k] == old(self).mesh_map()[k],
                self.height_map() == old(self).height_map().remove_keys(
                    dom0.difference(self.chunk_dom()),
                ),
                self.dirty_map() == old(self).dirty_map().remove_keys(
                    dom0.difference(self.chunk_dom()),
                ),
            decreases n - i,
        {
            let p = queue[i];
            let ghost dom_before = self.chunk_dom();
            let ghost hm_before = self.height_map();
            let ghost dm_before = self.dirty_map();
            let ghost rm_before = dom0.difference(dom_before);
            let count = self.chunk_count();
            let k = p.key();
            if count > 1 {
                match self.chunks.remove(k) {
                    Some(_) => {
                        let _ = self.heights.remove(k);
                        let _ = self.dirty.remove(k);
                        proof {
                            assert(self.chunk_dom() =~= destroy_step_dom(dom_before, p));
                            assert(dom0.contains(k));
                            assert(dom0.difference(self.chunk_dom()) =~= rm_before.insert(k));
                            assert(self.height_map() =~= hm_before.remove(k));
                            assert(self.dirty_map() =~= dm_before.remove(k));
                            assert(hm_before.remove(k) =~= old(self).height_map().remove_keys(
                                rm_before.insert(k),
                            ));
                            assert(dm_before.remove(k) =~= old(self).dirty_map().remove_keys(
                                rm_before.insert(k),
                            ));
                            assert(self.wf());
                        }
                    },
                    None => {
                        proof {
                            assert(self.chunk_dom() =~= destroy_step_dom(dom_before, p));
                        }
                    },
                }
            } else {
                proof {
                    assert(self.chunk_dom() =~= destroy_step_dom(dom_before, p));
                }
            }
            proof {
                lemma_destroy_fold_snoc(dom0, q0.take(i as int), p);
                assert(q0.take(i as int).push(p) =~= q0.take(i + 1));
            }
            i += 1;
        }
        proof {
            assert(q0.take(n as int) =~= q0);
            if dom0.len() >= 1 {
                assert(dom0.finite()) by {
                    old(self).chunks.lemma_dom_finite();
                    assert(old(self).chunks@.dom() =~= dom0);
                };
                lemma_last_chunk_survives(dom0, q0);
            }
        }
    }

    /// Processes every queued spawn request, front first. A request is
    /// skipped when the chunk already exists, and refused when the
    /// terrain already has chunks but none of them borders the request —
    /// only the first chunk of a fresh terrain needs no neighbor. A
    /// created chunk gets an opaque-white texture unless one is already
    /// associated with its index, one fresh mesh per LOD level, and a
    /// whole-chunk dirty mark so its real heights arrive with the next
    /// mesh refresh.
    pub fn process_spawn_queue(&mut self)
        requires
            old(self).wf(),
            old(self).is_loaded(),
        ensures
            final(self).wf(),
            final(self).is_loaded(),
            final(self).spawn_queue_spec().len() == 0,
            final(self).destroy_queue_spec() == old(self).destroy_queue_spec(),
            final(self).chunk_size_spec() == old(self).chunk_size_spec(),
            final(self).texture_size_spec() == old(self).texture_size_spec(),
            final(self).lod_table() == old(self).lod_table(),
            final(self).height_map() == old(self).height_map(),
            final(self).chunk_dom() == spawn_fold_dom(
                old(self).chunk_dom(),
                old(self).spawn_queue_spec(),
            ),
            forall|k: u64| #[trigger]
                old(self).chunk_dom().contains(k) ==> final(self).chunk_dom().contains(k) && final(self).mesh_map()[k] == old(self).mesh_map()[k],
            forall|k: u64|
                #![trigger final(self).chunk_dom().contains(k)]
                final(self).chunk_dom().contains(k) && !old(self).chunk_dom().contains(k) ==> {
                    &&& fresh_meshes(
                        final(self).mesh_map()[k],
                        old(self).chunk_size_spec(),
                        old(self).lod_table(),
                    )
                    &&& final(self).dirty_map().contains_key(k)
                    &&& final(self).dirty_map()[k] == DirtyModel::All
                    &&& final(self).texture_map().contains_key(k)
                    &&& !old(self).texture_map().contains_key(k) ==> final(self).texture_map()[k]
                        == white_texture(old(self).texture_size_spec())
                },
            forall|k: u64| #[trigger]
                old(self).texture_map().contains_key(k) ==> final(self).texture_map().contains_key(
                    k,
                ) && final(self).texture_map()[k] == old(self).texture_map()[k],
            forall|k: u64| #[trigger]
                final(self).texture_map().contains_key(k) ==> old(self).texture_map().contains_key(k) || (final(self).chunk_dom().contains(k) && !old(self).chunk_dom().contains(k)),
            forall|k: u64|
                #![trigger final(self).dirty_map().contains_key(k)]
                !(final(self).chunk_dom().contains(k) && !old(self).chunk_dom().contains(k)) ==> (
                final(self).dirty_map().contains_key(k) <==> old(self).dirty_map().contains_key(k))
                    && (old(self).dirty_map().contains_key(k) ==> final(self).dirty_map()[k] == old(self).dirty_map()[k]),
    {
        let mut queue: Vec<ChunkPos> = Vec::new();
        core::mem::swap(&mut queue, &mut self.spawn_queue);
        let ghost q0 = queue@;
        let ghost dom0 = old(self).chunk_dom();
        proof {
            assert(self.texture_map() == old(self).texture_map());
            assert(self.mesh_map() == old(self).mesh_map());
            assert(self.dirty_map() == old(self).dirty_map());
            assert(self.height_map() == old(self).height_map());
        }
        let n = queue.len();
        let mut i: usize = 0;
        while i < n
            invariant
                self.wf(),
                self.is_loaded(),
                n == q0.len(),
                i <= n,
                queue@ == q0,
                forall|j: int| 0 <= j < q0.len() ==> chunk_in_range(#[trigger] q0[j]),
                self.spawn_queue_spec().len() == 0,
                self.destroy_queue_spec() == old(self).destroy_queue_spec(),
                self.chunk_size_spec() == old(self).chunk_size_spec(),
                self.texture_size_spec() == old(self).texture_size_spec(),
                self.lod_table() == old(self).lod_table(),
                self.height_map() == old(self).height_map(),
                self.chunk_dom() == spawn_fold_dom(dom0, q0.take(i as int)),
                forall|k: u64| #[trigger]
                    dom0.contains(k) ==> self.chunk_dom().contains(k) && self.mesh_map()[k] == old(self).mesh_map()[k],
                forall|k: u64|
                    #![trigger self.chunk_dom().contains(k)]
                    self.chunk_dom().contains(k) && !dom0.contains(k) ==> {
                        &&& fresh_meshes(
                            self.mesh_map()[k],
                            old(self).chunk_size_spec(),
                            old(self).lod_table(),
                        )
                        &&& self.dirty_map().contains_key(k)
                        &&& self.dirty_map()[k] == DirtyModel::All
                        &&& self.texture_map().contains_key(k)
                        &&& !old(self).texture_map().contains_key(k) ==> self.texture_map()[k]
                            == white_texture(old(self).texture_size_spec())
                    },
                forall|k: u64| #[trigger]
                    old(self).texture_map().contains_key(k) ==> self.texture_map().contains_key(k)
                        && self.texture_map()[k] == old(self).texture_map()[k],
                forall|k: u64| #[trigger]
                    self.texture_map().contains_key(k) ==> old(self).texture_map().contains_key(k)
                        || (self.chunk_dom().contains(k) && !dom0.contains(k)),
                forall|k: u64|
                    #![trigger self.dirty_map().contains_key(k)]
                    !(self.chunk_dom().contains(k) && !dom0.contains(k)) ==> (
                    self.dirty_map().contains_key(k) <==> old(self).dirty_map().contains_key(k)) && (
                    old(self).dirty_map().contains_key(k) ==> self.dirty_map()[k] == old(self).dirty_map()[k]),
            decreases n - i,
        {
            let p = queue[i];
            let k = p.key();
            let ghost dom_before = self.chunk_dom();
            let ghost hm_entry = self.height_map();
            let ghost dm_entry = self.dirty_map();
            proof {
                crate::lemma_chunk_key_round_trip(p);
            }
            if !self.chunks.contains_key(k) {
                let count = self.chunk_count();
                let neighbors = self.count_neighbors(&p);
                if count == 0 || neighbors > 0 {
                    if !self.textures.contains_key(k) {
                        let ghost tex_map_before = self.texture_map();
                        let ts = self.texture_size;
                        proof {
                            assert(ts * ts <= 0x4000 * 0x4000) by (nonlinear_arith)
                                requires
                                    ts <= 0x4000,
                            ;
                        }
                        let tex: Vec<u8> = vec![255u8; ts * ts * 4];
                        proof {
                            assert(tex@ =~= white_texture(ts as int));
                        }
                        self.textures.insert(k, tex);
                        proof {
                            assert(self.texture_map() =~= tex_map_before.insert(
                                k,
                                white_texture(ts as int),
                            ));
                            assert forall|kk: u64| #[trigger]
                                self.texture_map().contains_key(kk) implies self.texture_map()[
                                kk
                            ].len() == self.texture_size_spec() * self.texture_size_spec()
                                * 4 by {
                                if kk != k {
                                    assert(tex_map_before.contains_key(kk));
                                }
                            };
                            assert(self.wf());
                        }
                    }
                    let ghost tex_now = self.texture_map();
                    let levels_n = self.lod.levels.len();
                    let mut meshes: Vec<TerrainMesh> = Vec::new();
                    let ghost self_snap = *self;
                    let mut j: usize = 0;
                    while j < levels_n
                        invariant
                            *self == self_snap,
                            self.wf(),
                            self.is_loaded(),
                            levels_n == self.lod_table().len(),
                            j <= levels_n,
                            meshes@.len() == j,
                            forall|a: int|
                                0 <= a < j ==> is_fresh_mesh(
                                    #[trigger] meshes@[a],
                                    self.chunk_size_spec(),
                                    self.lod_table()[a].mesh_reduce as int,
                                ),
                        decreases levels_n - j,
                    {
                        let reduce = self.lod.levels[j].mesh_reduce;
                        let m = build_mesh(self.chunk_size, reduce);
                        meshes.push(m);
                        j += 1;
                    }
                    let ghost mesh_map_before = self.mesh_map();
                    let ghost meshes_view = meshes@;
                    self.chunks.insert(k, meshes);
                    proof {
                        assert(self.texture_map() == tex_now);
                        assert(self.height_map() == hm_entry);
                        assert(self.dirty_map() == dm_entry);
                        assert(self.mesh_map() =~= mesh_map_before.insert(k, meshes_view));
                        assert(self.chunk_dom() =~= spawn_step_dom(dom_before, p));
                        assert(fresh_meshes(
                            meshes_view,
                            self.chunk_size_spec(),
                            self.lod_table(),
                        ));
                        assert forall|a: int| 0 <= a < meshes_view.len() implies (
                        #[trigger] meshes_view[a]).wf() && meshes_view[a].mesh_reduce
                            == self.lod.levels@[a].mesh_reduce && meshes_view[a].mesh_size
                            * meshes_view[a].step == self.chunk_size_spec() by {
                            assert(is_fresh_mesh(
                                meshes_view[a],
                                self.chunk_size_spec(),
                                self.lod_table()[a].mesh_reduce as int,
                            ));
                        };
                        assert(chunk_meshes_wf(
                            meshes_view,
                            self.chunk_size_spec(),
                            self.lod.levels@,
                        ));
                        assert(key_in_range(k));
                        assert forall|kk: u64| #[trigger]
                            self.mesh_map().contains_key(kk) implies chunk_meshes_wf(
                            self.mesh_map()[kk],
                            self.chunk_size_spec(),
                            self.lod.levels@,
                        ) && key_in_range(kk) by {
                            if kk != k {
                                assert(mesh_map_before.contains_key(kk));
                            }
                        };
                        assert(self.wf());
                    }
                    self.mark_all(p);
                    proof {
                        assert(!dom0.contains(k)) by {
                            if dom0.contains(k) {
                                assert(dom_before.contains(k));
                            }
                        };
                        assert(self.mesh_map()[k] == meshes_view);
                        assert forall|kk: u64|
                            #![trigger self.chunk_dom().contains(kk)]
                            self.chunk_dom().contains(kk) && !dom0.contains(kk) implies {
                            &&& fresh_meshes(
                                self.mesh_map()[kk],
                                old(self).chunk_size_spec(),
                                old(self).lod_table(),
                            )
                            &&& self.dirty_map().contains_key(kk)
                            &&& self.dirty_map()[kk] == DirtyModel::All
                            &&& self.texture_map().contains_key(kk)
                            &&& !old(self).texture_map().contains_key(kk)
                                ==> self.texture_map()[kk] == white_texture(
                                old(self).texture_size_spec(),
                            )
                        } by {
                            if kk != k {
                                assert(dom_before.contains(kk));
                            }
                        };
                        assert forall|kk: u64| #[trigger]
                            self.texture_map().contains_key(kk) implies old(
                            self,
                        ).texture_map().contains_key(kk) || (self.chunk_dom().contains(kk)
                            && !dom0.contains(kk)) by {};
                    }
                } else {
                    proof {
                        assert(self.chunk_dom() =~= spawn_step_dom(dom_before, p));
                    }
                }
            } else {
                proof {
                    assert(self.chunk_dom() =~= spawn_step_dom(dom_before, p));
                }
            }
            proof {
                lemma_spawn_fold_snoc(dom0, q0.take(i as int), p);
                assert(q0.take(i as int).push(p) =~= q0.take(i + 1));
            }
            i += 1;
        }
        proof {
            assert(q0.take(n as int) =~= q0);
        }
    }
}

/// The chunk a key stands for, read back from the key.
pub open spec fn stored_or_generated_key(hm: Map<u64, Seq<i64>>, k: u64, size: int) -> Seq<i64> {
    stored_or_generated(hm, ChunkPos::from_key_spec(k), size)
}

/// `b` is `a` with zero or more chunks materialized from the noise
/// source: nothing stored in `a` changed, and everything new is exactly
/// what generation implies.
pub open spec fn heights_extends(a: Map<u64, Seq<i64>>, b: Map<u64, Seq<i64>>, size: int) -> bool {
    &&& forall|k: u64| #[trigger] a.contains_key(k) ==> b.contains_key(k)
    &&& forall|k: u64| #[trigger]
        b.contains_key(k) ==> b[k] == stored_or_generated_key(a, k, size)
}

pub proof fn lemma_extends_refl(a: Map<u64, Seq<i64>>, size: int)
    ensures
        heights_extends(a, a, size),
{
    assert forall|k: u64| #[trigger] a.contains_key(k) implies a[k] == stored_or_generated_key(
        a,
        k,
        size,
    ) by {
        crate::lemma_key_pack_unpack(k);
    };
}

pub proof fn lemma_extends_step(
    a: Map<u64, Seq<i64>>,
    b: Map<u64, Seq<i64>>,
    c: ChunkPos,
    size: int,
)
    requires
        heights_extends(a, b, size),
    ensures
        heights_extends(a, b.insert(c.key_spec(), stored_or_generated(b, c, size)), size),
{
    let b2 = b.insert(c.key_spec(), stored_or_generated(b, c, size));
    assert forall|k: u64| #[trigger] b2.contains_key(k) implies b2[k] == stored_or_generated_key(
        a,
        k,
        size,
    ) by {
        if k == c.key_spec() {
            crate::lemma_chunk_key_round_trip(c);
            crate::lemma_key_pack_unpack(k);
            if b.contains_key(k) {
            } else {
                if a.contains_key(k) {
                    assert(b.contains_key(k));
                }
            }
        }
    };
}

pub proof fn lemma_extends_trans(
    a: Map<u64, Seq<i64>>,
    b: Map<u64, Seq<i64>>,
    c: Map<u64, Seq<i64>>,
    size: int,
)
    requires
        heights_extends(a, b, size),
        heights_extends(b, c, size),
    ensures
        heights_extends(a, c, size),
{
    assert forall|k: u64| #[trigger] c.contains_key(k) implies c[k] == stored_or_generated_key(
        a,
        k,
        size,
    ) by {
        crate::lemma_key_pack_unpack(k);
        if b.contains_key(k) {
        } else {
            if a.contains_key(k) {
                assert(b.contains_key(k));
            }
        }
    };
}

/// Materializing chunks never changes what any world position reads.
pub proof fn lemma_extends_height_at(
    a: Map<u64, Seq<i64>>,
    b: Map<u64, Seq<i64>>,
    size: int,
    wx: int,
    wy: int,
)
    requires
        heights_extends(a, b, size),
    ensures
        height_at_model(b, size, wx, wy) == height_at_model(a, size, wx, wy),
{
    let c = chunk_of(size, wx, wy);
    crate::lemma_chunk_key_round_trip(c);
    if b.contains_key(c.key_spec()) {
        if !a.contains_key(c.key_spec()) {
        }
    } else {
        if a.contains_key(c.key_spec()) {
            assert(b.contains_key(c.key_spec()));
        }
    }
}

/// Whether the point list names the vertex `(gx, gy)` of a mesh with
/// vertex spacing `step`: some listed point is exactly that vertex in
/// full-resolution local coordinates.
pub open spec fn affected(pts: Seq<LocalPoint>, step: int, gx: int, gy: int) -> bool {
    exists|j: int| 0 <= j < pts.len() && pts[j].x == gx * step && pts[j].y == gy * step
}

/// Every lattice point of a chunk, row by row; what a whole-chunk dirty
/// region expands to.
pub open spec fn full_grid_seq(size: int) -> Seq<LocalPoint> {
    Seq::new(
        (((size + 1) * (size + 1)) as nat),
        |i: int| LocalPoint { x: (i % (size + 1)) as usize, y: (i / (size + 1)) as usize },
    )
}

/// The full-resolution points a dirty region stands for.
pub open spec fn region_points(region: DirtyModel, size: int) -> Seq<LocalPoint> {
    match region {
        DirtyModel::All => full_grid_seq(size),
        DirtyModel::Points(s) => s,
    }
}

/// The heights of one mesh after a refresh pass over `pts`: every vertex
/// named by an (aligned) point reads the terrain's height at its world
/// position; every other vertex keeps its height.
pub open spec fn pass_heights(
    orig: Seq<i64>,
    hm: Map<u64, Seq<i64>>,
    size: int,
    c: ChunkPos,
    pts: Seq<LocalPoint>,
    step: int,
    ms: int,
) -> Seq<i64> {
    Seq::new(
        orig.len(),
        |vi: int|
            {
                let gx = vi % (ms + 1);
                let gy = vi / (ms + 1);
                if affected(pts, step, gx, gy) {
                    height_at_model(hm, size, c.x * size + gx * step, c.y * size + gy * step)
                } else {
                    orig[vi]
                }
            },
    )
}

/// The normals of one mesh after the normal pass that follows a height
/// pass: every vertex named by a point gets the normal recomputed from
/// the (fully updated) heights; every other vertex keeps its normal.
pub open spec fn pass_normals(
    orig: Seq<NormalVec>,
    heights: Seq<i64>,
    pts: Seq<LocalPoint>,
    step: int,
    ms: int,
) -> Seq<NormalVec> {
    Seq::new(
        orig.len(),
        |vi: int|
            {
                let gx = vi % (ms + 1);
                let gy = vi / (ms + 1);
                if affected(pts, step, gx, gy) {
                    normal_vec_at(heights, ms, step, gx, gy)
                } else {
                    orig[vi]
                }
            },
    )
}

/// How a refresh leaves one mesh, relative to the height field `hm` the
/// frame started with: heights first, then normals from those heights.
pub open spec fn mesh_refreshed(
    mo: TerrainMesh,
    mn: TerrainMesh,
    hm: Map<u64, Seq<i64>>,
    size: int,
    c: ChunkPos,
    region: DirtyModel,
) -> bool {
    &&& mn.mesh_reduce == mo.mesh_reduce
    &&& mn.mesh_size == mo.mesh_size
    &&& mn.step == mo.step
    &&& mn.indices@ == mo.indices@
    &&& mn.heights@ == pass_heights(
        mo.heights@,
        hm,
        size,
        c,
        region_points(region, size),
        mo.step as int,
        mo.mesh_size as int,
    )
    &&& mn.normals@ == pass_normals(
        mo.normals@,
        mn.heights@,
        region_points(region, size),
        mo.step as int,
        mo.mesh_size as int,
    )
}

/// A whole chunk's meshes after a refresh: each LOD mesh refreshed
/// against the same region.
pub open spec fn meshes_refreshed(
    mso: Seq<TerrainMesh>,
    msn: Seq<TerrainMesh>,
    hm: Map<u64, Seq<i64>>,
    size: int,
    c: ChunkPos,
    region: DirtyModel,
) -> bool {
    &&& msn.len() == mso.len()
    &&& forall|i: int|
        0 <= i < msn.len() ==> mesh_refreshed(mso[i], #[trigger] msn[i], hm, size, c, region)
}

/// Every lattice point of the chunk, row by row, as a vector.
fn full_grid_points(size: usize) -> (v: Vec<LocalPoint>)
    requires
        1 <= size <= 0x1000,
    ensures
        v@ == full_grid_seq(size as int),
{
    let mut v: Vec<LocalPoint> = Vec::new();
    let side = size + 1;
    let mut y: usize = 0;
    while y < side
        invariant
            side == size + 1,
            1 <= size <= 0x1000,
            y <= side,
            v@.len() == y * side,
            forall|i: int| 0 <= i < v@.len() ==> v@[i] == full_grid_seq(size as int)[i],
        decreases side - y,
    {
        let mut x: usize = 0;
        while x < side
            invariant
                side == size + 1,
                1 <= size <= 0x1000,
                y < side,
                x <= side,
                v@.len() == y * side + x,
                forall|i: int| 0 <= i < v@.len() ==> v@[i] == full_grid_seq(size as int)[i],
            decreases side - x,
        {
            v.push(LocalPoint { x, y });
            proof {
                let i = v@.len() - 1;
                crate::coords::lemma_coord_split_unique(y as int, x as int, side as int);
                crate::mesh::lemma_vidx_in_range(size as int, x as int, y as int);
                assert(i == y * side + x);
                assert(i % (side as int) == x && i / (side as int) == y);
            }
            x += 1;
        }
        y += 1;
        proof {
            assert((y - 1) * side + side == y * side) by (nonlinear_arith);
        }
    }
    proof {
        crate::mesh::lemma_vidx_in_range(size as int, size as int, size as int);
        assert(v@ =~= full_grid_seq(size as int));
    }
    v
}

/// The full-resolution point list a region stands for.
fn expand_region(region: &DirtyRegion, size: usize) -> (v: Vec<LocalPoint>)
    requires
        1 <= size <= 0x1000,
    ensures
        v@ == region_points(region@, size as int),
{
    match region {
        DirtyRegion::AllVertices => full_grid_points(size),
        DirtyRegion::Points(pts) => {
            let mut v: Vec<LocalPoint> = Vec::new();
            let n = pts.len();
            let mut i: usize = 0;
            while i < n
                invariant
                    n == pts@.len(),
                    i <= n,
                    v@ == pts@.take(i as int),
                decreases n - i,
            {
                v.push(pts[i]);
                proof {
                    assert(v@ =~= pts@.take(i + 1));
                }
                i += 1;
            }
            proof {
                assert(pts@.take(n as int) =~= pts@);
            }
            v
        },
    }
}

impl MasterTerrain {
    /// Height pass of the mesh updater: for every listed point that lies
    /// on this mesh's vertex lattice, writes the terrain's height at the
    /// point's world position into the vertex. Points between this LOD's
    /// vertices are skipped; normals are untouched, so the caller can run
    /// the normal pass once all heights are in place.
    fn refresh_mesh_heights(&mut self, m: &mut TerrainMesh, c: ChunkPos, pts: &Vec<LocalPoint>)
        requires
            old(self).wf(),
            old(self).is_loaded(),
            old(m).wf(),
            old(m).mesh_size * old(m).step == old(self).chunk_size_spec(),
            -0x4001_0000 <= c.x <= 0x4001_0000,
            -0x4001_0000 <= c.y <= 0x4001_0000,
            forall|i: int|
                0 <= i < pts@.len() ==> (#[trigger] pts@[i]).x <= old(self).chunk_size_spec()
                    && pts@[i].y <= old(self).chunk_size_spec(),
        ensures
            final(self).wf(),
            final(self).is_loaded(),
            eq_except_heights_and_dirty(*old(self), *final(self)),
            final(self).dirty_map() == old(self).dirty_map(),
            heights_extends(
                old(self).height_map(),
                final(self).height_map(),
                old(self).chunk_size_spec(),
            ),
            final(m).wf(),
            final(m).mesh_reduce == old(m).mesh_reduce,
            final(m).mesh_size == old(m).mesh_size,
            final(m).step == old(m).step,
            final(m).normals@ == old(m).normals@,
            final(m).indices@ == old(m).indices@,
            final(m).heights@ == pass_heights(
                old(m).heights@,
                old(self).height_map(),
                old(self).chunk_size_spec(),
                c,
                pts@,
                old(m).step as int,
                old(m).mesh_size as int,
            ),
    {
        let ms = m.mesh_size;
        let step = m.step;
        let cs = self.chunk_size;
        let ghost hm0 = self.height_map();
        let n = pts.len();
        let mut t: usize = 0;
        proof {
            lemma_extends_refl(hm0, cs as int);
            assert(m.heights@ =~= pass_heights(
                old(m).heights@,
                hm0,
                cs as int,
                c,
                pts@.take(0),
                step as int,
                ms as int,
            ));
        }
        while t < n
            invariant
                self.wf(),
                self.is_loaded(),
                cs == self.chunk_size_spec(),
                hm0 == old(self).height_map(),
                eq_except_heights_and_dirty(*old(self), *self),
                self.dirty_map() == old(self).dirty_map(),
                heights_extends(hm0, self.height_map(), cs as int),
                m.wf(),
                m.mesh_reduce == old(m).mesh_reduce,
                m.mesh_size == ms && ms == old(m).mesh_size,
                m.step == step && step == old(m).step,
                ms * step == cs,
                1 <= cs <= 0x1000,
                m.normals@ == old(m).normals@,
                m.indices@ == old(m).indices@,
                -0x4001_0000 <= c.x <= 0x4001_0000,
                -0x4001_0000 <= c.y <= 0x4001_0000,
                forall|i: int|
                    0 <= i < pts@.len() ==> (#[trigger] pts@[i]).x <= cs && pts@[i].y <= cs,
                t <= n,
                n == pts@.len(),
                m.heights@ == pass_heights(
                    old(m).heights@,
                    hm0,
                    cs as int,
                    c,
                    pts@.take(t as int),
                    step as int,
                    ms as int,
                ),
            decreases n - t,
        {
            let p = pts[t];
            if p.x % step == 0 && p.y % step == 0 {
                proof {
                    vstd::arithmetic::div_mod::lemma_fundamental_div_mod(p.x as int, step as int);
                    vstd::arithmetic::div_mod::lemma_fundamental_div_mod(p.y as int, step as int);
                    assert(-(ms as int) * (step as int) <= p.x as int <= (ms as int) * (
                    step as int) && -(ms as int) * (step as int) <= p.y as int <= (ms as int) * (
                    step as int)) by (nonlinear_arith)
                        requires
                            (ms as int) * (step as int) == cs as int,
                            0 <= p.x as int <= cs as int,
                            0 <= p.y as int <= cs as int,
                    ;
                    lemma_div_bound(p.x as int, step as int, ms as int);
                    lemma_div_bound(p.y as int, step as int, ms as int);
                    assert(ms * step == step * ms) by (nonlinear_arith);
                    assert(step as int * (p.x as int / step as int) == (p.x as int / step as int)
                        * step as int) by (nonlinear_arith);
                    assert(step as int * (p.y as int / step as int) == (p.y as int / step as int)
                        * step as int) by (nonlinear_arith);
                }
                let gx = p.x / step;
                let gy = p.y / step;
                proof {
                    assert(gx * step == p.x as int && gy * step == p.y as int);
                    assert(0x4001_0000 * cs as int + cs as int <= 0x4001_0001 * cs as int
                        && -(0x4001_0000 * cs as int) >= -(0x4001_0001 * cs as int) && 0x4001_0001
                        * cs as int <= 0x4001_0001 * 0x1000) by (nonlinear_arith)
                        requires
                            1 <= cs <= 0x1000,
                    ;
                    assert(-0x4001_0000 * cs as int <= c.x as int * cs as int <= 0x4001_0000
                        * cs as int) by (nonlinear_arith)
                        requires
                            -0x4001_0000 <= c.x as int <= 0x4001_0000,
                            1 <= cs,
                    ;
                    assert(-0x4001_0000 * cs as int <= c.y as int * cs as int <= 0x4001_0000
                        * cs as int) by (nonlinear_arith)
                        requires
                            -0x4001_0000 <= c.y as int <= 0x4001_0000,
                            1 <= cs,
                    ;
                }
                let wx = c.x as i64 * cs as i64 + p.x as i64;
                let wy = c.y as i64 * cs as i64 + p.y as i64;
                let ghost hm_call = self.height_map();
                let h = self.get_height(wx, wy);
                proof {
                    lemma_extends_step(hm0, hm_call, chunk_of(cs as int, wx as int, wy as int),
                        cs as int);
                    lemma_extends_height_at(hm0, hm_call, cs as int, wx as int, wy as int);
                }
                m.set_vertex_height(gx, gy, h);
                proof {
                    let msi = ms as int;
                    let stepi = step as int;
                    let vi = crate::mesh::vidx(msi, gx as int, gy as int);
                    crate::mesh::lemma_vidx_in_range(msi, gx as int, gy as int);
                    crate::coords::lemma_coord_split_unique(gy as int, gx as int, msi + 1);
                    assert forall|v: int| 0 <= v < m.heights@.len() implies m.heights@[v]
                        == pass_heights(
                        old(m).heights@,
                        hm0,
                        cs as int,
                        c,
                        pts@.take(t + 1),
                        stepi,
                        msi,
                    )[v] by {
                        let gxv = v % (msi + 1);
                        let gyv = v / (msi + 1);
                        crate::coords::lemma_coord_round_trip(v, msi + 1);
                        if v == vi {
                            assert(pts@.take(t + 1)[t as int] == p);
                            assert(affected(pts@.take(t + 1), stepi, gxv, gyv));
                        } else {
                            assert(gxv != gx || gyv != gy);
                            if affected(pts@.take(t + 1), stepi, gxv, gyv) {
                                let j = choose|j: int|
                                    0 <= j < pts@.take(t + 1).len() && #[trigger] pts@.take(
                                        t + 1,
                                    )[j].x == gxv * stepi && pts@.take(t + 1)[j].y == gyv * stepi;
                                if j == t {
                                    assert(gxv * stepi == gx * stepi && gyv * stepi == gy * stepi);
                                    assert(gxv == gx && gyv == gy) by (nonlinear_arith)
                                        requires
                                            gxv * stepi == gx as int * stepi,
                                            gyv * stepi == gy as int * stepi,
                                            stepi >= 1,
                                    ;
                                } else {
                                    assert(pts@.take(t as int)[j] == pts@.take(t + 1)[j]);
                                    assert(affected(pts@.take(t as int), stepi, gxv, gyv));
                                }
                            }
                            if affected(pts@.take(t as int), stepi, gxv, gyv) {
                                let j = choose|j: int|
                                    0 <= j < pts@.take(t as int).len() && #[trigger] pts@.take(
                                        t as int,
                                    )[j].x == gxv * stepi && pts@.take(t as int)[j].y == gyv
                                        * stepi;
                                assert(pts@.take(t + 1)[j] == pts@.take(t as int)[j]);
                                assert(affected(pts@.take(t + 1), stepi, gxv, gyv));
                            }
                        }
                    };
                    assert(m.heights@ =~= pass_heights(
                        old(m).heights@,
                        hm0,
                        cs as int,
                        c,
                        pts@.take(t + 1),
                        stepi,
                        msi,
                    ));
                }
            } else {
                proof {
                    let msi = ms as int;
                    let stepi = step as int;
                    assert forall|v: int| 0 <= v < m.heights@.len() implies m.heights@[v]
                        == pass_heights(
                        old(m).heights@,
                        hm0,
                        cs as int,
                        c,
                        pts@.take(t + 1),
                        stepi,
                        msi,
                    )[v] by {
                        let gxv = v % (msi + 1);
                        let gyv = v / (msi + 1);
                        if affected(pts@.take(t + 1), stepi, gxv, gyv) {
                            let j = choose|j: int|
                                0 <= j < pts@.take(t + 1).len() && #[trigger] pts@.take(
                                    t + 1,
                                )[j].x == gxv * stepi && pts@.take(t + 1)[j].y == gyv * stepi;
                            if j == t {
                                vstd::arithmetic::div_mod::lemma_mod_multiples_basic(
                                    gxv,
                                    stepi,
                                );
                                vstd::arithmetic::div_mod::lemma_mod_multiples_basic(
                                    gyv,
                                    stepi,
                                );
                            } else {
                                assert(pts@.take(t as int)[j] == pts@.take(t + 1)[j]);
                                assert(affected(pts@.take(t as int), stepi, gxv, gyv));
                            }
                        }
                        if affected(pts@.take(t as int), stepi, gxv, gyv) {
                            let j = choose|j: int|
                                0 <= j < pts@.take(t as int).len() && #[trigger] pts@.take(
                                    t as int,
                                )[j].x == gxv * stepi && pts@.take(t as int)[j].y == gyv * stepi;
                            assert(pts@.take(t + 1)[j] == pts@.take(t as int)[j]);
                            assert(affected(pts@.take(t + 1), stepi, gxv, gyv));
                        }
                    };
                    assert(m.heights@ =~= pass_heights(
                        old(m).heights@,
                        hm0,
                        cs as int,
                        c,
                        pts@.take(t + 1),
                        stepi,
                        msi,
                    ));
                }
            }
            t += 1;
        }
        proof {
            assert(pts@.take(n as int) =~= pts@);
        }
    }
}

/// Normal pass of the mesh updater: recomputes, for every listed point on
/// this mesh's lattice, the vertex normal from the mesh's current heights.
/// Runs only after the height pass, so every neighbor it reads is final.
fn refresh_mesh_normals(m: &mut TerrainMesh, pts: &Vec<LocalPoint>, size: usize)
    requires
        old(m).wf(),
        old(m).mesh_size * old(m).step == size as int,
        1 <= size <= 0x1000,
        forall|i: int| 0 <= i < pts@.len() ==> (#[trigger] pts@[i]).x <= size && pts@[i].y <= size,
    ensures
        final(m).wf(),
        final(m).mesh_reduce == old(m).mesh_reduce,
        final(m).mesh_size == old(m).mesh_size,
        final(m).step == old(m).step,
        final(m).heights@ == old(m).heights@,
        final(m).indices@ == old(m).indices@,
        final(m).normals@ == pass_normals(
            old(m).normals@,
            old(m).heights@,
            pts@,
            old(m).step as int,
            old(m).mesh_size as int,
        ),
{
    let ms = m.mesh_size;
    let step = m.step;
    let n = pts.len();
    let mut t: usize = 0;
    proof {
        assert(m.normals@ =~= pass_normals(
            old(m).normals@,
            old(m).heights@,
            pts@.take(0),
            step as int,
            ms as int,
        ));
    }
    while t < n
        invariant
            m.wf(),
            m.mesh_reduce == old(m).mesh_reduce,
            m.mesh_size == ms && ms == old(m).mesh_size,
            m.step == step && step == old(m).step,
            ms * step == size,
            1 <= size <= 0x1000,
            m.heights@ == old(m).heights@,
            m.indices@ == old(m).indices@,
            forall|i: int|
                0 <= i < pts@.len() ==> (#[trigger] pts@[i]).x <= size && pts@[i].y <= size,
            t <= n,
            n == pts@.len(),
            m.normals@ == pass_normals(
                old(m).normals@,
                old(m).heights@,
                pts@.take(t as int),
                step as int,
                ms as int,
            ),
        decreases n - t,
    {
        let p = pts[t];
        if p.x % step == 0 && p.y % step == 0 {
            proof {
                vstd::arithmetic::div_mod::lemma_fundamental_div_mod(p.x as int, step as int);
                vstd::arithmetic::div_mod::lemma_fundamental_div_mod(p.y as int, step as int);
                assert(-(ms as int) * (step as int) <= p.x as int <= (ms as int) * (step as int)
                    && -(ms as int) * (step as int) <= p.y as int <= (ms as int) * (
                step as int)) by (nonlinear_arith)
                    requires
                        (ms as int) * (step as int) == size as int,
                        0 <= p.x as int <= size as int,
                        0 <= p.y as int <= size as int,
                ;
                lemma_div_bound(p.x as int, step as int, ms as int);
                lemma_div_bound(p.y as int, step as int, ms as int);
                assert(step as int * (p.x as int / step as int) == (p.x as int / step as int)
                    * step as int) by (nonlinear_arith);
                assert(step as int * (p.y as int / step as int) == (p.y as int / step as int)
                    * step as int) by (nonlinear_arith);
            }
            let gx = p.x / step;
            let gy = p.y / step;
            proof {
                assert(gx * step == p.x as int && gy * step == p.y as int);
            }
            m.update_normal(gx, gy);
            proof {
                let msi = ms as int;
                let stepi = step as int;
                let vi = crate::mesh::vidx(msi, gx as int, gy as int);
                crate::mesh::lemma_vidx_in_range(msi, gx as int, gy as int);
                crate::coords::lemma_coord_split_unique(gy as int, gx as int, msi + 1);
                assert(m.normals@[vi] == normal_vec_at(m.heights@, msi, stepi, gx as int,
                    gy as int));
                assert forall|v: int| 0 <= v < m.normals@.len() implies m.normals@[v]
                    == pass_normals(
                    old(m).normals@,
                    old(m).heights@,
                    pts@.take(t + 1),
                    stepi,
                    msi,
                )[v] by {
                    let gxv = v % (msi + 1);
                    let gyv = v / (msi + 1);
                    crate::coords::lemma_coord_round_trip(v, msi + 1);
                    if v == vi {
                        assert(pts@.take(t + 1)[t as int] == p);
                        assert(affected(pts@.take(t + 1), stepi, gxv, gyv));
                    } else {
                        assert(gxv != gx || gyv != gy);
                        if affected(pts@.take(t + 1), stepi, gxv, gyv) {
                            let j = choose|j: int|
                                0 <= j < pts@.take(t + 1).len() && #[trigger] pts@.take(
                                    t + 1,
                                )[j].x == gxv * stepi && pts@.take(t + 1)[j].y == gyv * stepi;
                            if j == t {
                                assert(gxv * stepi == gx * stepi && gyv * stepi == gy * stepi);
                                assert(gxv == gx && gyv == gy) by (nonlinear_arith)
                                    requires
                                        gxv * stepi == gx as int * stepi,
                                        gyv * stepi == gy as int * stepi,
                                        stepi >= 1,
                                ;
                            } else {
                                assert(pts@.take(t as int)[j] == pts@.take(t + 1)[j]);
                                assert(affected(pts@.take(t as int), stepi, gxv, gyv));
                            }
                        }
                        if affected(pts@.take(t as int), stepi, gxv, gyv) {
                            let j = choose|j: int|
                                0 <= j < pts@.take(t as int).len() && #[trigger] pts@.take(
                                    t as int,
                                )[j].x == gxv * stepi && pts@.take(t as int)[j].y == gyv * stepi;
                            assert(pts@.take(t + 1)[j] == pts@.take(t as int)[j]);
                            assert(affected(pts@.take(t + 1), stepi, gxv, gyv));
                        }
                    }
                };
                assert(m.normals@ =~= pass_normals(
                    old(m).normals@,
                    old(m).heights@,
                    pts@.take(t + 1),
                    stepi,
                    msi,
                ));
            }
        } else {
            proof {
                let msi = ms as int;
                let stepi = step as int;
                assert forall|v: int| 0 <= v < m.normals@.len() implies m.normals@[v]
                    == pass_normals(
                    old(m).normals@,
                    old(m).heights@,
                    pts@.take(t + 1),
                    stepi,
                    msi,
                )[v] by {
                    let gxv = v % (msi + 1);
                    let gyv = v / (msi + 1);
                    if affected(pts@.take(t + 1), stepi, gxv, gyv) {
                        let j = choose|j: int|
                            0 <= j < pts@.take(t + 1).len() && #[trigger] pts@.take(t + 1)[j].x
                                == gxv * stepi && pts@.take(t + 1)[j].y == gyv * stepi;
                        if j == t {
                            vstd::arithmetic::div_mod::lemma_mod_multiples_basic(gxv, stepi);
                            vstd::arithmetic::div_mod::lemma_mod_multiples_basic(gyv, stepi);
                        } else {
                            assert(pts@.take(t as int)[j] == pts@.take(t + 1)[j]);
                            assert(affected(pts@.take(t as int), stepi, gxv, gyv));
                        }
                    }
                    if affected(pts@.take(t as int), stepi, gxv, gyv) {
                        let j = choose|j: int|
                            0 <= j < pts@.take(t as int).len() && #[trigger] pts@.take(
                                t as int,
                            )[j].x == gxv * stepi && pts@.take(t as int)[j].y == gyv * stepi;
                        assert(pts@.take(t + 1)[j] == pts@.take(t as int)[j]);
                        assert(affected(pts@.take(t + 1), stepi, gxv, gyv));
                    }
                };
                assert(m.normals@ =~= pass_normals(
                    old(m).normals@,
                    old(m).heights@,
                    pts@.take(t + 1),
                    stepi,
                    msi,
                ));
            }
        }
        t += 1;
    }
    proof {
        assert(pts@.take(n as int) =~= pts@);
    }
}

/// The height pass reads the same values from any extension of the
/// height field, since materializing chunks changes no reading.
pub proof fn lemma_pass_heights_extends(
    orig: Seq<i64>,
    a: Map<u64, Seq<i64>>,
    b: Map<u64, Seq<i64>>,
    size: int,
    c: ChunkPos,
    pts: Seq<LocalPoint>,
    step: int,
    ms: int,
)
    requires
        heights_extends(a, b, size),
    ensures
        pass_heights(orig, b, size, c, pts, step, ms) == pass_heights(
            orig,
            a,
            size,
            c,
            pts,
            step,
            ms,
        ),
{
    assert forall|vi: int| 0 <= vi < orig.len() implies pass_heights(
        orig,
        b,
        size,
        c,
        pts,
        step,
        ms,
    )[vi] == pass_heights(orig, a, size, c, pts, step, ms)[vi] by {
        let gx = vi % (ms + 1);
        let gy = vi / (ms + 1);
        if affected(pts, step, gx, gy) {
            lemma_extends_height_at(a, b, size, c.x * size + gx * step, c.y * size + gy * step);
        }
    };
    assert(pass_heights(orig, b, size, c, pts, step, ms) =~= pass_heights(
        orig,
        a,
        size,
        c,
        pts,
        step,
        ms,
    ));
}

impl MasterTerrain {
    /// One frame's mesh refresh: drains the dirty tracker and, for every
    /// dirty chunk that still exists, rewrites the touched vertices of
    /// each of its LOD meshes from the height field and then recomputes
    /// their normals — heights for the whole chunk land before any normal
    /// is read, so no normal mixes old and new neighbors. Returns the
    /// chunks whose meshes changed, for the renderer to re-upload.
    pub fn update_meshes(&mut self) -> (refreshed: Vec<ChunkPos>)
        requires
            old(self).wf(),
            old(self).is_loaded(),
        ensures
            final(self).wf(),
            final(self).is_loaded(),
            final(self).dirty_map() == Map::<u64, DirtyModel>::empty(),
            final(self).chunk_dom() == old(self).chunk_dom(),
            final(self).texture_map() == old(self).texture_map(),
            final(self).spawn_queue_spec() == old(self).spawn_queue_spec(),
            final(self).destroy_queue_spec() == old(self).destroy_queue_spec(),
            final(self).chunk_size_spec() == old(self).chunk_size_spec(),
            final(self).texture_size_spec() == old(self).texture_size_spec(),
            final(self).lod_table() == old(self).lod_table(),
            heights_extends(
                old(self).height_map(),
                final(self).height_map(),
                old(self).chunk_size_spec(),
            ),
            forall|k: u64| #[trigger]
                final(self).chunk_dom().contains(k) ==> if old(self).dirty_map().contains_key(k) {
                    meshes_refreshed(
                        old(self).mesh_map()[k],
                        final(self).mesh_map()[k],
                        old(self).height_map(),
                        old(self).chunk_size_spec(),
                        ChunkPos::from_key_spec(k),
                        old(self).dirty_map()[k],
                    )
                } else {
                    final(self).mesh_map()[k] == old(self).mesh_map()[k]
                },
            forall|j: int|
                0 <= j < refreshed@.len() ==> old(self).chunk_dom().contains(
                    (#[trigger] refreshed@[j]).key_spec(),
                ) && old(self).dirty_map().contains_key(refreshed@[j].key_spec()),
            forall|k: u64|
                old(self).dirty_map().contains_key(k) && old(self).chunk_dom().contains(k)
                    ==> exists|j: int|
                    0 <= j < refreshed@.len() && (#[trigger] refreshed@[j]).key_spec() == k,
    {
        let ghost hm0 = self.height_map();
        let ghost dm0 = self.dirty_map();
        let ghost mm0 = self.mesh_map();
        let ghost dom0 = self.chunk_dom();
        let ghost cs_i = self.chunk_size_spec();
        let regions = self.drain_dirty_regions();
        let mut refreshed: Vec<ChunkPos> = Vec::new();
        proof {
            lemma_extends_refl(hm0, cs_i);
        }
        let n = regions.len();
        let mut i: usize = 0;
        while i < n
            invariant
                old(self).wf(),
                old(self).is_loaded(),
                self.wf(),
                self.is_loaded(),
                n == regions@.len(),
                i <= n,
                cs_i == self.chunk_size_spec(),
                cs_i == old(self).chunk_size_spec(),
                hm0 == old(self).height_map(),
                dm0 == old(self).dirty_map(),
                mm0 == old(self).mesh_map(),
                dom0 == old(self).chunk_dom(),
                self.dirty_map() == Map::<u64, DirtyModel>::empty(),
                self.chunk_dom() == dom0,
                self.texture_map() == old(self).texture_map(),
                self.spawn_queue_spec() == old(self).spawn_queue_spec(),
                self.destroy_queue_spec() == old(self).destroy_queue_spec(),
                self.texture_size_spec() == old(self).texture_size_spec(),
                self.lod_table() == old(self).lod_table(),
                heights_extends(hm0, self.height_map(), cs_i),
                forall|j: int|
                    0 <= j < regions@.len() ==> {
                        let k = (#[trigger] regions@[j]).0.key_spec();
                        &&& dm0.contains_key(k)
                        &&& dom0.contains(k)
                        &&& regions@[j].1@ == dm0[k]
                        &&& regions@[j].0 == ChunkPos::from_key_spec(k)
                        &&& -0x4001_0000 <= regions@[j].0.x <= 0x4001_0000
                        &&& -0x4001_0000 <= regions@[j].0.y <= 0x4001_0000
                    },
                forall|a: int, b: int|
                    0 <= a < b < regions@.len() ==> (#[trigger] regions@[a]).0.key_spec() != (
                    #[trigger] regions@[b]).0.key_spec(),
                forall|k: u64|
                    dm0.contains_key(k) && dom0.contains(k) ==> exists|j: int|
                        0 <= j < regions@.len() && (#[trigger] regions@[j]).0.key_spec() == k,
                forall|j: int|
                    0 <= j < i ==> meshes_refreshed(
                        mm0[(#[trigger] regions@[j]).0.key_spec()],
                        self.mesh_map()[regions@[j].0.key_spec()],
                        hm0,
                        cs_i,
                        regions@[j].0,
                        regions@[j].1@,
                    ),
                forall|k: u64| #[trigger]
                    self.chunk_dom().contains(k) ==> (exists|j: int|
                        0 <= j < i && (#[trigger] regions@[j]).0.key_spec() == k)
                        || self.mesh_map()[k] == mm0[k],
                refreshed@.len() == i,
                forall|j: int| 0 <= j < i ==> #[trigger] refreshed@[j] == regions@[j].0,
            decreases n - i,
        {
            let entry = &regions[i];
            let c = entry.0;
            let k = c.key();
            proof {
                crate::lemma_key_pack_unpack(c.key_spec());
                assert(k == regions@[i as int].0.key_spec());
                // The region's points stay on the chunk's lattice.
                assert(dm0.contains_key(k));
            }
            let cs = self.chunk_size;
            let pts = expand_region(&entry.1, cs);
            proof {
                assert(entry.1@ == dm0[k]);
                assert forall|a: int| 0 <= a < pts@.len() implies (#[trigger] pts@[a]).x <= cs
                    && pts@[a].y <= cs by {
                    match entry.1@ {
                        DirtyModel::All => {
                            let side = cs_i + 1;
                            crate::coords::lemma_coord_round_trip(a, side);
                            assert(pts@[a].x == (a % side) as usize);
                            assert(pts@[a].y == (a / side) as usize);
                            assert(0 <= a % side < side);
                            assert(0 <= a / side) by {
                                vstd::arithmetic::div_mod::lemma_div_basics_4(a, side);
                            };
                            assert(a < side * side);
                            vstd::arithmetic::div_mod::lemma_multiply_divide_lt(a, side, side);
                            assert(a / side < side);
                            assert(pts@[a].x <= cs && pts@[a].y <= cs);
                        },
                        DirtyModel::Points(s) => {
                            assert(old(self).data_wf());
                            assert(old(self).dirty_map().contains_key(k));
                            assert(old(self).dirty_map()[k] == DirtyModel::Points(s));
                            assert(match old(self).dirty_map()[k] {
                                DirtyModel::All => true,
                                DirtyModel::Points(s2) => forall|j: int|
                                    0 <= j < s2.len() ==> (#[trigger] s2[j]).x <= old(
                                        self,
                                    ).chunk_size_spec() && s2[j].y <= old(self).chunk_size_spec(),
                            });
                            assert(pts@[a] == s[a]);
                            assert(s[a].x <= old(self).chunk_size_spec());
                            assert(s[a].y <= old(self).chunk_size_spec());
                            assert(pts@[a].x <= cs && pts@[a].y <= cs);
                        },
                    }
                };
            }
            let ghost mm_entry = self.mesh_map();
            match self.chunks.remove(k) {
                Some(mut meshes) => {
                    let ghost mso = meshes@;
                    proof {
                        assert(mm_entry.contains_key(k));
                        assert(meshes@ == mm_entry[k]);
                        assert(chunk_meshes_wf(mso, cs_i, self.lod.levels@));
                        assert(self.mesh_map() =~= mm_entry.remove(k));
                    }
                    let mcount = meshes.len();
                    let mut j: usize = 0;
                    while j < mcount
                        invariant
                            old(self).wf(),
                            old(self).is_loaded(),
                            self.wf(),
                            self.is_loaded(),
                            cs == self.chunk_size_spec(),
                            cs_i == cs as int,
                            hm0 == old(self).height_map(),
                            self.dirty_map() == Map::<u64, DirtyModel>::empty(),
                            self.mesh_map() == mm_entry.remove(k),
                            self.texture_map() == old(self).texture_map(),
                            self.spawn_queue_spec() == old(self).spawn_queue_spec(),
                            self.destroy_queue_spec() == old(self).destroy_queue_spec(),
                            self.texture_size_spec() == old(self).texture_size_spec(),
                            self.lod_table() == old(self).lod_table(),
                            heights_extends(hm0, self.height_map(), cs_i),
                            j <= mcount,
                            mcount == mso.len(),
                            meshes@.len() == mso.len(),
                            chunk_meshes_wf(mso, cs_i, self.lod.levels@),
                            -0x4001_0000 <= c.x <= 0x4001_0000,
                            -0x4001_0000 <= c.y <= 0x4001_0000,
                            forall|a: int|
                                0 <= a < pts@.len() ==> (#[trigger] pts@[a]).x <= cs && pts@[a].y
                                    <= cs,
                            forall|a: int|
                                j <= a < mso.len() ==> #[trigger] meshes@[a] == mso[a],
                            forall|a: int|
                                0 <= a < j ==> {
                                    let mo = mso[a];
                                    let mn = #[trigger] meshes@[a];
                                    &&& mn.wf()
                                    &&& mn.mesh_reduce == mo.mesh_reduce
                                    &&& mn.mesh_size == mo.mesh_size
                                    &&& mn.step == mo.step
                                    &&& mn.indices@ == mo.indices@
                                    &&& mn.heights@ == pass_heights(
                                        mo.heights@,
                                        hm0,
                                        cs_i,
                                        c,
                                        pts@,
                                        mo.step as int,
                                        mo.mesh_size as int,
                                    )
                                    &&& mn.normals@ == pass_normals(
                                        mo.normals@,
                                        mn.heights@,
                                        pts@,
                                        mo.step as int,
                                        mo.mesh_size as int,
                                    )
                                },
                        decreases mcount - j,
                    {
                        let ghost hm_before = self.height_map();
                        let ghost mo = meshes@[j as int];
                        self.refresh_mesh_heights(&mut meshes[j], c, &pts);
                        proof {
                            lemma_extends_trans(hm0, hm_before, self.height_map(), cs_i);
                            lemma_pass_heights_extends(
                                mo.heights@,
                                hm0,
                                hm_before,
                                cs_i,
                                c,
                                pts@,
                                mo.step as int,
                                mo.mesh_size as int,
                            );
                        }
                        refresh_mesh_normals(&mut meshes[j], &pts, cs);
                        j += 1;
                    }
                    self.chunks.insert(k, meshes);
                    refreshed.push(c);
                    proof {
                        assert(self.mesh_map() =~= mm_entry.remove(k).insert(k, meshes@));
                        assert(self.chunk_dom() =~= dom0);
                        assert(meshes_refreshed(mso, meshes@, hm0, cs_i, c, regions@[i as int].1@))
                            by {
                            assert(region_points(regions@[i as int].1@, cs_i) == pts@);
                        };
                        assert forall|kk: u64| #[trigger]
                            self.mesh_map().contains_key(kk) implies chunk_meshes_wf(
                            self.mesh_map()[kk],
                            cs_i,
                            self.lod.levels@,
                        ) && key_in_range(kk) by {
                            if kk == k {
                                assert forall|a: int| 0 <= a < meshes@.len() implies (
                                #[trigger] meshes@[a]).wf() && meshes@[a].mesh_reduce
                                    == self.lod.levels@[a].mesh_reduce && meshes@[a].mesh_size
                                    * meshes@[a].step == cs_i by {
                                    assert(mso[a].wf());
                                };
                            } else {
                                assert(mm_entry.contains_key(kk));
                            }
                        };
                        assert(self.wf());
                    }
                },
                None => {
                    proof {
                        assert(false);
                    }
                },
            }
            i += 1;
        }
        proof {
            assert forall|k: u64| #[trigger] self.chunk_dom().contains(k) implies (if dm0
                .contains_key(k) {
                meshes_refreshed(
                    mm0[k],
                    self.mesh_map()[k],
                    hm0,
                    cs_i,
                    ChunkPos::from_key_spec(k),
                    dm0[k],
                )
            } else {
                self.mesh_map()[k] == mm0[k]
            }) by {
                if dm0.contains_key(k) {
                    let j = choose|j: int|
                        0 <= j < regions@.len() && (#[trigger] regions@[j]).0.key_spec() == k;
                    assert(meshes_refreshed(
                        mm0[k],
                        self.mesh_map()[k],
                        hm0,
                        cs_i,
                        regions@[j].0,
                        regions@[j].1@,
                    ));
                } else {
                    if exists|j: int|
                        0 <= j < regions@.len() && (#[trigger] regions@[j]).0.key_spec() == k {
                        let j = choose|j: int|
                            0 <= j < regions@.len() && (#[trigger] regions@[j]).0.key_spec() == k;
                        assert(dm0.contains_key(k));
                    }
                }
            };
            assert forall|k: u64|
                dm0.contains_key(k) && dom0.contains(k) implies exists|j: int|
                0 <= j < refreshed@.len() && (#[trigger] refreshed@[j]).key_spec() == k by {
                let j = choose|j: int|
                    0 <= j < regions@.len() && (#[trigger] regions@[j]).0.key_spec() == k;
                assert(refreshed@[j] == regions@[j].0);
            };
        }
        refreshed
    }
}

impl MasterTerrain {
    /// The index of every existing chunk, each exactly once; the bulk
    /// persistence pass walks these.
    pub fn chunk_positions(&self) -> (out: Vec<ChunkPos>)
        requires
            self.wf(),
        ensures
            forall|j: int|
                0 <= j < out@.len() ==> self.chunk_dom().contains(
                    (#[trigger] out@[j]).key_spec(),
                ),
            forall|a: int, b: int|
                0 <= a < b < out@.len() ==> (#[trigger] out@[a]).key_spec() != (
                #[trigger] out@[b]).key_spec(),
            forall|k: u64| #[trigger]
                self.chunk_dom().contains(k) ==> exists|j: int|
                    0 <= j < out@.len() && (#[trigger] out@[j]).key_spec() == k,
            out@.len() == self.chunk_dom().len(),
    {
        proof {
            self.chunks.lemma_keys_seq();
            self.chunks.lemma_dom_finite();
            self.chunks.keys_seq().unique_seq_to_set();
            assert(self.chunks@.dom() =~= self.chunk_dom());
        }
        let n = self.chunks.len();
        let mut out: Vec<ChunkPos> = Vec::new();
        let mut i: usize = 0;
        while i < n
            invariant
                self.wf(),
                n == self.chunks.keys_seq().len(),
                n == self.chunk_dom().len(),
                i <= n,
                out@.len() == i,
                forall|j: int|
                    0 <= j < i ==> (#[trigger] out@[j]).key_spec() == self.chunks.keys_seq()[j]
                        && out@[j] == ChunkPos::from_key_spec(self.chunks.keys_seq()[j]),
                forall|j: int|
                    0 <= j < i ==> self.chunk_dom().contains((#[trigger] out@[j]).key_spec()),
            decreases n - i,
        {
            let k = self.chunks.key_at(i);
            proof {
                crate::lemma_key_pack_unpack(k);
                assert(self.chunks@.dom() =~= self.chunk_dom());
            }
            out.push(ChunkPos::from_key(k));
            i += 1;
        }
        proof {
            self.chunks.lemma_keys_seq();
            assert forall|a: int, b: int| 0 <= a < b < out@.len() implies (
            #[trigger] out@[a]).key_spec() != (#[trigger] out@[b]).key_spec() by {
                assert(self.chunks.keys_seq()[a] != self.chunks.keys_seq()[b]);
            };
            assert forall|k: u64| #[trigger] self.chunk_dom().contains(k) implies exists|j: int|
                0 <= j < out@.len() && (#[trigger] out@[j]).key_spec() == k by {
                assert(self.chunks.keys_seq().to_set().contains(k));
                let j = choose|j: int|
                    0 <= j < self.chunks.keys_seq().len() && #[trigger] self.chunks.keys_seq()[j]
                        == k;
                assert(out@[j].key_spec() == k);
            };
        }
        out
    }

    /// The stored height array of a chunk, if any cell of it was ever
    /// read or written; a chunk can exist while its heights are still
    /// only implied by the noise source.
    pub fn heights_of_chunk(&self, pos: &ChunkPos) -> (r: Option<&Vec<i64>>)
        requires
            self.wf(),
        ensures
            match r {
                Some(v) => self.height_map().contains_key(pos.key_spec()) && v@
                    == self.height_map()[pos.key_spec()],
                None => !self.height_map().contains_key(pos.key_spec()),
            },
    {
        self.heights.get(pos.key())
    }

    /// The texture buffer associated with a chunk index, if one exists.
    pub fn texture_of_chunk(&self, pos: &ChunkPos) -> (r: Option<&Vec<u8>>)
        requires
            self.wf(),
        ensures
            match r {
                Some(v) => self.texture_map().contains_key(pos.key_spec()) && v@
                    == self.texture_map()[pos.key_spec()],
                None => !self.texture_map().contains_key(pos.key_spec()),
            },
    {
        self.textures.get(pos.key())
    }

    /// Reinstates one saved chunk: queues it for spawning and, where the
    /// saved data holds them, restores its height array and texture.
    /// Empty blobs mean "never materialized" and leave lazy generation
    /// (or the spawn pass's fresh texture) in charge.
    pub fn restore_chunk(&mut self, pos: ChunkPos, heights: Vec<i64>, texture: Vec<u8>) -> (r:
        Result<(), TerrainError>)
        requires
            old(self).wf(),
            chunk_in_range(pos),
        ensures
            final(self).wf(),
            r is Err ==> *final(self) == *old(self),
            r == Err::<(), TerrainError>(TerrainError::NotLoaded) <==> !old(self).is_loaded(),
            r is Ok <==> old(self).is_loaded() && restorable_heights(
                heights@,
                old(self).chunk_size_spec(),
            ) && (texture@.len() == 0 || texture@.len() == old(self).texture_size_spec() * old(
                self,
            ).texture_size_spec() * 4),
            r is Ok ==> {
                &&& final(self).spawn_queue_spec() == old(self).spawn_queue_spec().push(pos)
                &&& final(self).height_map() == if heights@.len() == 0 {
                    old(self).height_map()
                } else {
                    old(self).height_map().insert(pos.key_spec(), heights@)
                }
                &&& final(self).texture_map() == if texture@.len() == 0 {
                    old(self).texture_map()
                } else {
                    old(self).texture_map().insert(pos.key_spec(), texture@)
                }
                &&& final(self).mesh_map() == old(self).mesh_map()
                &&& final(self).dirty_map() == old(self).dirty_map()
                &&& final(self).destroy_queue_spec() == old(self).destroy_queue_spec()
                &&& final(self).chunk_size_spec() == old(self).chunk_size_spec()
                &&& final(self).texture_size_spec() == old(self).texture_size_spec()
                &&& final(self).lod_table() == old(self).lod_table()
                &&& final(self).is_loaded()
            },
    {
        if !self.loaded {
            return Err(TerrainError::NotLoaded);
        }
        let cs = self.chunk_size;
        let ts = self.texture_size;
        if heights.len() != 0 {
            proof {
                assert(cs * cs <= 0x1000 * 0x1000) by (nonlinear_arith)
                    requires
                        cs <= 0x1000,
                ;
            }
            if heights.len() != cs * cs {
                return Err(TerrainError::InvalidChunkData);
            }
            let mut i: usize = 0;
            let n = heights.len();
            while i < n
                invariant
                    *self == *old(self),
                    old(self).wf(),
                    old(self).is_loaded(),
                    n == heights@.len(),
                    i <= n,
                    forall|j: int|
                        0 <= j < i ==> -HEIGHT_LIMIT <= #[trigger] heights@[j] <= HEIGHT_LIMIT,
                decreases n - i,
            {
                let h = heights[i];
                if h < -HEIGHT_LIMIT || h > HEIGHT_LIMIT {
                    return Err(TerrainError::InvalidChunkData);
                }
                i += 1;
            }
        }
        if texture.len() != 0 {
            proof {
                assert(ts * ts <= 0x4000 * 0x4000) by (nonlinear_arith)
                    requires
                        ts <= 0x4000,
                ;
            }
            if texture.len() != ts * ts * 4 {
                return Err(TerrainError::InvalidChunkData);
            }
        }
        proof {
            crate::lemma_chunk_key_round_trip(pos);
        }
        let ghost hm0 = self.height_map();
        let ghost tm0 = self.texture_map();
        let hlen = heights.len();
        let tlen = texture.len();
        if hlen != 0 {
            let ghost hview = heights@;
            self.heights.insert(pos.key(), heights);
            proof {
                assert(self.height_map() =~= hm0.insert(pos.key_spec(), hview));
            }
        }
        if tlen != 0 {
            let ghost tview = texture@;
            self.textures.insert(pos.key(), texture);
            proof {
                assert(self.texture_map() =~= tm0.insert(pos.key_spec(), tview));
                assert(self.height_map() == if hlen == 0 {
                    hm0
                } else {
                    self.height_map()
                });
            }
        }
        proof {
            assert(self.mesh_map() == old(self).mesh_map());
            assert(self.dirty_map() == old(self).dirty_map());
        }
        self.spawn_chunk(pos);
        Ok(())
    }
}

/// A saved height blob fits this terrain: absent, or exactly one cell per
/// chunk cell with every value in the storable range.
pub open spec fn restorable_heights(hs: Seq<i64>, size: int) -> bool {
    hs.len() == 0 || (hs.len() == size * size && forall|j: int|
        0 <= j < hs.len() ==> -HEIGHT_LIMIT <= #[trigger] hs[j] <= HEIGHT_LIMIT)
}

} // verus!
