//! Distance-based level-of-detail selection.
//!
//! A LOD table is an ordered list of `(mesh_reduce, max_view_distance)`
//! pairs, ascending in view distance; the last entry covers all remaining
//! distance. A chunk drawn from distance `d` uses the first level whose
//! threshold exceeds `d`. Distances are fixed-point values with
//! [`crate::DIST_ONE`] units per world unit.

use crate::DIST_ONE;
use vstd::prelude::*;

verus! {

/// One level of detail: meshes reduced `mesh_reduce` times, shown up to
/// (exclusive) `max_view_distance` distance units.
#[derive(Clone, Copy, PartialEq, Eq, Structural, Debug)]
pub struct LODLevel {
    pub mesh_reduce: usize,
    pub max_view_distance: u64,
}

impl LODLevel {
    pub fn new(mesh_reduce: usize, max_view_distance: u64) -> (l: LODLevel)
        ensures
            l.mesh_reduce == mesh_reduce && l.max_view_distance == max_view_distance,
    {
        LODLevel { mesh_reduce, max_view_distance }
    }
}

/// The ordered table of levels.
pub struct LOD {
    pub levels: Vec<LODLevel>,
}

/// The reduction factor of the first level whose threshold exceeds `d`,
/// or nothing when every threshold is at or below `d`.
pub open spec fn selected(levels: Seq<LODLevel>, d: u64) -> Option<usize>
    decreases levels.len(),
{
    if levels.len() == 0 {
        None
    } else if d < levels[0].max_view_distance {
        Some(levels[0].mesh_reduce)
    } else {
        selected(levels.drop_first(), d)
    }
}

/// The table shape every loaded terrain maintains: at least one level,
/// thresholds never decreasing, and the last threshold unbounded.
pub open spec fn table_wf(levels: Seq<LODLevel>) -> bool {
    &&& levels.len() > 0
    &&& levels.last().max_view_distance == u64::MAX
    &&& forall|i: int, j: int|
        0 <= i <= j < levels.len() ==> #[trigger] levels[i].max_view_distance
            <= #[trigger] levels[j].max_view_distance
}

impl LOD {
    /// Scans the table in order and returns the reduction factor of the
    /// first level still covering `distance`; `None` is the defensive
    /// answer to a distance beyond the whole table.
    pub fn get(&self, distance: u64) -> (r: Option<usize>)
        ensures
            r == selected(self.levels@, distance),
    {
        let n = self.levels.len();
        let mut i: usize = 0;
        proof {
            assert(self.levels@.skip(0) =~= self.levels@);
        }
        while i < n
            invariant
                n == self.levels@.len(),
                i <= n,
                selected(self.levels@, distance) == selected(self.levels@.skip(i as int), distance),
                forall|j: int| 0 <= j < i ==> distance >= #[trigger] self.levels@[j].max_view_distance,
            decreases n - i,
        {
            proof {
                assert(self.levels@.skip(i as int)[0] == self.levels@[i as int]);
            }
            if distance < self.levels[i].max_view_distance {
                return Some(self.levels[i].mesh_reduce);
            }
            proof {
                assert(self.levels@.skip(i as int).drop_first() =~= self.levels@.skip(i + 1));
            }
            i += 1;
        }
        None
    }

    /// Law: under the table invariant, every distance below the unbounded
    /// ceiling selects some level — selection cannot fail in a loaded
    /// terrain.
    pub proof fn lemma_selection_total(levels: Seq<LODLevel>, d: u64)
        requires
            table_wf(levels),
            d < u64::MAX,
        ensures
            selected(levels, d) is Some,
        decreases levels.len(),
    {
        if levels.len() > 0 && d >= levels[0].max_view_distance {
            assert(levels.drop_first().last() == levels.last());
            Self::lemma_selection_total(levels.drop_first(), d);
        }
    }
}

/// Ready-made LOD tables, from densest to cheapest.
pub enum QualityPreset {
    Ultra,
    VeryHigh,
    High,
    Medium,
    Low,
    Potato,
}

impl QualityPreset {
    /// The preset's LOD table; every one satisfies the table invariant.
    pub fn to_lod(&self) -> (levels: Vec<LODLevel>)
        ensures
            table_wf(levels@),
            forall|i: int|
                0 <= i < levels@.len() ==> #[trigger] levels@[i].mesh_reduce <= 4,
    {
        let mut levels: Vec<LODLevel> = Vec::new();
        match self {
            QualityPreset::Ultra => {
                levels.push(LODLevel::new(0, u64::MAX));
            },
            QualityPreset::VeryHigh => {
                levels.push(LODLevel::new(0, 200 * DIST_ONE));
                levels.push(LODLevel::new(1, 1000 * DIST_ONE));
                levels.push(LODLevel::new(2, 4000 * DIST_ONE));
                levels.push(LODLevel::new(3, u64::MAX));
            },
            QualityPreset::High => {
                levels.push(LODLevel::new(0, 200 * DIST_ONE));
                levels.push(LODLevel::new(1, 500 * DIST_ONE));
                levels.push(LODLevel::new(2, 2000 * DIST_ONE));
                levels.push(LODLevel::new(4, u64::MAX));
            },
            QualityPreset::Medium => {
                levels.push(LODLevel::new(0, 200 * DIST_ONE));
                levels.push(LODLevel::new(1, 500 * DIST_ONE));
                levels.push(LODLevel::new(4, u64::MAX));
            },
            QualityPreset::Low => {
                levels.push(LODLevel::new(1, 200 * DIST_ONE));
                levels.push(LODLevel::new(2, 500 * DIST_ONE));
                levels.push(LODLevel::new(4, u64::MAX));
            },
            QualityPreset::Potato => {
                levels.push(LODLevel::new(3, u64::MAX));
            },
        }
        levels
    }
}

} // verus!
