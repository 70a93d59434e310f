//! Dirty-region tracking: which mesh vertices of which chunks must be
//! refreshed before the next frame is drawn.
//!
//! A chunk's region is either "every vertex" or a list of touched points.
//! Escalating to "every vertex" is one-way; points marked afterwards change
//! nothing. A write on a chunk's western or southern edge also dirties the
//! shared vertex ring of the neighboring chunk, so adjoining meshes stay
//! stitched together.

use crate::ChunkPos;
use vstd::prelude::*;

verus! {

/// A point of a chunk's full-resolution vertex lattice. Coordinates run
/// from 0 to the chunk side inclusive: the top row and right column are
/// shared with the neighboring chunks' meshes.
#[derive(Clone, Copy, PartialEq, Eq, Structural, Debug)]
pub struct LocalPoint {
    pub x: usize,
    pub y: usize,
}

/// Which vertices of one chunk need refreshing.
pub enum DirtyRegion {
    /// Every vertex of the chunk.
    AllVertices,
    /// Exactly the listed points; duplicates are harmless.
    Points(Vec<LocalPoint>),
}

/// Mathematical shape of a [`DirtyRegion`].
pub enum DirtyModel {
    All,
    Points(Seq<LocalPoint>),
}

impl View for DirtyRegion {
    type V = DirtyModel;

    open spec fn view(&self) -> DirtyModel {
        match self {
            DirtyRegion::AllVertices => DirtyModel::All,
            DirtyRegion::Points(v) => DirtyModel::Points(v@),
        }
    }
}

/// Effect of marking a whole chunk dirty: its region becomes (or stays)
/// "every vertex", whatever it was.
pub open spec fn mark_all_model(m: Map<u64, DirtyModel>, k: u64) -> Map<u64, DirtyModel> {
    m.insert(k, DirtyModel::All)
}

/// Effect of marking one point of one chunk dirty: a no-op on a chunk
/// already marked whole, an append otherwise.
pub open spec fn mark_point_model(m: Map<u64, DirtyModel>, k: u64, p: LocalPoint) -> Map<
    u64,
    DirtyModel,
> {
    if m.contains_key(k) {
        match m[k] {
            DirtyModel::All => m,
            DirtyModel::Points(s) => m.insert(k, DirtyModel::Points(s.push(p))),
        }
    } else {
        m.insert(k, DirtyModel::Points(seq![p]))
    }
}

/// Whether the tracker records point `p` of the chunk keyed `k` as dirty,
/// directly or through a whole-chunk mark.
pub open spec fn covers(m: Map<u64, DirtyModel>, k: u64, p: LocalPoint) -> bool {
    m.contains_key(k) && match m[k] {
        DirtyModel::All => true,
        DirtyModel::Points(s) => s.contains(p),
    }
}

/// The chunk to the west shares this chunk's `x == 0` vertex column.
pub open spec fn west_of(c: ChunkPos) -> ChunkPos {
    ChunkPos { x: (c.x - 1) as i32, y: c.y }
}

/// The chunk to the south shares this chunk's `y == 0` vertex row.
pub open spec fn south_of(c: ChunkPos) -> ChunkPos {
    ChunkPos { x: c.x, y: (c.y - 1) as i32 }
}

pub open spec fn southwest_of(c: ChunkPos) -> ChunkPos {
    ChunkPos { x: (c.x - 1) as i32, y: (c.y - 1) as i32 }
}

/// Effect of a height write at local point `(lx, ly)` of chunk `c` on the
/// dirty tracker: the point itself is marked, and a write on the west or
/// south edge also marks the mirrored point of the shared vertex ring in
/// the neighboring chunk.
pub open spec fn mark_write_model(
    m: Map<u64, DirtyModel>,
    c: ChunkPos,
    size: usize,
    lx: usize,
    ly: usize,
) -> Map<u64, DirtyModel> {
    let m1 = mark_point_model(m, c.key_spec(), LocalPoint { x: lx, y: ly });
    let m2 = if lx == 0 {
        mark_point_model(m1, west_of(c).key_spec(), LocalPoint { x: size, y: ly })
    } else {
        m1
    };
    let m3 = if ly == 0 {
        mark_point_model(m2, south_of(c).key_spec(), LocalPoint { x: lx, y: size })
    } else {
        m2
    };
    if lx == 0 && ly == 0 {
        mark_point_model(m3, southwest_of(c).key_spec(), LocalPoint { x: size, y: size })
    } else {
        m3
    }
}

/// Marking a point always leaves that point covered.
pub proof fn lemma_mark_point_covers(m: Map<u64, DirtyModel>, k: u64, p: LocalPoint)
    ensures
        covers(mark_point_model(m, k, p), k, p),
{
    if m.contains_key(k) {
        match m[k] {
            DirtyModel::All => {},
            DirtyModel::Points(s) => {
                assert(s.push(p)[s.len() as int] == p);
            },
        }
    } else {
        assert(seq![p][0] == p);
    }
}

/// Marking further points never uncovers anything already covered.
pub proof fn lemma_mark_point_monotone(
    m: Map<u64, DirtyModel>,
    k: u64,
    p: LocalPoint,
    k2: u64,
    p2: LocalPoint,
)
    requires
        covers(m, k, p),
    ensures
        covers(mark_point_model(m, k2, p2), k, p),
{
    if k2 == k {
        match m[k] {
            DirtyModel::All => {},
            DirtyModel::Points(s) => {
                let i = choose|i: int| 0 <= i < s.len() && s[i] == p;
                assert(s.push(p2)[i] == p);
            },
        }
    }
}

/// Law: a height write marks its own point dirty, and a write on the
/// chunk's west or south edge also marks the mirrored point of the shared
/// vertex ring in the western, southern, or diagonal neighbor.
pub proof fn lemma_write_marks_shared_edges(
    m: Map<u64, DirtyModel>,
    c: ChunkPos,
    size: usize,
    lx: usize,
    ly: usize,
)
    ensures
        covers(mark_write_model(m, c, size, lx, ly), c.key_spec(), LocalPoint { x: lx, y: ly }),
        lx == 0 ==> covers(
            mark_write_model(m, c, size, lx, ly),
            west_of(c).key_spec(),
            LocalPoint { x: size, y: ly },
        ),
        ly == 0 ==> covers(
            mark_write_model(m, c, size, lx, ly),
            south_of(c).key_spec(),
            LocalPoint { x: lx, y: size },
        ),
        lx == 0 && ly == 0 ==> covers(
            mark_write_model(m, c, size, lx, ly),
            southwest_of(c).key_spec(),
            LocalPoint { x: size, y: size },
        ),
{
    let p0 = LocalPoint { x: lx, y: ly };
    let pw = LocalPoint { x: size, y: ly };
    let ps = LocalPoint { x: lx, y: size };
    let pd = LocalPoint { x: size, y: size };
    let k0 = c.key_spec();
    let kw = west_of(c).key_spec();
    let ks = south_of(c).key_spec();
    let kd = southwest_of(c).key_spec();
    let m1 = mark_point_model(m, k0, p0);
    let m2 = if lx == 0 {
        mark_point_model(m1, kw, pw)
    } else {
        m1
    };
    let m3 = if ly == 0 {
        mark_point_model(m2, ks, ps)
    } else {
        m2
    };
    lemma_mark_point_covers(m, k0, p0);
    if lx == 0 {
        lemma_mark_point_covers(m1, kw, pw);
        lemma_mark_point_monotone(m1, k0, p0, kw, pw);
    }
    if ly == 0 {
        lemma_mark_point_covers(m2, ks, ps);
        lemma_mark_point_monotone(m2, k0, p0, ks, ps);
        if lx == 0 {
            lemma_mark_point_monotone(m2, kw, pw, ks, ps);
        }
    }
    if lx == 0 && ly == 0 {
        lemma_mark_point_covers(m3, kd, pd);
        lemma_mark_point_monotone(m3, k0, p0, kd, pd);
        lemma_mark_point_monotone(m3, kw, pw, kd, pd);
        lemma_mark_point_monotone(m3, ks, ps, kd, pd);
    }
}

/// Marking a run of single points, first to last.
pub open spec fn mark_points_model(
    m: Map<u64, DirtyModel>,
    k: u64,
    ps: Seq<LocalPoint>,
) -> Map<u64, DirtyModel>
    decreases ps.len(),
{
    if ps.len() == 0 {
        m
    } else {
        mark_points_model(mark_point_model(m, k, ps[0]), k, ps.drop_first())
    }
}

/// Law: once a chunk is marked whole, marking any number of points of that
/// chunk afterwards leaves it marked whole — coarsening is one-way.
pub proof fn lemma_points_after_all_stay_all(
    m: Map<u64, DirtyModel>,
    k: u64,
    ps: Seq<LocalPoint>,
)
    ensures
        mark_points_model(mark_all_model(m, k), k, ps) == mark_all_model(m, k),
    decreases ps.len(),
{
    if ps.len() > 0 {
        assert(mark_point_model(mark_all_model(m, k), k, ps[0]) == mark_all_model(m, k));
        lemma_points_after_all_stay_all(m, k, ps.drop_first());
    }
}

} // verus!
