//! Culling the world's chunk meshes against the camera by marching through
//! slices of chunks along the axis the camera mostly faces. The slices' extent,
//! worked out from the view frustum, is given by the caller; this module walks
//! the chunks they cover and collects the meshes found there.
use vstd::prelude::*;
use std::collections::{HashMap, HashSet};
use rustc_hash::FxBuildHasher;
use crate::fx::{fx_map_u128_get, fx_set_u32_insert};

verus! {

/// Chunk coordinates.
pub type ChunkCoords = (i32, i32, i32);

/// The key chunk coordinates are recorded under: the three coordinates, as
/// unsigned 32-bit words, side by side.
pub open spec fn coord_key(c: ChunkCoords) -> u128 {
    ((c.0 as u32) as u128 * 0x1_0000_0000_0000_0000 + (c.1 as u32) as u128 * 0x1_0000_0000 + (c.2 as u32) as u128) as u128
}

/// The key chunk coordinates `(x, y, z)` are recorded under.
pub fn coord_key_of(x: i32, y: i32, z: i32) -> (r: u128)
    ensures
        r == coord_key((x, y, z)),
{
    (x as u32 as u128) * 0x1_0000_0000_0000_0000 + (y as u32 as u128) * 0x1_0000_0000 + (z as u32 as u128)
}

/// Distinct chunk coordinates are recorded under distinct keys.
pub proof fn lemma_coord_key_injective(a: ChunkCoords, b: ChunkCoords)
    requires
        coord_key(a) == coord_key(b),
    ensures
        a == b,
{
    let (a0, a1, a2) = ((a.0 as u32) as u128, (a.1 as u32) as u128, (a.2 as u32) as u128);
    let (b0, b1, b2) = ((b.0 as u32) as u128, (b.1 as u32) as u128, (b.2 as u32) as u128);
    assert(a0 * 0x1_0000_0000_0000_0000 + a1 * 0x1_0000_0000 + a2 == b0 * 0x1_0000_0000_0000_0000 + b1
        * 0x1_0000_0000 + b2);
    assert(a0 == b0 && a1 == b1 && a2 == b2) by (nonlinear_arith)
        requires
            a0 < 0x1_0000_0000,
            a1 < 0x1_0000_0000,
            a2 < 0x1_0000_0000,
            b0 < 0x1_0000_0000,
            b1 < 0x1_0000_0000,
            b2 < 0x1_0000_0000,
            a0 * 0x1_0000_0000_0000_0000 + a1 * 0x1_0000_0000 + a2 == b0 * 0x1_0000_0000_0000_0000 + b1
                * 0x1_0000_0000 + b2,
    ;
    let (x0, y0) = (a.0, b.0);
    let (x1, y1) = (a.1, b.1);
    let (x2, y2) = (a.2, b.2);
    assert((x0 as u32) == (y0 as u32) ==> x0 == y0) by (bit_vector);
    assert((x1 as u32) == (y1 as u32) ==> x1 == y1) by (bit_vector);
    assert((x2 as u32) == (y2 as u32) ==> x2 == y2) by (bit_vector);
}

/// Which coordinate is the marching axis, and which two span each slice.
#[derive(Debug, Clone, Copy, PartialEq, Eq, Structural)]
pub struct ChunkAxes {
    pub d: usize,
    pub u: usize,
    pub v: usize,
}

/// The three axes are the three coordinates, each once.
pub open spec fn axes_ok(a: ChunkAxes) -> bool {
    &&& a.d < 3 && a.u < 3 && a.v < 3
    &&& a.d != a.u && a.d != a.v && a.u != a.v
}

/// The chunk at `dd` along the marching axis and `(uu, vv)` across it.
pub open spec fn place(a: ChunkAxes, dd: i32, uu: i32, vv: i32) -> ChunkCoords {
    (
        if a.d == 0 { dd } else if a.u == 0 { uu } else { vv },
        if a.d == 1 { dd } else if a.u == 1 { uu } else { vv },
        if a.d == 2 { dd } else if a.u == 2 { uu } else { vv },
    )
}

/// One slice of chunks: its place along the marching axis and the chunks it
/// spans across it, bounds included.
#[derive(Debug, Clone, Copy, PartialEq, Eq, Structural)]
pub struct SliceBounds {
    pub d: i32,
    pub min_u: i32,
    pub max_u: i32,
    pub min_v: i32,
    pub max_v: i32,
}

/// The chunk at `c` has a mesh, and its id is `id`.
pub open spec fn cell_maps(meshes: Map<u128, u32>, c: ChunkCoords, id: u32) -> bool {
    meshes.contains_key(coord_key(c)) && meshes[coord_key(c)] == id
}

/// The meshes of the chunks of slice `s` whose second coordinate across is
/// `uu` and whose third is from `s.min_v` up to, not including, `end`.
pub open spec fn row_ids(meshes: Map<u128, u32>, a: ChunkAxes, s: SliceBounds, uu: i32, end: int) -> Set<u32> {
    Set::new(|id: u32| exists|vv: i32| s.min_v <= vv < end && #[trigger] cell_maps(meshes, place(a, s.d, uu, vv), id))
}

/// The meshes of the chunks of slice `s` whose second coordinate across is
/// from `s.min_u` up to, not including, `end`.
pub open spec fn slice_ids(meshes: Map<u128, u32>, a: ChunkAxes, s: SliceBounds, end: int) -> Set<u32> {
    Set::new(
        |id: u32|
            exists|uu: i32, vv: i32|
                s.min_u <= uu < end && s.min_v <= vv <= s.max_v && #[trigger] cell_maps(
                    meshes,
                    place(a, s.d, uu, vv),
                    id,
                ),
    )
}

/// The meshes of the chunks covered by the first `n` slices.
pub open spec fn slices_ids(meshes: Map<u128, u32>, a: ChunkAxes, slices: Seq<SliceBounds>, n: int) -> Set<u32> {
    Set::new(
        |id: u32|
            exists|j: int, uu: i32, vv: i32|
                0 <= j < n && slices[j].min_u <= uu <= slices[j].max_u && slices[j].min_v <= vv
                    <= slices[j].max_v && #[trigger] cell_maps(meshes, place(a, slices[j].d, uu, vv), id),
    )
}

/// The mesh of chunk `c`, as a set of at most one id.
pub open spec fn cell_ids(meshes: Map<u128, u32>, c: ChunkCoords) -> Set<u32> {
    if meshes.contains_key(coord_key(c)) {
        set![meshes[coord_key(c)]]
    } else {
        Set::empty()
    }
}

/// Adds the mesh of the chunk at `(x, y, z)`, if it has one.
fn visit_chunk(meshes: &HashMap<u128, u32, FxBuildHasher>, x: i32, y: i32, z: i32, out: &mut HashSet<u32, FxBuildHasher>)
    ensures
        final(out)@ == old(out)@.union(cell_ids(meshes@, (x, y, z))),
{
    let key = coord_key_of(x, y, z);
    match fx_map_u128_get(meshes, key) {
        Some(id) => {
            fx_set_u32_insert(out, *id);
            proof {
                assert(final(out)@ =~= old(out)@.union(cell_ids(meshes@, (x, y, z))));
            }
        },
        None => {
            proof {
                assert(final(out)@ =~= old(out)@.union(cell_ids(meshes@, (x, y, z))));
            }
        },
    }
}

/// The coordinates of the chunk at `dd` along the marching axis and
/// `(uu, vv)` across it.
fn place_of(a: ChunkAxes, dd: i32, uu: i32, vv: i32) -> (r: ChunkCoords)
    requires
        axes_ok(a),
    ensures
        r == place(a, dd, uu, vv),
{
    let x = if a.d == 0 { dd } else if a.u == 0 { uu } else { vv };
    let y = if a.d == 1 { dd } else if a.u == 1 { uu } else { vv };
    let z = if a.d == 2 { dd } else if a.u == 2 { uu } else { vv };
    (x, y, z)
}

/// Adds the meshes of one row of slice `s`.
fn cull_row(meshes: &HashMap<u128, u32, FxBuildHasher>, a: ChunkAxes, s: SliceBounds, uu: i32, out: &mut HashSet<u32, FxBuildHasher>)
    requires
        axes_ok(a),
    ensures
        final(out)@ == old(out)@.union(row_ids(meshes@, a, s, uu, s.max_v as int + 1)),
{
    let mut vv: i64 = s.min_v as i64;
    while vv <= s.max_v as i64
        invariant
            axes_ok(a),
            s.min_v <= vv <= s.max_v as int + 1 || (vv == s.min_v && s.min_v > s.max_v),
            out@ == old(out)@.union(row_ids(meshes@, a, s, uu, vv as int)),
        decreases s.max_v as int + 1 - vv,
    {
        let c = place_of(a, s.d, uu, vv as i32);
        visit_chunk(meshes, c.0, c.1, c.2, out);
        proof {
            let before = row_ids(meshes@, a, s, uu, vv as int);
            let after = row_ids(meshes@, a, s, uu, vv + 1);
            assert(after =~= before.union(cell_ids(meshes@, c))) by {
                assert forall|id: u32| after.contains(id) implies before.union(cell_ids(meshes@, c)).contains(
                    id,
                ) by {
                    let w = choose|w: i32| s.min_v <= w < vv + 1 && #[trigger] cell_maps(meshes@, place(a, s.d, uu, w), id);
                    if w < vv {
                        assert(before.contains(id));
                    }
                }
                assert forall|id: u32| before.union(cell_ids(meshes@, c)).contains(id) implies after.contains(
                    id,
                ) by {
                    if cell_ids(meshes@, c).contains(id) {
                        assert(cell_maps(meshes@, place(a, s.d, uu, vv as i32), id));
                    } else {
                        let w = choose|w: i32| s.min_v <= w < vv && #[trigger] cell_maps(meshes@, place(a, s.d, uu, w), id);
                        assert(cell_maps(meshes@, place(a, s.d, uu, w), id));
                    }
                }
            }
            assert(out@ =~= old(out)@.union(after));
        }
        vv = vv + 1;
    }
    proof {
        if s.min_v > s.max_v {
            assert(row_ids(meshes@, a, s, uu, vv as int) =~= row_ids(meshes@, a, s, uu, s.max_v as int + 1));
        }
    }
}

/// Adds the meshes of slice `s`.
fn cull_slice(meshes: &HashMap<u128, u32, FxBuildHasher>, a: ChunkAxes, s: SliceBounds, out: &mut HashSet<u32, FxBuildHasher>)
    requires
        axes_ok(a),
    ensures
        final(out)@ == old(out)@.union(slice_ids(meshes@, a, s, s.max_u as int + 1)),
{
    let mut uu: i64 = s.min_u as i64;
    while uu <= s.max_u as i64
        invariant
            axes_ok(a),
            s.min_u <= uu <= s.max_u as int + 1 || (uu == s.min_u && s.min_u > s.max_u),
            out@ == old(out)@.union(slice_ids(meshes@, a, s, uu as int)),
        decreases s.max_u as int + 1 - uu,
    {
        cull_row(meshes, a, s, uu as i32, out);
        proof {
            let before = slice_ids(meshes@, a, s, uu as int);
            let row = row_ids(meshes@, a, s, uu as i32, s.max_v as int + 1);
            let after = slice_ids(meshes@, a, s, uu + 1);
            assert(after =~= before.union(row)) by {
                assert forall|id: u32| after.contains(id) implies before.union(row).contains(id) by {
                    let (p, q) = choose|p: i32, q: i32|
                        s.min_u <= p < uu + 1 && s.min_v <= q <= s.max_v && #[trigger] cell_maps(
                            meshes@,
                            place(a, s.d, p, q),
                            id,
                        );
                    if p < uu {
                        assert(before.contains(id));
                    } else {
                        assert(row.contains(id));
                    }
                }
                assert forall|id: u32| before.union(row).contains(id) implies after.contains(id) by {
                    if row.contains(id) {
                        let q = choose|q: i32| s.min_v <= q < s.max_v as int + 1 && #[trigger] cell_maps(
                            meshes@,
                            place(a, s.d, uu as i32, q),
                            id,
                        );
                        assert(cell_maps(meshes@, place(a, s.d, uu as i32, q), id));
                    } else {
                        let (p, q) = choose|p: i32, q: i32|
                            s.min_u <= p < uu && s.min_v <= q <= s.max_v && #[trigger] cell_maps(
                                meshes@,
                                place(a, s.d, p, q),
                                id,
                            );
                        assert(cell_maps(meshes@, place(a, s.d, p, q), id));
                    }
                }
            }
        }
        uu = uu + 1;
    }
    proof {
        if s.min_u > s.max_u {
            assert(slice_ids(meshes@, a, s, uu as int) =~= slice_ids(meshes@, a, s, s.max_u as int + 1));
        }
    }
}

/// Collects into `out` the meshes of the chunks covered by `slices`, then
/// that of the chunk `camera` is in.
pub fn cull_chunks_rasterizer(
    meshes: &HashMap<u128, u32, FxBuildHasher>,
    axes: ChunkAxes,
    slices: &[SliceBounds],
    camera: ChunkCoords,
    out: &mut HashSet<u32, FxBuildHasher>,
)
    requires
        axes_ok(axes),
    ensures
        final(out)@ == old(out)@.union(slices_ids(meshes@, axes, slices@, slices@.len() as int)).union(
            cell_ids(meshes@, camera),
        ),
{
    let mut i: usize = 0;
    while i < slices.len()
        invariant
            axes_ok(axes),
            i <= slices@.len(),
            out@ == old(out)@.union(slices_ids(meshes@, axes, slices@, i as int)),
        decreases slices@.len() - i,
    {
        let s = slices[i];
        cull_slice(meshes, axes, s, out);
        proof {
            let before = slices_ids(meshes@, axes, slices@, i as int);
            let here = slice_ids(meshes@, axes, s, s.max_u as int + 1);
            let after = slices_ids(meshes@, axes, slices@, i + 1);
            assert(after =~= before.union(here)) by {
                assert forall|id: u32| after.contains(id) implies before.union(here).contains(id) by {
                    let (j, p, q) = choose|j: int, p: i32, q: i32|
                        0 <= j < i + 1 && slices@[j].min_u <= p <= slices@[j].max_u && slices@[j].min_v <= q
                            <= slices@[j].max_v && #[trigger] cell_maps(meshes@, place(axes, slices@[j].d, p, q), id);
                    if j < i {
                        assert(before.contains(id));
                    } else {
                        assert(cell_maps(meshes@, place(axes, s.d, p, q), id));
                        assert(here.contains(id));
                    }
                }
                assert forall|id: u32| before.union(here).contains(id) implies after.contains(id) by {
                    if here.contains(id) {
                        let (p, q) = choose|p: i32, q: i32|
                            s.min_u <= p < s.max_u as int + 1 && s.min_v <= q <= s.max_v && #[trigger] cell_maps(
                                meshes@,
                                place(axes, s.d, p, q),
                                id,
                            );
                        assert(cell_maps(meshes@, place(axes, slices@[i as int].d, p, q), id));
                    } else {
                        let (j, p, q) = choose|j: int, p: i32, q: i32|
                            0 <= j < i && slices@[j].min_u <= p <= slices@[j].max_u && slices@[j].min_v <= q
                                <= slices@[j].max_v && #[trigger] cell_maps(
                                meshes@,
                                place(axes, slices@[j].d, p, q),
                                id,
                            );
                        assert(cell_maps(meshes@, place(axes, slices@[j].d, p, q), id));
                    }
                }
            }
        }
        i = i + 1;
    }
    visit_chunk(meshes, camera.0, camera.1, camera.2, out);
}

} // verus!
