use crate::mesh::{
    edge_from, edge_to, flipped, flipped_tri, has_edge, is_closed, lemma_contains_edge,
    lemma_flipped_edge, lemma_has_edge_concat, shifted, triples, TerrainMesh,
};
use vstd::prelude::*;

verus! {

// ── Building solids: the model ──────────────────────────────────────────────
/// Index of the first vertex of ring `r` in a ring layout with the given sizes.
pub open spec fn ring_offset(sizes: Seq<usize>, r: int) -> int
    decreases r,
{
    if r <= 0 {
        0
    } else {
        ring_offset(sizes, r - 1) + sizes[r - 1]
    }
}

/// Number of vertices in all rings.
pub open spec fn ring_total(sizes: Seq<usize>) -> int {
    ring_offset(sizes, sizes.len() as int)
}

/// Position after `i` in a cyclic ring of `s` vertices.
pub open spec fn cyc_next(i: int, s: int) -> int {
    if i + 1 == s {
        0
    } else {
        i + 1
    }
}

pub open spec fn idx(x: int) -> usize {
    x as usize
}

/// Lower triangle of the quad between edge `p → q` of a lower ring (vertices
/// from `lo`) and the same edge of an upper ring (vertices from `hi`).
pub open spec fn band_lo(lo: int, hi: int, p: int, q: int) -> [usize; 3] {
    [idx(lo + p), idx(lo + q), idx(hi + p)]
}

/// Upper triangle of the same quad.
pub open spec fn band_hi(lo: int, hi: int, p: int, q: int) -> [usize; 3] {
    [idx(hi + p), idx(lo + q), idx(hi + q)]
}

/// The quads joining the first `c` edges of a ring of `s` vertices at offset
/// `off` in a lower layer `lo` to the same ring in an upper layer `hi`.
pub open spec fn band(lo: int, hi: int, off: int, s: int, c: int) -> Seq<[usize; 3]>
    decreases c,
{
    if c <= 0 {
        Seq::empty()
    } else {
        band(lo, hi, off, s, c - 1) + seq![
            band_lo(lo, hi, off + c - 1, off + cyc_next(c - 1, s)),
            band_hi(lo, hi, off + c - 1, off + cyc_next(c - 1, s)),
        ]
    }
}

/// Walls of a building solid: one band per ring, bottom layer `lo`, top layer `hi`.
pub open spec fn walls(lo: int, hi: int, sizes: Seq<usize>, r: int) -> Seq<[usize; 3]>
    decreases r,
{
    if r <= 0 {
        Seq::empty()
    } else {
        walls(lo, hi, sizes, r - 1) + band(
            lo,
            hi,
            ring_offset(sizes, r - 1),
            sizes[r - 1] as int,
            sizes[r - 1] as int,
        )
    }
}

/// Triangles moved onto the layer starting at vertex `d`, winding kept.
pub open spec fn lifted(tris: Seq<[usize; 3]>, d: int) -> Seq<[usize; 3]> {
    tris.map_values(|t: [usize; 3]| [idx(t[0] + d), idx(t[1] + d), idx(t[2] + d)])
}

/// A fan from the first `c` edges of a ring of `n` vertices (starting at
/// vertex `start`) to the single vertex `apex`.
pub open spec fn fan(start: int, n: int, apex: int, c: int) -> Seq<[usize; 3]>
    decreases c,
{
    if c <= 0 {
        Seq::empty()
    } else {
        fan(start, n, apex, c - 1) + seq![
            [idx(start + c - 1), idx(start + cyc_next(c - 1, n)), idx(apex)],
        ]
    }
}

/// `levels` stacked bands above the eave ring (ring `k` starts at `top + k·n`).
pub open spec fn dome_bands(top: int, n: int, levels: int) -> Seq<[usize; 3]>
    decreases levels,
{
    if levels <= 0 {
        Seq::empty()
    } else {
        dome_bands(top, n, levels - 1) + band(
            top + (levels - 1) * n,
            top + levels * n,
            0,
            n,
            n,
        )
    }
}

/// A dome with `levels` intermediate rings closed by an apex fan; with no
/// intermediate ring this is the pyramid roof.
pub open spec fn dome_roof(top: int, n: int, levels: int) -> Seq<[usize; 3]> {
    dome_bands(top, n, levels) + fan(top + levels * n, n, top + (levels + 1) * n, n)
}

/// Corner `k` of the quad eave ring, after the optional label rotation that
/// puts the slopes over the long edges.
pub open spec fn ridge_corner(top: int, rotated: bool, k: int) -> usize {
    if rotated {
        idx(top + if k == 3 {
            0
        } else {
            k + 1
        })
    } else {
        idx(top + k)
    }
}

/// Gabled / hipped roof over a quad eave ring: two slopes, two end faces.
pub open spec fn ridge_roof(top: int, rotated: bool, ia: int, ib: int) -> Seq<[usize; 3]> {
    let t0 = ridge_corner(top, rotated, 0);
    let t1 = ridge_corner(top, rotated, 1);
    let t2 = ridge_corner(top, rotated, 2);
    let t3 = ridge_corner(top, rotated, 3);
    let a = idx(ia);
    let b = idx(ib);
    seq![[t0, t1, a], [t0, a, b], [t2, t3, b], [t2, b, a], [t1, t2, a], [t3, t0, b]]
}

/// Frustum roof: a band up to an inset copy of the eave ring, capped flat.
pub open spec fn frustum_roof(top: int, n: int, cap: Seq<usize>) -> Seq<[usize; 3]> {
    band(top, top + n, 0, n, n) + lifted(triples(cap), top + n)
}


pub(crate) proof fn lemma_ring_offset_mono(sizes: Seq<usize>, r1: int, r2: int)
    requires
        0 <= r1 <= r2 <= sizes.len(),
    ensures
        0 <= ring_offset(sizes, r1) <= ring_offset(sizes, r2),
    decreases r2 - r1,
{
    if r1 < r2 {
        lemma_ring_offset_mono(sizes, r1, r2 - 1);
    } else {
        lemma_ring_offset_nonneg(sizes, r1);
    }
}

pub(crate) proof fn lemma_ring_offset_nonneg(sizes: Seq<usize>, r: int)
    requires
        0 <= r <= sizes.len(),
    ensures
        0 <= ring_offset(sizes, r),
    decreases r,
{
    if r > 0 {
        lemma_ring_offset_nonneg(sizes, r - 1);
    }
}

/// Where the two vertex layers of a building solid start in the mesh.
pub struct SolidLayers {
    pub base_index: usize,
    pub top_index: usize,
}

/// Push the bottom and top (eave) rings of a building solid and the walls
/// between them: one quad (two triangles) per ring edge, with wrap-around.
///
/// `ring_sizes` lists the outer ring then the holes; `bottom` and `top` hold
/// the ring vertices in that order at the bottom and eave heights.
pub fn add_building_walls<V>(
    mesh: &mut TerrainMesh<V>,
    bottom: Vec<V>,
    top: Vec<V>,
    ring_sizes: &Vec<usize>,
) -> (layers: SolidLayers)
    requires
        bottom.len() == ring_total(ring_sizes@),
        top.len() == ring_total(ring_sizes@),
        old(mesh).vertices.len() + 2 * ring_total(ring_sizes@) <= usize::MAX,
    ensures
        layers.base_index == old(mesh).vertices.len(),
        layers.top_index == old(mesh).vertices.len() + ring_total(ring_sizes@),
        final(mesh).vertices@ == old(mesh).vertices@ + bottom@ + top@,
        final(mesh).triangles@ == old(mesh).triangles@ + walls(
            layers.base_index as int,
            layers.top_index as int,
            ring_sizes@,
            ring_sizes.len() as int,
        ),
{
    let base_index = mesh.vertices.len();
    let total = bottom.len();
    let ghost verts = mesh.vertices@ + bottom@ + top@;
    let mut bottom = bottom;
    let mut top = top;
    mesh.vertices.append(&mut bottom);
    let top_index = mesh.vertices.len();
    mesh.vertices.append(&mut top);
    assert(mesh.vertices@ =~= verts);
    let ghost tris0 = mesh.triangles@;
    let ghost sizes = ring_sizes@;

    let mut offset: usize = 0;
    let mut r: usize = 0;
    while r < ring_sizes.len()
        invariant
            0 <= r <= sizes.len(),
            sizes == ring_sizes@,
            total == ring_total(sizes),
            top_index == base_index + total,
            top_index + total <= usize::MAX,
            offset == ring_offset(sizes, r as int),
            offset <= total,
            mesh.triangles@ == tris0 + walls(base_index as int, top_index as int, sizes, r as int),
            mesh.vertices@ == verts,
        decreases sizes.len() - r,
    {
        let size = ring_sizes[r];
        proof {
            lemma_ring_offset_mono(sizes, r as int + 1, sizes.len() as int);
            assert(ring_offset(sizes, r + 1) == offset + size);
        }
        let ghost before = mesh.triangles@;
        let mut i: usize = 0;
        while i < size
            invariant
                0 <= i <= size,
                size == sizes[r as int],
                offset + size <= total,
                top_index == base_index + total,
                top_index + total <= usize::MAX,
                mesh.triangles@ == before + band(
                    base_index as int,
                    top_index as int,
                    offset as int,
                    size as int,
                    i as int,
                ),
                mesh.vertices@ == verts,
            decreases size - i,
        {
            let j = if i + 1 == size {
                0
            } else {
                i + 1
            };
            let bc = base_index + offset + i;
            let bn = base_index + offset + j;
            let tc = top_index + offset + i;
            let tn = top_index + offset + j;
            mesh.triangles.push([bc, bn, tc]);
            mesh.triangles.push([tc, bn, tn]);
            proof {
                assert(mesh.triangles@ =~= before + band(
                    base_index as int,
                    top_index as int,
                    offset as int,
                    size as int,
                    i + 1,
                ));
            }
            i = i + 1;
        }
        offset = offset + size;
        r = r + 1;
    }
    SolidLayers { base_index, top_index }
}


// ── Roofs ───────────────────────────────────────────────────────────────────
/// The roof geometry of one building solid. Vertex positions come from the
/// caller; the library lays out the triangles that close the eave ring.
pub enum RoofGeometry<V> {
    /// Flat (or single-slope) roof: the footprint triangulation on the eave ring.
    Flat,
    /// Pyramid: a fan from every eave edge to one apex.
    Pyramid { apex: V },
    /// Dome: stacked intermediate rings, each as long as the eave ring, then an apex fan.
    Dome { rings: Vec<Vec<V>>, apex: V },
    /// Gabled or hipped roof over a quad: two ridge end points; `rotated`
    /// relabels the corners from the second one so the slopes sit over the long edges.
    Ridge { rotated: bool, ridge_a: V, ridge_b: V },
    /// Frustum to an inset copy of the eave ring (as long as it), capped flat.
    Frustum { inset: Vec<V> },
}

/// Why a building solid could not be closed.
#[derive(PartialEq, Eq, Structural, Debug, Clone, Copy)]
pub enum SolidError {
    /// The footprint triangulation produced no triangles.
    DegenerateFootprint,
}

/// Concatenation of the first `k` rings.
pub open spec fn rings_flat<V>(rings: Seq<Vec<V>>, k: int) -> Seq<V>
    decreases k,
{
    if k <= 0 {
        Seq::empty()
    } else {
        rings_flat(rings, k - 1) + rings[k - 1]@
    }
}

/// Triangles of the roof over the eave ring starting at `top` (`n` vertices).
pub open spec fn roof_triangles<V>(
    roof: RoofGeometry<V>,
    top: int,
    n: int,
    cap: Seq<usize>,
) -> Seq<[usize; 3]> {
    match roof {
        RoofGeometry::Flat => lifted(triples(cap), top),
        RoofGeometry::Pyramid { .. } => dome_roof(top, n, 0),
        RoofGeometry::Dome { rings, .. } => dome_roof(top, n, rings.len() as int),
        RoofGeometry::Ridge { rotated, .. } => ridge_roof(top, rotated, top + 4, top + 5),
        RoofGeometry::Frustum { .. } => frustum_roof(top, n, cap),
    }
}

/// Vertices the roof adds after the eave ring.
pub open spec fn roof_vertices<V>(roof: RoofGeometry<V>) -> Seq<V> {
    match roof {
        RoofGeometry::Flat => Seq::empty(),
        RoofGeometry::Pyramid { apex } => seq![apex],
        RoofGeometry::Dome { rings, apex } => rings_flat(rings@, rings.len() as int).push(apex),
        RoofGeometry::Ridge { ridge_a, ridge_b, .. } => seq![ridge_a, ridge_b],
        RoofGeometry::Frustum { inset } => inset@,
    }
}

/// The roof's vertex rings fit the eave ring of `n` vertices.
pub open spec fn roof_fits<V>(roof: RoofGeometry<V>, rings: int, n: int) -> bool {
    match roof {
        RoofGeometry::Flat => true,
        RoofGeometry::Pyramid { .. } => rings == 1,
        RoofGeometry::Dome { rings: levels, .. } => rings == 1 && forall|k: int|
            0 <= k < levels.len() ==> (#[trigger] levels[k]).len() == n,
        RoofGeometry::Ridge { .. } => rings == 1 && n == 4,
        RoofGeometry::Frustum { inset } => rings == 1 && inset.len() == n,
    }
}

/// Upper bound on the vertices a roof adds.
pub open spec fn roof_vertex_bound<V>(roof: RoofGeometry<V>, n: int) -> int {
    match roof {
        RoofGeometry::Flat => 0,
        RoofGeometry::Pyramid { .. } => 1,
        RoofGeometry::Dome { rings, .. } => rings.len() * n + 1,
        RoofGeometry::Ridge { .. } => 2,
        RoofGeometry::Frustum { .. } => n,
    }
}

/// On a ridge roof over the quad eave ring at `top`, the first ridge end tops
/// the slope over the first eave edge and the gable over the second, the
/// second ridge end the slope over the third edge and the gable over the
/// fourth; the edges are counted from the first corner, or from the second
/// one when `rotated`.
pub proof fn lemma_ridge_ends_top_their_own_side<V>(
    rotated: bool,
    ridge_a: V,
    ridge_b: V,
    eave: Seq<V>,
    top: int,
    cap: Seq<usize>,
)
    requires
        0 <= top,
        eave.len() == top + 4,
        top + 6 <= usize::MAX,
    ensures
        ({
            let roof = RoofGeometry::<V>::Ridge { rotated, ridge_a, ridge_b };
            let all = eave + roof_vertices(roof);
            let tris = roof_triangles(roof, top, 4, cap);
            let r: int = if rotated {
                1
            } else {
                0
            };
            &&& all.len() == top + 6
            &&& tris.len() == 6
            &&& tris[0][0] == top + r && tris[0][1] == top + 1 + r
            &&& all[tris[0][2] as int] == ridge_a
            &&& tris[4][0] == top + 1 + r && tris[4][1] == top + 2 + r
            &&& all[tris[4][2] as int] == ridge_a
            &&& tris[2][0] == top + 2 + r && tris[2][1] == top + (3 + r) % 4
            &&& all[tris[2][2] as int] == ridge_b
            &&& tris[5][0] == top + (3 + r) % 4 && tris[5][1] == top + r
            &&& all[tris[5][2] as int] == ridge_b
        }),
{
}

/// Push the triangles of `cap` moved onto the layer starting at vertex `d`;
/// `flip` reverses their winding.
fn push_cap<V>(mesh: &mut TerrainMesh<V>, cap: &Vec<usize>, d: usize, flip: bool, Ghost(total): Ghost<int>)
    requires
        forall|i: int| 0 <= i < cap.len() ==> #[trigger] cap[i] < total,
        d + total <= usize::MAX,
    ensures
        final(mesh).vertices@ == old(mesh).vertices@,
        final(mesh).triangles@ == old(mesh).triangles@ + if flip {
            flipped(triples(cap@), d as int)
        } else {
            lifted(triples(cap@), d as int)
        },
{
    let ghost before = mesh.triangles@;
    let ghost want = if flip {
        flipped(triples(cap@), d as int)
    } else {
        lifted(triples(cap@), d as int)
    };
    let mut i: usize = 0;
    let mut c: usize = 0;
    while cap.len() - c >= 3
        invariant
            c == 3 * i,
            c <= cap.len(),
            forall|j: int| 0 <= j < cap.len() ==> #[trigger] cap[j] < total,
            d + total <= usize::MAX,
            want.len() == cap.len() / 3,
            want == (if flip {
                flipped(triples(cap@), d as int)
            } else {
                lifted(triples(cap@), d as int)
            }),
            mesh.vertices@ == old(mesh).vertices@,
            mesh.triangles@ == before + want.take(i as int),
        decreases cap.len() - c,
    {
        let a = d + cap[c];
        let b = d + cap[c + 1];
        let e = d + cap[c + 2];
        if flip {
            mesh.triangles.push([a, e, b]);
        } else {
            mesh.triangles.push([a, b, e]);
        }
        proof {
            assert(triples(cap@)[i as int] == [cap@[c as int], cap@[c + 1], cap@[c + 2]]);
            assert(want.take(i + 1) =~= want.take(i as int).push(want[i as int]));
        }
        i = i + 1;
        c = c + 3;
    }
    proof {
        assert(want.take(i as int) =~= want);
    }
}

/// Push the band of quads joining a ring of `n` vertices starting at `lo` to
/// the same ring starting at `hi`.
fn push_band<V>(mesh: &mut TerrainMesh<V>, lo: usize, hi: usize, n: usize)
    requires
        lo + n <= usize::MAX,
        hi + n <= usize::MAX,
    ensures
        final(mesh).vertices@ == old(mesh).vertices@,
        final(mesh).triangles@ == old(mesh).triangles@ + band(
            lo as int,
            hi as int,
            0,
            n as int,
            n as int,
        ),
{
    let ghost before = mesh.triangles@;
    let mut i: usize = 0;
    while i < n
        invariant
            0 <= i <= n,
            lo + n <= usize::MAX,
            hi + n <= usize::MAX,
            mesh.vertices@ == old(mesh).vertices@,
            mesh.triangles@ == before + band(lo as int, hi as int, 0, n as int, i as int),
        decreases n - i,
    {
        let j = if i + 1 == n {
            0
        } else {
            i + 1
        };
        mesh.triangles.push([lo + i, lo + j, hi + i]);
        mesh.triangles.push([hi + i, lo + j, hi + j]);
        proof {
            assert(mesh.triangles@ =~= before + band(lo as int, hi as int, 0, n as int, i + 1));
        }
        i = i + 1;
    }
}

/// Push the fan from a ring of `n` vertices starting at `start` to `apex`.
fn push_fan<V>(mesh: &mut TerrainMesh<V>, start: usize, n: usize, apex: usize)
    requires
        start + n <= usize::MAX,
    ensures
        final(mesh).vertices@ == old(mesh).vertices@,
        final(mesh).triangles@ == old(mesh).triangles@ + fan(
            start as int,
            n as int,
            apex as int,
            n as int,
        ),
{
    let ghost before = mesh.triangles@;
    let mut i: usize = 0;
    while i < n
        invariant
            0 <= i <= n,
            start + n <= usize::MAX,
            mesh.vertices@ == old(mesh).vertices@,
            mesh.triangles@ == before + fan(start as int, n as int, apex as int, i as int),
        decreases n - i,
    {
        let j = if i + 1 == n {
            0
        } else {
            i + 1
        };
        mesh.triangles.push([start + i, start + j, apex]);
        proof {
            assert(mesh.triangles@ =~= before + fan(start as int, n as int, apex as int, i + 1));
        }
        i = i + 1;
    }
}

/// Close a building solid whose rings and walls `add_building_walls` pushed:
/// the bottom cap (the footprint triangulation `cap`, facing down) and the roof.
///
/// `cap` indexes the ring vertices (outer ring, then holes) three by three.
/// An empty triangulation is refused, leaving the mesh as it was.
pub fn add_building_roof<V>(
    mesh: &mut TerrainMesh<V>,
    layers: &SolidLayers,
    ring_sizes: &Vec<usize>,
    cap: &Vec<usize>,
    roof: RoofGeometry<V>,
) -> (result: Result<(), SolidError>)
    requires
        layers.top_index == layers.base_index + ring_total(ring_sizes@),
        old(mesh).vertices.len() == layers.top_index + ring_total(ring_sizes@),
        forall|i: int| 0 <= i < cap.len() ==> #[trigger] cap[i] < ring_total(ring_sizes@),
        roof_fits(roof, ring_sizes.len() as int, ring_total(ring_sizes@)),
        old(mesh).vertices.len() + roof_vertex_bound(roof, ring_total(ring_sizes@)) <= usize::MAX,
    ensures
        result is Err <==> cap.len() == 0,
        result is Err ==> *final(mesh) == *old(mesh),
        result is Ok ==> final(mesh).vertices@ == old(mesh).vertices@ + roof_vertices(roof),
        result is Ok ==> (roof is Flat ==> final(mesh).vertices@ == old(mesh).vertices@),
        result is Ok ==> (roof matches RoofGeometry::Pyramid { apex } ==> final(mesh).vertices@
            == old(mesh).vertices@.push(apex)),
        result is Ok ==> (roof matches RoofGeometry::Dome { apex, .. } ==> final(mesh).vertices@.last()
            == apex),
        result is Ok ==> (roof matches RoofGeometry::Ridge { ridge_a, ridge_b, .. }
            ==> final(mesh).vertices@ == old(mesh).vertices@.push(ridge_a).push(ridge_b)),
        result is Ok ==> (roof matches RoofGeometry::Frustum { inset } ==> final(mesh).vertices@
            == old(mesh).vertices@ + inset@),
        result is Ok ==> final(mesh).triangles@ == old(mesh).triangles@ + flipped(
            triples(cap@),
            layers.base_index as int,
        ) + roof_triangles(roof, layers.top_index as int, ring_total(ring_sizes@), cap@),
{
    if cap.len() == 0 {
        return Err(SolidError::DegenerateFootprint);
    }
    let ghost total = ring_total(ring_sizes@);
    proof {
        lemma_ring_offset_nonneg(ring_sizes@, ring_sizes@.len() as int);
    }
    let base = layers.base_index;
    let top = layers.top_index;
    let n = mesh.vertices.len() - top;
    let ghost tris0 = mesh.triangles@;
    let ghost verts0 = mesh.vertices@;
    push_cap(mesh, cap, base, true, Ghost(total));
    let ghost tris1 = mesh.triangles@;
    match roof {
        RoofGeometry::Flat => {
            push_cap(mesh, cap, top, false, Ghost(total));
        },
        RoofGeometry::Pyramid { apex } => {
            let apex_index = mesh.vertices.len();
            mesh.vertices.push(apex);
            push_fan(mesh, top, n, apex_index);
            proof {
                assert(dome_bands(top as int, n as int, 0) =~= Seq::empty());
                assert(mesh.triangles@ =~= tris1 + dome_roof(top as int, n as int, 0));
            }
        },
        RoofGeometry::Dome { rings, apex } => {
            let ghost all = rings@;
            let levels = rings.len();
            let mut rings = rings;
            let mut below = top;
            let mut k: usize = 0;
            while k < levels
                invariant
                    0 <= k <= levels,
                    levels == all.len(),
                    rings@ == all.skip(k as int),
                    forall|q: int| 0 <= q < all.len() ==> (#[trigger] all[q]).len() == n,
                    n == total,
                    top + n == verts0.len(),
                    verts0.len() + levels * n + 1 <= usize::MAX,
                    below == top + k * n,
                    mesh.vertices@ == verts0 + rings_flat(all, k as int),
                    mesh.triangles@ == tris1 + dome_bands(top as int, n as int, k as int),
                decreases levels - k,
            {
                proof {
                    assert(all.skip(k as int)[0] == all[k as int]);
                    assert(rings_flat(all, k as int).len() == k * n) by {
                        lemma_rings_flat_len(all, k as int, n as int);
                    }
                    assert((k + 1) * n <= levels * n) by (nonlinear_arith)
                        requires k + 1 <= levels, n >= 0;
                    assert((k + 1) * n == k * n + n) by (nonlinear_arith);
                }
                let mut ring = rings.remove(0);
                let start = mesh.vertices.len();
                mesh.vertices.append(&mut ring);
                push_band(mesh, below, start, n);
                proof {
                    assert(all.skip(k + 1) =~= all.skip(k as int).remove(0));
                    assert(mesh.vertices@ =~= verts0 + rings_flat(all, k + 1));
                    assert(start == top + (k + 1) * n);
                }
                below = start;
                k = k + 1;
            }
            proof {
                lemma_rings_flat_len(all, levels as int, n as int);
                assert(mesh.vertices@.len() == top + n + levels * n);
                assert((levels + 1) * n == levels * n + n) by (nonlinear_arith);
            }
            let apex_index = mesh.vertices.len();
            mesh.vertices.push(apex);
            push_fan(mesh, below, n, apex_index);
        },
        RoofGeometry::Ridge { rotated, ridge_a, ridge_b } => {
            let ia = mesh.vertices.len();
            mesh.vertices.push(ridge_a);
            let ib = mesh.vertices.len();
            mesh.vertices.push(ridge_b);
            let order: [usize; 4] = if rotated {
                [1, 2, 3, 0]
            } else {
                [0, 1, 2, 3]
            };
            let t0 = top + order[0];
            let t1 = top + order[1];
            let t2 = top + order[2];
            let t3 = top + order[3];
            mesh.triangles.push([t0, t1, ia]);
            mesh.triangles.push([t0, ia, ib]);
            mesh.triangles.push([t2, t3, ib]);
            mesh.triangles.push([t2, ib, ia]);
            mesh.triangles.push([t1, t2, ia]);
            mesh.triangles.push([t3, t0, ib]);
            proof {
                assert(mesh.triangles@ =~= tris1 + ridge_roof(top as int, rotated, top + 4, top + 5));
            }
        },
        RoofGeometry::Frustum { inset } => {
            let start = mesh.vertices.len();
            let mut inset = inset;
            mesh.vertices.append(&mut inset);
            push_band(mesh, top, start, n);
            push_cap(mesh, cap, start, false, Ghost(total));
        },
    }
    Ok(())
}

proof fn lemma_rings_flat_len<V>(rings: Seq<Vec<V>>, k: int, n: int)
    requires
        0 <= k <= rings.len(),
        forall|q: int| 0 <= q < rings.len() ==> (#[trigger] rings[q]).len() == n,
    ensures
        rings_flat(rings, k).len() == k * n,
    decreases k,
{
    if k > 0 {
        lemma_rings_flat_len(rings, k - 1, n);
        assert(k * n == (k - 1) * n + n) by (nonlinear_arith);
        assert(rings[k - 1]@.len() == n);
    } else {
        assert(k * n == 0) by (nonlinear_arith)
            requires
                k == 0,
        ;
    }
}


// ── Building solids: closure proof ──────────────────────────────────────────
/// The previous position in a cyclic ring of `s` vertices.
pub open spec fn cyc_prev(i: int, s: int) -> int {
    if i == 0 {
        s - 1
    } else {
        i - 1
    }
}

proof fn lemma_band_contains(lo: int, hi: int, off: int, s: int, c: int, i: int)
    requires
        0 <= i < c,
    ensures
        band(lo, hi, off, s, c).contains(band_lo(lo, hi, off + i, off + cyc_next(i, s))),
        band(lo, hi, off, s, c).contains(band_hi(lo, hi, off + i, off + cyc_next(i, s))),
    decreases c,
{
    let prev = band(lo, hi, off, s, c - 1);
    let b = band(lo, hi, off, s, c);
    let x = band_lo(lo, hi, off + i, off + cyc_next(i, s));
    let y = band_hi(lo, hi, off + i, off + cyc_next(i, s));
    if i < c - 1 {
        lemma_band_contains(lo, hi, off, s, c - 1, i);
        let j1 = choose|j: int| 0 <= j < prev.len() && prev[j] == x;
        let j2 = choose|j: int| 0 <= j < prev.len() && prev[j] == y;
        assert(b[j1] == x);
        assert(b[j2] == y);
    } else {
        assert(b[prev.len() as int] == x);
        assert(b[prev.len() as int + 1] == y);
    }
}

proof fn lemma_band_origin(lo: int, hi: int, off: int, s: int, c: int, j: int) -> (i: int)
    requires
        0 <= c,
        0 <= j < band(lo, hi, off, s, c).len(),
    ensures
        band(lo, hi, off, s, c).len() == 2 * c,
        0 <= i < c,
        band(lo, hi, off, s, c)[j] == band_lo(lo, hi, off + i, off + cyc_next(i, s)) || band(
            lo,
            hi,
            off,
            s,
            c,
        )[j] == band_hi(lo, hi, off + i, off + cyc_next(i, s)),
    decreases c,
{
    lemma_band_len(lo, hi, off, s, c);
    let prev = band(lo, hi, off, s, c - 1);
    lemma_band_len(lo, hi, off, s, c - 1);
    if j < prev.len() {
        let i = lemma_band_origin(lo, hi, off, s, c - 1, j);
        assert(band(lo, hi, off, s, c)[j] == prev[j]);
        i
    } else {
        c - 1
    }
}

proof fn lemma_band_len(lo: int, hi: int, off: int, s: int, c: int)
    requires
        0 <= c,
    ensures
        band(lo, hi, off, s, c).len() == 2 * c,
    decreases c,
{
    if c > 0 {
        lemma_band_len(lo, hi, off, s, c - 1);
    }
}

/// Lower-ring edge `lo+off+i → lo+off+next(i)` of a band.
pub open spec fn band_lower_fwd(lo: int, off: int, s: int, u: usize, v: usize) -> bool {
    exists|i: int|
        0 <= i < s && u == #[trigger] idx(lo + off + i) && v == idx(lo + off + cyc_next(i, s))
}

/// Upper-ring edge `hi+off+next(i) → hi+off+i` of a band (the reverse of a ring edge).
pub open spec fn band_upper_rev(hi: int, off: int, s: int, u: usize, v: usize) -> bool {
    exists|i: int|
        0 <= i < s && v == #[trigger] idx(hi + off + i) && u == idx(hi + off + cyc_next(i, s))
}

/// Inside a band every edge is matched, except its lower ring edges (walked
/// forward) and its upper ring edges (walked backward).
proof fn lemma_band_edges(lo: int, hi: int, off: int, s: int, j: int, k: int)
    requires
        1 <= s,
        0 <= lo,
        0 <= hi,
        0 <= off,
        lo + off + s <= usize::MAX,
        hi + off + s <= usize::MAX,
        0 <= j < band(lo, hi, off, s, s).len(),
        0 <= k < 3,
    ensures
        ({
            let e = band(lo, hi, off, s, s)[j];
            let u = edge_from(e, k);
            let v = edge_to(e, k);
            ||| has_edge(band(lo, hi, off, s, s), v, u)
            ||| band_lower_fwd(lo, off, s, u, v)
            ||| band_upper_rev(hi, off, s, u, v)
        }),
{
    let bd = band(lo, hi, off, s, s);
    let e = bd[j];
    let u = edge_from(e, k);
    let v = edge_to(e, k);
    let i = lemma_band_origin(lo, hi, off, s, s, j);
    let nx = cyc_next(i, s);
    let pv = cyc_prev(i, s);
    assert(cyc_next(pv, s) == i);
    assert(0 <= nx < s && 0 <= pv < s);
    lemma_band_contains(lo, hi, off, s, s, i);
    lemma_band_contains(lo, hi, off, s, s, nx);
    lemma_band_contains(lo, hi, off, s, s, pv);
    if e == band_lo(lo, hi, off + i, off + nx) {
        if k == 0 {
            assert(u == idx(lo + off + i) && v == idx(lo + off + cyc_next(i, s)));
            assert(band_lower_fwd(lo, off, s, u, v));
        } else if k == 1 {
            lemma_contains_edge(bd, band_hi(lo, hi, off + i, off + nx), 0);
        } else {
            lemma_contains_edge(bd, band_hi(lo, hi, off + pv, off + i), 1);
        }
    } else {
        if k == 0 {
            lemma_contains_edge(bd, band_lo(lo, hi, off + i, off + nx), 1);
        } else if k == 1 {
            lemma_contains_edge(bd, band_lo(lo, hi, off + nx, off + cyc_next(nx, s)), 2);
        } else {
            assert(v == idx(hi + off + i) && u == idx(hi + off + cyc_next(i, s)));
            assert(band_upper_rev(hi, off, s, u, v));
        }
    }
}

/// A band walks every lower ring edge forward and every upper ring edge backward.
proof fn lemma_band_supplies(lo: int, hi: int, off: int, s: int, i: int)
    requires
        0 <= i < s,
    ensures
        has_edge(band(lo, hi, off, s, s), idx(lo + off + i), idx(lo + off + cyc_next(i, s))),
        has_edge(band(lo, hi, off, s, s), idx(hi + off + cyc_next(i, s)), idx(hi + off + i)),
{
    let bd = band(lo, hi, off, s, s);
    lemma_band_contains(lo, hi, off, s, s, i);
    lemma_contains_edge(bd, band_lo(lo, hi, off + i, off + cyc_next(i, s)), 0);
    lemma_contains_edge(bd, band_hi(lo, hi, off + i, off + cyc_next(i, s)), 2);
}


/// Position of vertex `i` of ring `r` in the ring layout.
pub open spec fn ring_pos(sizes: Seq<usize>, r: int, i: int) -> int {
    ring_offset(sizes, r) + i
}

/// `p → q` is an edge of one of the rings, in ring order.
pub open spec fn ring_edge(sizes: Seq<usize>, p: int, q: int) -> bool {
    exists|r: int, i: int|
        0 <= r < sizes.len() && 0 <= i < sizes[r] && p == #[trigger] ring_pos(sizes, r, i) && q
            == ring_pos(sizes, r, cyc_next(i, sizes[r] as int))
}

/// On the vertex layer starting at `d`, `u → v` is a ring edge walked in ring order.
pub open spec fn layer_fwd(sizes: Seq<usize>, d: int, u: usize, v: usize) -> bool {
    exists|p: int, q: int| #[trigger] ring_edge(sizes, p, q) && u == idx(d + p) && v == idx(d + q)
}

/// The footprint triangulation `cap` closes the rings: it walks every ring
/// edge in ring order, and each of its other edges is matched by a reverse
/// edge inside the triangulation. A triangulation of the outer ring with its
/// holes, in the winding the rings carry, has this shape.
pub open spec fn cap_closes_rings(cap: Seq<usize>, sizes: Seq<usize>) -> bool {
    &&& forall|p: int, q: int| #[trigger]
        ring_edge(sizes, p, q) ==> has_edge(triples(cap), idx(p), idx(q))
    &&& forall|j: int, k: int|
        0 <= j < triples(cap).len() && 0 <= k < 3 ==> has_edge(
            triples(cap),
            edge_to(triples(cap)[j], k),
            #[trigger] edge_from(triples(cap)[j], k),
        ) || ring_edge(sizes, edge_from(triples(cap)[j], k) as int, edge_to(triples(cap)[j], k) as int)
}

proof fn lemma_ring_pos_bound(sizes: Seq<usize>, r: int, i: int)
    requires
        0 <= r < sizes.len(),
        0 <= i < sizes[r],
    ensures
        0 <= ring_pos(sizes, r, i) < ring_total(sizes),
        0 <= ring_pos(sizes, r, cyc_next(i, sizes[r] as int)) < ring_total(sizes),
{
    lemma_ring_offset_nonneg(sizes, r);
    lemma_ring_offset_mono(sizes, r + 1, sizes.len() as int);
}

proof fn lemma_ring_edge_bound(sizes: Seq<usize>, p: int, q: int)
    requires
        ring_edge(sizes, p, q),
    ensures
        0 <= p < ring_total(sizes),
        0 <= q < ring_total(sizes),
{
    let (r, i) = choose|r: int, i: int|
        0 <= r < sizes.len() && 0 <= i < sizes[r] && p == #[trigger] ring_pos(sizes, r, i) && q
            == ring_pos(sizes, r, cyc_next(i, sizes[r] as int));
    lemma_ring_pos_bound(sizes, r, i);
}

/// With a single ring, the ring edges are `i → next(i)`.
pub(crate) proof fn lemma_single_ring(sizes: Seq<usize>, p: int, q: int)
    requires
        sizes.len() == 1,
    ensures
        ring_edge(sizes, p, q) <==> (0 <= p < sizes[0] && q == cyc_next(p, sizes[0] as int)),
{
    assert(ring_offset(sizes, 0) == 0);
    if 0 <= p < sizes[0] && q == cyc_next(p, sizes[0] as int) {
        assert(ring_pos(sizes, 0, p) == p);
    }
}

proof fn lemma_edge_of_contained(a: Seq<[usize; 3]>, b: Seq<[usize; 3]>, u: usize, v: usize)
    requires
        has_edge(a, u, v),
        forall|x: [usize; 3]| a.contains(x) ==> #[trigger] b.contains(x),
    ensures
        has_edge(b, u, v),
{
    let (i, k) = choose|i: int, k: int|
        0 <= i < a.len() && 0 <= k < 3 && #[trigger] edge_from(a[i], k) == u && edge_to(a[i], k)
            == v;
    assert(a.contains(a[i]));
    lemma_contains_edge(b, a[i], k);
}

// ── walls over several rings ──
proof fn lemma_walls_contains(lo: int, hi: int, sizes: Seq<usize>, m: int, r: int, x: [usize; 3])
    requires
        0 <= r < m <= sizes.len(),
        band(lo, hi, ring_offset(sizes, r), sizes[r] as int, sizes[r] as int).contains(x),
    ensures
        walls(lo, hi, sizes, m).contains(x),
    decreases m,
{
    let prev = walls(lo, hi, sizes, m - 1);
    let w = walls(lo, hi, sizes, m);
    let last = band(lo, hi, ring_offset(sizes, m - 1), sizes[m - 1] as int, sizes[m - 1] as int);
    assert(w == prev + last);
    if r < m - 1 {
        lemma_walls_contains(lo, hi, sizes, m - 1, r, x);
        let j = choose|j: int| 0 <= j < prev.len() && prev[j] == x;
        assert(w[j] == x);
    } else {
        let j = choose|j: int| 0 <= j < last.len() && last[j] == x;
        assert(w[prev.len() + j] == x);
    }
}

proof fn lemma_walls_origin(lo: int, hi: int, sizes: Seq<usize>, m: int, j: int) -> (r: int)
    requires
        0 <= m <= sizes.len(),
        0 <= j < walls(lo, hi, sizes, m).len(),
    ensures
        0 <= r < m,
        band(lo, hi, ring_offset(sizes, r), sizes[r] as int, sizes[r] as int).contains(
            walls(lo, hi, sizes, m)[j],
        ),
    decreases m,
{
    let prev = walls(lo, hi, sizes, m - 1);
    let last = band(lo, hi, ring_offset(sizes, m - 1), sizes[m - 1] as int, sizes[m - 1] as int);
    assert(walls(lo, hi, sizes, m) == prev + last);
    if j < prev.len() {
        let r = lemma_walls_origin(lo, hi, sizes, m - 1, j);
        assert(walls(lo, hi, sizes, m)[j] == prev[j]);
        r
    } else {
        assert(walls(lo, hi, sizes, m)[j] == last[j - prev.len()]);
        m - 1
    }
}

/// Every wall edge is matched inside the walls, or is a bottom-layer ring
/// edge walked forward, or a top-layer ring edge walked backward.
proof fn lemma_walls_edges(lo: int, hi: int, sizes: Seq<usize>, j: int, k: int)
    requires
        0 <= lo,
        lo + ring_total(sizes) <= hi,
        hi + ring_total(sizes) <= usize::MAX,
        0 <= j < walls(lo, hi, sizes, sizes.len() as int).len(),
        0 <= k < 3,
    ensures
        ({
            let w = walls(lo, hi, sizes, sizes.len() as int);
            let u = edge_from(w[j], k);
            let v = edge_to(w[j], k);
            ||| has_edge(w, v, u)
            ||| layer_fwd(sizes, lo, u, v)
            ||| layer_fwd(sizes, hi, v, u)
        }),
{
    let w = walls(lo, hi, sizes, sizes.len() as int);
    let r = lemma_walls_origin(lo, hi, sizes, sizes.len() as int, j);
    let off = ring_offset(sizes, r);
    let s = sizes[r] as int;
    let bd = band(lo, hi, off, s, s);
    let jj = choose|jj: int| 0 <= jj < bd.len() && bd[jj] == w[j];
    lemma_band_len(lo, hi, off, s, s);
    lemma_ring_offset_nonneg(sizes, r);
    lemma_ring_offset_mono(sizes, r + 1, sizes.len() as int);
    let u = edge_from(w[j], k);
    let v = edge_to(w[j], k);
    lemma_band_edges(lo, hi, off, s, jj, k);
    if has_edge(bd, v, u) {
        assert forall|x: [usize; 3]| bd.contains(x) implies #[trigger] w.contains(x) by {
            lemma_walls_contains(lo, hi, sizes, sizes.len() as int, r, x);
        }
        lemma_edge_of_contained(bd, w, v, u);
    } else if band_lower_fwd(lo, off, s, u, v) {
        let i = choose|i: int|
            0 <= i < s && u == #[trigger] idx(lo + off + i) && v == idx(lo + off + cyc_next(i, s));
        assert(ring_pos(sizes, r, i) == off + i);
        assert(ring_edge(sizes, off + i, off + cyc_next(i, s)));
        assert(layer_fwd(sizes, lo, u, v));
    } else {
        let i = choose|i: int|
            0 <= i < s && v == #[trigger] idx(hi + off + i) && u == idx(hi + off + cyc_next(i, s));
        assert(ring_pos(sizes, r, i) == off + i);
        assert(ring_edge(sizes, off + i, off + cyc_next(i, s)));
        assert(layer_fwd(sizes, hi, v, u));
    }
}

/// The walls walk every bottom-layer ring edge forward and every top-layer
/// ring edge backward.
proof fn lemma_walls_supply(lo: int, hi: int, sizes: Seq<usize>, p: int, q: int)
    requires
        ring_edge(sizes, p, q),
    ensures
        has_edge(walls(lo, hi, sizes, sizes.len() as int), idx(lo + p), idx(lo + q)),
        has_edge(walls(lo, hi, sizes, sizes.len() as int), idx(hi + q), idx(hi + p)),
{
    let w = walls(lo, hi, sizes, sizes.len() as int);
    let (r, i) = choose|r: int, i: int|
        0 <= r < sizes.len() && 0 <= i < sizes[r] && p == #[trigger] ring_pos(sizes, r, i) && q
            == ring_pos(sizes, r, cyc_next(i, sizes[r] as int));
    let off = ring_offset(sizes, r);
    let s = sizes[r] as int;
    let bd = band(lo, hi, off, s, s);
    lemma_band_supplies(lo, hi, off, s, i);
    assert forall|x: [usize; 3]| bd.contains(x) implies #[trigger] w.contains(x) by {
        lemma_walls_contains(lo, hi, sizes, sizes.len() as int, r, x);
    }
    assert(idx(lo + p) == idx(lo + off + i));
    assert(idx(hi + p) == idx(hi + off + i));
    lemma_edge_of_contained(bd, w, idx(lo + p), idx(lo + q));
    lemma_edge_of_contained(bd, w, idx(hi + q), idx(hi + p));
}

// ── caps ──
pub(crate) proof fn lemma_cap_tri_bound(cap: Seq<usize>, total: int, j: int, k: int)
    requires
        forall|i: int| 0 <= i < cap.len() ==> #[trigger] cap[i] < total,
        0 <= j < triples(cap).len(),
        0 <= k < 3,
    ensures
        triples(cap)[j][k] < total,
        edge_from(triples(cap)[j], k) < total,
        edge_to(triples(cap)[j], k) < total,
{
    assert(3 * j + 2 < cap.len());
    assert(cap[3 * j] < total && cap[3 * j + 1] < total && cap[3 * j + 2] < total);
}

proof fn lemma_lifted_edge(tris: Seq<[usize; 3]>, d: int, u: usize, v: usize)
    requires
        has_edge(tris, u, v),
    ensures
        has_edge(lifted(tris, d), idx(u + d), idx(v + d)),
{
    let (i, k) = choose|i: int, k: int|
        0 <= i < tris.len() && 0 <= k < 3 && #[trigger] edge_from(tris[i], k) == u && edge_to(
            tris[i],
            k,
        ) == v;
    let l = lifted(tris, d);
    assert(l[i] == [idx(tris[i][0] + d), idx(tris[i][1] + d), idx(tris[i][2] + d)]);
    assert(edge_from(l[i], k) == idx(u + d));
}

/// Edges of the triangulation lifted onto layer `d`: matched inside, or a
/// ring edge walked forward.
proof fn lemma_lifted_cap_edges(cap: Seq<usize>, sizes: Seq<usize>, d: int, j: int, k: int)
    requires
        cap_closes_rings(cap, sizes),
        forall|i: int| 0 <= i < cap.len() ==> #[trigger] cap[i] < ring_total(sizes),
        0 <= d,
        d + ring_total(sizes) <= usize::MAX,
        0 <= j < lifted(triples(cap), d).len(),
        0 <= k < 3,
    ensures
        ({
            let l = lifted(triples(cap), d);
            let u = edge_from(l[j], k);
            let v = edge_to(l[j], k);
            has_edge(l, v, u) || layer_fwd(sizes, d, u, v)
        }),
{
    let c = triples(cap);
    let l = lifted(c, d);
    lemma_cap_tri_bound(cap, ring_total(sizes), j, 0);
    lemma_cap_tri_bound(cap, ring_total(sizes), j, 1);
    lemma_cap_tri_bound(cap, ring_total(sizes), j, 2);
    let x = edge_from(c[j], k);
    let y = edge_to(c[j], k);
    assert(l[j] == [idx(c[j][0] + d), idx(c[j][1] + d), idx(c[j][2] + d)]);
    assert(edge_from(l[j], k) == idx(x + d) && edge_to(l[j], k) == idx(y + d));
    if has_edge(c, y, x) {
        lemma_lifted_edge(c, d, y, x);
    } else {
        assert(ring_edge(sizes, x as int, y as int));
        assert(layer_fwd(sizes, d, idx(x + d), idx(y + d)));
    }
}

proof fn lemma_lifted_cap_supply(cap: Seq<usize>, sizes: Seq<usize>, d: int, p: int, q: int)
    requires
        cap_closes_rings(cap, sizes),
        ring_edge(sizes, p, q),
        0 <= d,
        d + ring_total(sizes) <= usize::MAX,
    ensures
        has_edge(lifted(triples(cap), d), idx(d + p), idx(d + q)),
{
    lemma_ring_edge_bound(sizes, p, q);
    assert(has_edge(triples(cap), idx(p), idx(q)));
    lemma_lifted_edge(triples(cap), d, idx(p), idx(q));
}

/// Edges of the bottom cap on layer `b`: matched inside, or a ring edge
/// walked backward.
proof fn lemma_flipped_cap_edges(cap: Seq<usize>, sizes: Seq<usize>, b: int, j: int, k: int)
    requires
        cap_closes_rings(cap, sizes),
        forall|i: int| 0 <= i < cap.len() ==> #[trigger] cap[i] < ring_total(sizes),
        0 <= b,
        b + ring_total(sizes) <= usize::MAX,
        0 <= j < flipped(triples(cap), b).len(),
        0 <= k < 3,
    ensures
        ({
            let f = flipped(triples(cap), b);
            let u = edge_from(f[j], k);
            let v = edge_to(f[j], k);
            has_edge(f, v, u) || layer_fwd(sizes, b, v, u)
        }),
{
    let c = triples(cap);
    let f = flipped(c, b);
    lemma_cap_tri_bound(cap, ring_total(sizes), j, 0);
    lemma_cap_tri_bound(cap, ring_total(sizes), j, 1);
    lemma_cap_tri_bound(cap, ring_total(sizes), j, 2);
    assert(f[j] == flipped_tri(c[j], b));
    let kt = if k == 0 {
        2int
    } else if k == 1 {
        1int
    } else {
        0int
    };
    let x = edge_from(c[j], kt);
    let y = edge_to(c[j], kt);
    assert(edge_from(f[j], k) == shifted(y, b) && edge_to(f[j], k) == shifted(x, b));
    if has_edge(c, y, x) {
        lemma_flipped_edge(c, b, y, x);
    } else {
        assert(ring_edge(sizes, x as int, y as int));
        assert(layer_fwd(sizes, b, idx(b + x), idx(b + y)));
    }
}

proof fn lemma_flipped_cap_supply(cap: Seq<usize>, sizes: Seq<usize>, b: int, p: int, q: int)
    requires
        cap_closes_rings(cap, sizes),
        ring_edge(sizes, p, q),
        0 <= b,
        b + ring_total(sizes) <= usize::MAX,
    ensures
        has_edge(flipped(triples(cap), b), idx(b + q), idx(b + p)),
{
    lemma_ring_edge_bound(sizes, p, q);
    assert(has_edge(triples(cap), idx(p), idx(q)));
    lemma_flipped_edge(triples(cap), b, idx(p), idx(q));
}


// ── fans ──
pub open spec fn fan_tri(start: int, n: int, apex: int, i: int) -> [usize; 3] {
    [idx(start + i), idx(start + cyc_next(i, n)), idx(apex)]
}

proof fn lemma_fan_contains(start: int, n: int, apex: int, c: int, i: int)
    requires
        0 <= i < c,
    ensures
        fan(start, n, apex, c).contains(fan_tri(start, n, apex, i)),
    decreases c,
{
    let prev = fan(start, n, apex, c - 1);
    let f = fan(start, n, apex, c);
    assert(f == prev + seq![fan_tri(start, n, apex, c - 1)]);
    if i < c - 1 {
        lemma_fan_contains(start, n, apex, c - 1, i);
        let j = choose|j: int| 0 <= j < prev.len() && prev[j] == fan_tri(start, n, apex, i);
        assert(f[j] == fan_tri(start, n, apex, i));
    } else {
        assert(f[prev.len() as int] == fan_tri(start, n, apex, i));
    }
}

proof fn lemma_fan_origin(start: int, n: int, apex: int, c: int, j: int) -> (i: int)
    requires
        0 <= c,
        0 <= j < fan(start, n, apex, c).len(),
    ensures
        0 <= i < c,
        fan(start, n, apex, c)[j] == fan_tri(start, n, apex, i),
    decreases c,
{
    let prev = fan(start, n, apex, c - 1);
    assert(fan(start, n, apex, c) == prev + seq![fan_tri(start, n, apex, c - 1)]);
    if j < prev.len() {
        let i = lemma_fan_origin(start, n, apex, c - 1, j);
        assert(fan(start, n, apex, c)[j] == prev[j]);
        i
    } else {
        c - 1
    }
}

proof fn lemma_fan_len(start: int, n: int, apex: int, c: int)
    requires
        0 <= c,
    ensures
        fan(start, n, apex, c).len() == c,
    decreases c,
{
    if c > 0 {
        lemma_fan_len(start, n, apex, c - 1);
    }
}

/// Inside a fan every edge is matched except the ring edges, walked forward.
proof fn lemma_fan_edges(start: int, n: int, apex: int, j: int, k: int)
    requires
        1 <= n,
        0 <= start,
        0 <= apex <= usize::MAX,
        start + n <= usize::MAX,
        0 <= j < fan(start, n, apex, n).len(),
        0 <= k < 3,
    ensures
        ({
            let f = fan(start, n, apex, n);
            let u = edge_from(f[j], k);
            let v = edge_to(f[j], k);
            has_edge(f, v, u) || band_lower_fwd(start, 0, n, u, v)
        }),
{
    let f = fan(start, n, apex, n);
    let i = lemma_fan_origin(start, n, apex, n, j);
    let nx = cyc_next(i, n);
    let pv = cyc_prev(i, n);
    assert(cyc_next(pv, n) == i);
    lemma_fan_contains(start, n, apex, n, nx);
    lemma_fan_contains(start, n, apex, n, pv);
    let u = edge_from(f[j], k);
    let v = edge_to(f[j], k);
    if k == 0 {
        assert(u == idx(start + 0 + i) && v == idx(start + 0 + cyc_next(i, n)));
        assert(band_lower_fwd(start, 0, n, u, v));
    } else if k == 1 {
        lemma_contains_edge(f, fan_tri(start, n, apex, nx), 2);
    } else {
        lemma_contains_edge(f, fan_tri(start, n, apex, pv), 1);
    }
}

proof fn lemma_fan_supply(start: int, n: int, apex: int, i: int)
    requires
        0 <= i < n,
    ensures
        has_edge(fan(start, n, apex, n), idx(start + 0 + i), idx(start + 0 + cyc_next(i, n))),
{
    lemma_fan_contains(start, n, apex, n, i);
    lemma_contains_edge(fan(start, n, apex, n), fan_tri(start, n, apex, i), 0);
}

// ── domes ──
proof fn lemma_dome_bands_contains(top: int, n: int, levels: int, k: int, x: [usize; 3])
    requires
        1 <= k <= levels,
        band(top + (k - 1) * n, top + k * n, 0, n, n).contains(x),
    ensures
        dome_bands(top, n, levels).contains(x),
    decreases levels,
{
    let prev = dome_bands(top, n, levels - 1);
    let last = band(top + (levels - 1) * n, top + levels * n, 0, n, n);
    let d = dome_bands(top, n, levels);
    assert(d == prev + last);
    if k < levels {
        lemma_dome_bands_contains(top, n, levels - 1, k, x);
        let j = choose|j: int| 0 <= j < prev.len() && prev[j] == x;
        assert(d[j] == x);
    } else {
        let j = choose|j: int| 0 <= j < last.len() && last[j] == x;
        assert(d[prev.len() + j] == x);
    }
}

proof fn lemma_dome_bands_origin(top: int, n: int, levels: int, j: int) -> (k: int)
    requires
        0 <= levels,
        0 <= j < dome_bands(top, n, levels).len(),
    ensures
        1 <= k <= levels,
        band(top + (k - 1) * n, top + k * n, 0, n, n).contains(dome_bands(top, n, levels)[j]),
    decreases levels,
{
    let prev = dome_bands(top, n, levels - 1);
    let last = band(top + (levels - 1) * n, top + levels * n, 0, n, n);
    assert(dome_bands(top, n, levels) == prev + last);
    if j < prev.len() {
        let k = lemma_dome_bands_origin(top, n, levels - 1, j);
        assert(dome_bands(top, n, levels)[j] == prev[j]);
        k
    } else {
        assert(dome_bands(top, n, levels)[j] == last[j - prev.len()]);
        levels
    }
}

proof fn lemma_band_in_dome(top: int, n: int, levels: int, k: int)
    requires
        1 <= k <= levels,
    ensures
        forall|x: [usize; 3]|
            band(top + (k - 1) * n, top + k * n, 0, n, n).contains(x) ==> #[trigger] dome_roof(
                top,
                n,
                levels,
            ).contains(x),
{
    let d = dome_bands(top, n, levels);
    let fa = fan(top + levels * n, n, top + (levels + 1) * n, n);
    assert forall|x: [usize; 3]|
        band(top + (k - 1) * n, top + k * n, 0, n, n).contains(x) implies #[trigger] dome_roof(
        top,
        n,
        levels,
    ).contains(x) by {
        lemma_dome_bands_contains(top, n, levels, k, x);
        let j = choose|j: int| 0 <= j < d.len() && d[j] == x;
        assert(dome_roof(top, n, levels)[j] == x);
    }
}

proof fn lemma_fan_in_dome(top: int, n: int, levels: int)
    ensures
        forall|x: [usize; 3]|
            fan(top + levels * n, n, top + (levels + 1) * n, n).contains(x) ==> #[trigger] dome_roof(
                top,
                n,
                levels,
            ).contains(x),
{
    let d = dome_bands(top, n, levels);
    let fa = fan(top + levels * n, n, top + (levels + 1) * n, n);
    assert forall|x: [usize; 3]| fa.contains(x) implies #[trigger] dome_roof(
        top,
        n,
        levels,
    ).contains(x) by {
        let j = choose|j: int| 0 <= j < fa.len() && fa[j] == x;
        assert(dome_roof(top, n, levels)[d.len() + j] == x);
    }
}

/// Inside a dome (or pyramid) roof every edge is matched except the eave
/// ring edges, walked forward; and the roof walks each eave ring edge forward.
proof fn lemma_dome_roof(top: int, n: int, levels: int)
    requires
        1 <= n,
        0 <= top,
        0 <= levels,
        top + (levels + 1) * n <= usize::MAX,
    ensures
        forall|j: int, k: int|
            0 <= j < dome_roof(top, n, levels).len() && 0 <= k < 3 ==> has_edge(
                dome_roof(top, n, levels),
                edge_to(dome_roof(top, n, levels)[j], k),
                #[trigger] edge_from(dome_roof(top, n, levels)[j], k),
            ) || band_lower_fwd(
                top,
                0,
                n,
                edge_from(dome_roof(top, n, levels)[j], k),
                edge_to(dome_roof(top, n, levels)[j], k),
            ),
        forall|i: int|
            0 <= i < n ==> has_edge(
                dome_roof(top, n, levels),
                #[trigger] idx(top + 0 + i),
                idx(top + 0 + cyc_next(i, n)),
            ),
{
    let r = dome_roof(top, n, levels);
    let d = dome_bands(top, n, levels);
    let fa_start = top + levels * n;
    let apex = top + (levels + 1) * n;
    let fa = fan(fa_start, n, apex, n);
    assert(r == d + fa);
    assert(levels * n >= 0) by (nonlinear_arith)
        requires
            levels >= 0,
            n >= 1,
    ;
    assert((levels + 1) * n == levels * n + n) by (nonlinear_arith);
    lemma_fan_in_dome(top, n, levels);
    assert forall|j: int, k: int| 0 <= j < r.len() && 0 <= k < 3 implies has_edge(
        r,
        edge_to(r[j], k),
        #[trigger] edge_from(r[j], k),
    ) || band_lower_fwd(top, 0, n, edge_from(r[j], k), edge_to(r[j], k)) by {
        let u = edge_from(r[j], k);
        let v = edge_to(r[j], k);
        if j < d.len() {
            let lv = lemma_dome_bands_origin(top, n, levels, j);
            let lo = top + (lv - 1) * n;
            let hi = top + lv * n;
            assert(lv * n == (lv - 1) * n + n) by (nonlinear_arith);
            assert(0 <= (lv - 1) * n && lv * n <= levels * n) by (nonlinear_arith)
                requires
                    1 <= lv <= levels,
                    n >= 1,
            ;
            let bd = band(lo, hi, 0, n, n);
            lemma_band_len(lo, hi, 0, n, n);
            let jj = choose|jj: int| 0 <= jj < bd.len() && bd[jj] == r[j];
            assert(r[j] == d[j]);
            lemma_band_edges(lo, hi, 0, n, jj, k);
            lemma_band_in_dome(top, n, levels, lv);
            if has_edge(bd, v, u) {
                lemma_edge_of_contained(bd, r, v, u);
            } else if band_lower_fwd(lo, 0, n, u, v) {
                if lv > 1 {
                    let i = choose|i: int|
                        0 <= i < n && u == #[trigger] idx(lo + 0 + i) && v == idx(
                            lo + 0 + cyc_next(i, n),
                        );
                    let plo = top + (lv - 2) * n;
                    assert((lv - 1) * n == (lv - 2) * n + n) by (nonlinear_arith);
                    lemma_band_supplies(plo, lo, 0, n, i);
                    assert(top + ((lv - 1) - 1) * n == plo);
                    lemma_band_in_dome(top, n, levels, lv - 1);
                    lemma_edge_of_contained(band(plo, lo, 0, n, n), r, v, u);
                } else {
                    assert(lo == top);
                }
            } else {
                let i = choose|i: int|
                    0 <= i < n && v == #[trigger] idx(hi + 0 + i) && u == idx(
                        hi + 0 + cyc_next(i, n),
                    );
                if lv < levels {
                    let nhi = top + (lv + 1) * n;
                    assert((lv + 1) * n == lv * n + n) by (nonlinear_arith);
                    assert((lv + 1) * n <= levels * n) by (nonlinear_arith)
                        requires
                            lv + 1 <= levels,
                            n >= 1,
                    ;
                    lemma_band_supplies(hi, nhi, 0, n, i);
                    assert(top + ((lv + 1) - 1) * n == hi);
                    lemma_band_in_dome(top, n, levels, lv + 1);
                    lemma_edge_of_contained(band(hi, nhi, 0, n, n), r, v, u);
                } else {
                    assert(hi == fa_start);
                    lemma_fan_supply(fa_start, n, apex, i);
                    lemma_edge_of_contained(fa, r, v, u);
                }
            }
        } else {
            let jf = j - d.len();
            assert(r[j] == fa[jf]);
            lemma_fan_len(fa_start, n, apex, n);
            lemma_fan_edges(fa_start, n, apex, jf, k);
            if has_edge(fa, v, u) {
                lemma_edge_of_contained(fa, r, v, u);
            } else {
                if levels > 0 {
                    let i = choose|i: int|
                        0 <= i < n && u == #[trigger] idx(fa_start + 0 + i) && v == idx(
                            fa_start + 0 + cyc_next(i, n),
                        );
                    let plo = top + (levels - 1) * n;
                    assert(levels * n == (levels - 1) * n + n) by (nonlinear_arith);
                    assert(0 <= (levels - 1) * n) by (nonlinear_arith)
                        requires
                            levels >= 1,
                            n >= 1,
                    ;
                    lemma_band_supplies(plo, fa_start, 0, n, i);
                    lemma_band_in_dome(top, n, levels, levels);
                    lemma_edge_of_contained(band(plo, fa_start, 0, n, n), r, v, u);
                } else {
                    assert(levels * n == 0);
                    assert(fa_start == top);
                }
            }
        }
    }
    assert forall|i: int| 0 <= i < n implies has_edge(
        r,
        #[trigger] idx(top + 0 + i),
        idx(top + 0 + cyc_next(i, n)),
    ) by {
        if levels > 0 {
            let hi = top + 1 * n;
            lemma_band_supplies(top, hi, 0, n, i);
            assert(top + (1 - 1) * n == top) by (nonlinear_arith);
            lemma_band_in_dome(top, n, levels, 1);
            lemma_edge_of_contained(band(top, hi, 0, n, n), r, idx(top + 0 + i), idx(top + 0 + cyc_next(i, n)));
        } else {
            assert(levels * n == 0);
            lemma_fan_supply(fa_start, n, apex, i);
            lemma_edge_of_contained(fa, r, idx(top + 0 + i), idx(top + 0 + cyc_next(i, n)));
        }
    }
}


// ── ridge roofs ──
proof fn lemma_ridge_roof(top: int, rotated: bool)
    requires
        0 <= top,
        top + 6 <= usize::MAX,
    ensures
        forall|j: int, k: int|
            0 <= j < ridge_roof(top, rotated, top + 4, top + 5).len() && 0 <= k < 3 ==> has_edge(
                ridge_roof(top, rotated, top + 4, top + 5),
                edge_to(ridge_roof(top, rotated, top + 4, top + 5)[j], k),
                #[trigger] edge_from(ridge_roof(top, rotated, top + 4, top + 5)[j], k),
            ) || band_lower_fwd(
                top,
                0,
                4,
                edge_from(ridge_roof(top, rotated, top + 4, top + 5)[j], k),
                edge_to(ridge_roof(top, rotated, top + 4, top + 5)[j], k),
            ),
        forall|i: int|
            0 <= i < 4 ==> has_edge(
                ridge_roof(top, rotated, top + 4, top + 5),
                #[trigger] idx(top + 0 + i),
                idx(top + 0 + cyc_next(i, 4)),
            ),
{
    let r = ridge_roof(top, rotated, top + 4, top + 5);
    assert(r.len() == 6);
    assert forall|j: int, k: int| 0 <= j < r.len() && 0 <= k < 3 implies has_edge(
        r,
        edge_to(r[j], k),
        #[trigger] edge_from(r[j], k),
    ) || band_lower_fwd(top, 0, 4, edge_from(r[j], k), edge_to(r[j], k)) by {
        let u = edge_from(r[j], k);
        let v = edge_to(r[j], k);
        // The partner triangle and side walking `v → u`, when it is inside the roof.
        let (pj, pk) = if j == 0 {
            if k == 1 {
                (4int, 2int)
            } else {
                (1int, 0int)
            }
        } else if j == 1 {
            if k == 0 {
                (0int, 2int)
            } else if k == 1 {
                (3int, 1int)
            } else {
                (5int, 1int)
            }
        } else if j == 2 {
            if k == 1 {
                (5int, 2int)
            } else {
                (3int, 0int)
            }
        } else if j == 3 {
            if k == 0 {
                (2int, 2int)
            } else if k == 1 {
                (1int, 1int)
            } else {
                (4int, 1int)
            }
        } else if j == 4 {
            if k == 1 {
                (3int, 2int)
            } else {
                (0int, 1int)
            }
        } else {
            if k == 1 {
                (1int, 2int)
            } else {
                (2int, 1int)
            }
        };
        if k == 0 && (j == 0 || j == 2 || j == 4 || j == 5) {
            // An eave ring edge, walked forward.
            let c = if j == 0 {
                0int
            } else if j == 4 {
                1int
            } else if j == 2 {
                2int
            } else {
                3int
            };
            let i = if rotated {
                if c == 3 {
                    0int
                } else {
                    c + 1
                }
            } else {
                c
            };
            assert(u == idx(top + 0 + i) && v == idx(top + 0 + cyc_next(i, 4)));
        } else {
            assert(edge_from(r[pj], pk) == v && edge_to(r[pj], pk) == u);
        }
    }
    assert forall|i: int| 0 <= i < 4 implies has_edge(
        r,
        #[trigger] idx(top + 0 + i),
        idx(top + 0 + cyc_next(i, 4)),
    ) by {
        let c = if rotated {
            if i == 0 {
                3int
            } else {
                i - 1
            }
        } else {
            i
        };
        let j = if c == 0 {
            0int
        } else if c == 1 {
            4int
        } else if c == 2 {
            2int
        } else {
            5int
        };
        assert(edge_from(r[j], 0) == idx(top + 0 + i) && edge_to(r[j], 0) == idx(
            top + 0 + cyc_next(i, 4),
        ));
    }
}

// ── frustum roofs ──
proof fn lemma_frustum_roof(top: int, sizes: Seq<usize>, cap: Seq<usize>)
    requires
        sizes.len() == 1,
        1 <= sizes[0],
        0 <= top,
        top + 2 * sizes[0] <= usize::MAX,
        cap_closes_rings(cap, sizes),
        forall|i: int| 0 <= i < cap.len() ==> #[trigger] cap[i] < ring_total(sizes),
    ensures
        forall|j: int, k: int|
            0 <= j < frustum_roof(top, sizes[0] as int, cap).len() && 0 <= k < 3 ==> has_edge(
                frustum_roof(top, sizes[0] as int, cap),
                edge_to(frustum_roof(top, sizes[0] as int, cap)[j], k),
                #[trigger] edge_from(frustum_roof(top, sizes[0] as int, cap)[j], k),
            ) || band_lower_fwd(
                top,
                0,
                sizes[0] as int,
                edge_from(frustum_roof(top, sizes[0] as int, cap)[j], k),
                edge_to(frustum_roof(top, sizes[0] as int, cap)[j], k),
            ),
        forall|i: int|
            0 <= i < sizes[0] ==> has_edge(
                frustum_roof(top, sizes[0] as int, cap),
                #[trigger] idx(top + 0 + i),
                idx(top + 0 + cyc_next(i, sizes[0] as int)),
            ),
{
    let n = sizes[0] as int;
    let hi = top + n;
    let r = frustum_roof(top, n, cap);
    let bd = band(top, hi, 0, n, n);
    let l = lifted(triples(cap), hi);
    assert(r == bd + l);
    assert(ring_offset(sizes, 0) == 0);
    assert(ring_offset(sizes, 1) == n);
    assert(ring_total(sizes) == n);
    lemma_band_len(top, hi, 0, n, n);
    assert forall|x: [usize; 3]| bd.contains(x) implies #[trigger] r.contains(x) by {
        let j = choose|j: int| 0 <= j < bd.len() && bd[j] == x;
        assert(r[j] == x);
    }
    assert forall|x: [usize; 3]| l.contains(x) implies #[trigger] r.contains(x) by {
        let j = choose|j: int| 0 <= j < l.len() && l[j] == x;
        assert(r[bd.len() + j] == x);
    }
    assert forall|j: int, k: int| 0 <= j < r.len() && 0 <= k < 3 implies has_edge(
        r,
        edge_to(r[j], k),
        #[trigger] edge_from(r[j], k),
    ) || band_lower_fwd(top, 0, n, edge_from(r[j], k), edge_to(r[j], k)) by {
        let u = edge_from(r[j], k);
        let v = edge_to(r[j], k);
        if j < bd.len() {
            assert(r[j] == bd[j]);
            lemma_band_edges(top, hi, 0, n, j, k);
            if has_edge(bd, v, u) {
                lemma_edge_of_contained(bd, r, v, u);
            } else if band_upper_rev(hi, 0, n, u, v) {
                let i = choose|i: int|
                    0 <= i < n && v == #[trigger] idx(hi + 0 + i) && u == idx(
                        hi + 0 + cyc_next(i, n),
                    );
                lemma_single_ring(sizes, i, cyc_next(i, n));
                lemma_lifted_cap_supply(cap, sizes, hi, i, cyc_next(i, n));
                lemma_edge_of_contained(l, r, v, u);
            }
        } else {
            let jl = j - bd.len();
            assert(r[j] == l[jl]);
            lemma_lifted_cap_edges(cap, sizes, hi, jl, k);
            if has_edge(l, v, u) {
                lemma_edge_of_contained(l, r, v, u);
            } else {
                let (p, q) = choose|p: int, q: int|
                    #[trigger] ring_edge(sizes, p, q) && u == idx(hi + p) && v == idx(hi + q);
                lemma_single_ring(sizes, p, q);
                lemma_band_supplies(top, hi, 0, n, p);
                lemma_edge_of_contained(bd, r, v, u);
            }
        }
    }
    assert forall|i: int| 0 <= i < n implies has_edge(
        r,
        #[trigger] idx(top + 0 + i),
        idx(top + 0 + cyc_next(i, n)),
    ) by {
        lemma_band_supplies(top, hi, 0, n, i);
        lemma_edge_of_contained(bd, r, idx(top + 0 + i), idx(top + 0 + cyc_next(i, n)));
    }
}


// ── roofs in general ──
proof fn lemma_dome_roof_empty(top: int, levels: int)
    requires
        0 <= levels,
    ensures
        dome_roof(top, 0, levels).len() == 0,
    decreases levels,
{
    if levels > 0 {
        lemma_dome_roof_empty(top, levels - 1);
    }
}

/// Inside any roof every edge is matched except the eave ring edges, walked
/// forward; and every roof walks each eave ring edge forward.
proof fn lemma_roof_closes_eave<V>(roof: RoofGeometry<V>, top: int, sizes: Seq<usize>, cap: Seq<usize>)
    requires
        0 <= top,
        top + ring_total(sizes) + roof_vertex_bound(roof, ring_total(sizes)) <= usize::MAX,
        forall|i: int| 0 <= i < cap.len() ==> #[trigger] cap[i] < ring_total(sizes),
        cap_closes_rings(cap, sizes),
        roof_fits(roof, sizes.len() as int, ring_total(sizes)),
    ensures
        forall|j: int, k: int|
            0 <= j < roof_triangles(roof, top, ring_total(sizes), cap).len() && 0 <= k < 3
                ==> has_edge(
                roof_triangles(roof, top, ring_total(sizes), cap),
                edge_to(roof_triangles(roof, top, ring_total(sizes), cap)[j], k),
                #[trigger] edge_from(roof_triangles(roof, top, ring_total(sizes), cap)[j], k),
            ) || layer_fwd(
                sizes,
                top,
                edge_from(roof_triangles(roof, top, ring_total(sizes), cap)[j], k),
                edge_to(roof_triangles(roof, top, ring_total(sizes), cap)[j], k),
            ),
        forall|p: int, q: int|
            #[trigger] ring_edge(sizes, p, q) ==> has_edge(
                roof_triangles(roof, top, ring_total(sizes), cap),
                idx(top + p),
                idx(top + q),
            ),
{
    let total = ring_total(sizes);
    let r = roof_triangles(roof, top, total, cap);
    lemma_ring_offset_nonneg(sizes, sizes.len() as int);
    if let RoofGeometry::Flat = roof {
        assert forall|j: int, k: int| 0 <= j < r.len() && 0 <= k < 3 implies has_edge(
            r,
            edge_to(r[j], k),
            #[trigger] edge_from(r[j], k),
        ) || layer_fwd(sizes, top, edge_from(r[j], k), edge_to(r[j], k)) by {
            lemma_lifted_cap_edges(cap, sizes, top, j, k);
        }
        assert forall|p: int, q: int| #[trigger] ring_edge(sizes, p, q) implies has_edge(
            r,
            idx(top + p),
            idx(top + q),
        ) by {
            lemma_lifted_cap_supply(cap, sizes, top, p, q);
        }
    } else {
        // Every other roof sits on a single ring.
        assert(sizes.len() == 1);
        let n = sizes[0] as int;
        assert(ring_offset(sizes, 0) == 0);
        assert(total == n);
        if n == 0 {
            assert(cap.len() == 0) by {
                if cap.len() > 0 {
                    assert(cap[0] < 0);
                }
            }
            match roof {
                RoofGeometry::Pyramid { .. } => {
                    lemma_dome_roof_empty(top, 0);
                },
                RoofGeometry::Dome { rings, .. } => {
                    lemma_dome_roof_empty(top, rings.len() as int);
                },
                RoofGeometry::Frustum { .. } => {
                    assert(band(top, top, 0, 0, 0).len() == 0);
                },
                _ => {},
            }
            assert(r.len() == 0);
            assert forall|p: int, q: int| #[trigger] ring_edge(sizes, p, q) implies has_edge(
                r,
                idx(top + p),
                idx(top + q),
            ) by {
                lemma_single_ring(sizes, p, q);
            }
        } else {
            match roof {
                RoofGeometry::Pyramid { .. } => {
                    lemma_dome_roof(top, n, 0);
                },
                RoofGeometry::Dome { rings, .. } => {
                    let levels = rings.len() as int;
                    assert((levels + 1) * n == levels * n + n) by (nonlinear_arith);
                    lemma_dome_roof(top, n, levels);
                },
                RoofGeometry::Ridge { rotated, .. } => {
                    lemma_ridge_roof(top, rotated);
                },
                RoofGeometry::Frustum { .. } => {
                    lemma_frustum_roof(top, sizes, cap);
                },
                _ => {},
            }
            assert(forall|j: int, k: int|
                0 <= j < r.len() && 0 <= k < 3 ==> has_edge(
                    r,
                    edge_to(r[j], k),
                    #[trigger] edge_from(r[j], k),
                ) || band_lower_fwd(top, 0, n, edge_from(r[j], k), edge_to(r[j], k)));
            assert(forall|i: int|
                0 <= i < n ==> has_edge(r, #[trigger] idx(top + 0 + i), idx(top + 0 + cyc_next(i, n))));
            assert forall|j: int, k: int| 0 <= j < r.len() && 0 <= k < 3 implies has_edge(
                r,
                edge_to(r[j], k),
                #[trigger] edge_from(r[j], k),
            ) || layer_fwd(sizes, top, edge_from(r[j], k), edge_to(r[j], k)) by {
                let u = edge_from(r[j], k);
                let v = edge_to(r[j], k);
                if !has_edge(r, v, u) {
                    assert(band_lower_fwd(top, 0, n, u, v));
                    let i = choose|i: int|
                        0 <= i < n && u == #[trigger] idx(top + 0 + i) && v == idx(
                            top + 0 + cyc_next(i, n),
                        );
                    lemma_single_ring(sizes, i, cyc_next(i, n));
                    assert(ring_edge(sizes, i, cyc_next(i, n)));
                    assert(u == idx(top + i) && v == idx(top + cyc_next(i, n)));
                }
            }
            assert forall|p: int, q: int| #[trigger] ring_edge(sizes, p, q) implies has_edge(
                r,
                idx(top + p),
                idx(top + q),
            ) by {
                lemma_single_ring(sizes, p, q);
                assert(has_edge(r, idx(top + 0 + p), idx(top + 0 + cyc_next(p, n))));
            }
        }
    }
}

/// A building solid is closed: after `add_building_walls` and a successful
/// `add_building_roof`, every directed edge of every triangle the two calls
/// added is matched by the reverse edge of another of them — the walls, the
/// bottom cap and every roof shape together enclose a watertight solid,
/// provided the footprint triangulation closes the rings.
pub proof fn lemma_building_solid_is_closed<V>(
    base: int,
    sizes: Seq<usize>,
    cap: Seq<usize>,
    roof: RoofGeometry<V>,
)
    requires
        0 <= base,
        base + 2 * ring_total(sizes) + roof_vertex_bound(roof, ring_total(sizes)) <= usize::MAX,
        forall|i: int| 0 <= i < cap.len() ==> #[trigger] cap[i] < ring_total(sizes),
        cap_closes_rings(cap, sizes),
        roof_fits(roof, sizes.len() as int, ring_total(sizes)),
    ensures
        is_closed(
            walls(base, base + ring_total(sizes), sizes, sizes.len() as int) + flipped(
                triples(cap),
                base,
            ) + roof_triangles(roof, base + ring_total(sizes), ring_total(sizes), cap),
        ),
{
    let total = ring_total(sizes);
    let top = base + total;
    lemma_ring_offset_nonneg(sizes, sizes.len() as int);
    let w = walls(base, top, sizes, sizes.len() as int);
    let f = flipped(triples(cap), base);
    let rf = roof_triangles(roof, top, total, cap);
    let all = w + f + rf;
    lemma_roof_closes_eave(roof, top, sizes, cap);
    assert forall|j: int, k: int| 0 <= j < all.len() && 0 <= k < 3 implies has_edge(
        all,
        edge_to(all[j], k),
        #[trigger] edge_from(all[j], k),
    ) by {
        let u = edge_from(all[j], k);
        let v = edge_to(all[j], k);
        if j < w.len() {
            assert(all[j] == w[j]);
            lemma_walls_edges(base, top, sizes, j, k);
            if has_edge(w, v, u) {
                lemma_has_edge_concat(w, f, v, u);
            } else if layer_fwd(sizes, base, u, v) {
                let (p, q) = choose|p: int, q: int|
                    #[trigger] ring_edge(sizes, p, q) && u == idx(base + p) && v == idx(base + q);
                lemma_flipped_cap_supply(cap, sizes, base, p, q);
                lemma_has_edge_concat(w, f, v, u);
            } else {
                let (p, q) = choose|p: int, q: int|
                    #[trigger] ring_edge(sizes, p, q) && v == idx(top + p) && u == idx(top + q);
                assert(has_edge(rf, idx(top + p), idx(top + q)));
                lemma_has_edge_concat(w + f, rf, v, u);
            }
            lemma_has_edge_concat(w + f, rf, v, u);
        } else if j < w.len() + f.len() {
            let jf = j - w.len();
            assert(all[j] == f[jf]);
            lemma_flipped_cap_edges(cap, sizes, base, jf, k);
            if has_edge(f, v, u) {
                lemma_has_edge_concat(w, f, v, u);
            } else {
                let (p, q) = choose|p: int, q: int|
                    #[trigger] ring_edge(sizes, p, q) && v == idx(base + p) && u == idx(base + q);
                lemma_walls_supply(base, top, sizes, p, q);
                lemma_has_edge_concat(w, f, v, u);
            }
            lemma_has_edge_concat(w + f, rf, v, u);
        } else {
            let jr = j - w.len() - f.len();
            assert(all[j] == rf[jr]);
            if has_edge(rf, v, u) {
                lemma_has_edge_concat(w + f, rf, v, u);
            } else {
                let (p, q) = choose|p: int, q: int|
                    #[trigger] ring_edge(sizes, p, q) && u == idx(top + p) && v == idx(top + q);
                lemma_walls_supply(base, top, sizes, p, q);
                lemma_has_edge_concat(w, f, v, u);
                lemma_has_edge_concat(w + f, rf, v, u);
            }
        }
    }
}

} // verus!
