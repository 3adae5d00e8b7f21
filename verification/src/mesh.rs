use std::collections::HashMap;
use std::collections::HashSet;
use vstd::prelude::*;

verus! {

broadcast use vstd::std_specs::hash::group_hash_axioms;

/// A triangle mesh. Vertex positions are carried as values of type `V`
/// (the library never reads them); triangles are index triples into
/// `vertices`, wound counter-clockwise when seen from outside the solid.
pub struct TerrainMesh<V> {
    pub vertices: Vec<V>,
    pub triangles: Vec<[usize; 3]>,
}

// ── Directed edges ──────────────────────────────────────────────────────────
/// Start of the `k`-th directed edge of a triangle (`k` in 0..3).
pub open spec fn edge_from(t: [usize; 3], k: int) -> usize {
    t[k]
}

/// End of the `k`-th directed edge of a triangle: the next corner, cyclically.
pub open spec fn edge_to(t: [usize; 3], k: int) -> usize {
    if k == 2 {
        t[0]
    } else {
        t[k + 1]
    }
}

/// Some triangle of `tris` walks the directed edge `u → v`.
pub open spec fn has_edge(tris: Seq<[usize; 3]>, u: usize, v: usize) -> bool {
    exists|i: int, k: int|
        0 <= i < tris.len() && 0 <= k < 3 && #[trigger] edge_from(tris[i], k) == u && edge_to(
            tris[i],
            k,
        ) == v
}

/// `u → v` is walked by some triangle but `v → u` by none: an open border.
pub open spec fn is_boundary_edge(tris: Seq<[usize; 3]>, u: usize, v: usize) -> bool {
    has_edge(tris, u, v) && !has_edge(tris, v, u)
}

/// Every directed edge of every triangle is matched by the reverse edge of some
/// triangle: the surface encloses a solid, with no open border.
pub open spec fn is_closed(tris: Seq<[usize; 3]>) -> bool {
    forall|i: int, k: int|
        0 <= i < tris.len() && 0 <= k < 3 ==> has_edge(
            tris,
            edge_to(tris[i], k),
            #[trigger] edge_from(tris[i], k),
        )
}

/// All corner indices are below `n`.
pub open spec fn indices_below(tris: Seq<[usize; 3]>, n: int) -> bool {
    forall|i: int, k: int| 0 <= i < tris.len() && 0 <= k < 3 ==> #[trigger] tris[i][k] < n
}

/// `v` starts some boundary edge.
pub open spec fn starts_boundary(tris: Seq<[usize; 3]>, v: usize) -> bool {
    exists|w: usize| #[trigger] is_boundary_edge(tris, v, w)
}

/// `v` ends some boundary edge.
pub open spec fn ends_boundary(tris: Seq<[usize; 3]>, v: usize) -> bool {
    exists|u: usize| #[trigger] is_boundary_edge(tris, u, v)
}

/// Every vertex that starts a boundary edge also ends one, and vice versa:
/// the open borders of the surface run in loops.
pub open spec fn boundary_balanced(tris: Seq<[usize; 3]>) -> bool {
    forall|v: usize|
        #![trigger starts_boundary(tris, v)]
        #![trigger ends_boundary(tris, v)]
        starts_boundary(tris, v) <==> ends_boundary(tris, v)
}

// ── Base closure: the model ─────────────────────────────────────────────────
pub open spec fn shifted(x: usize, n: int) -> usize {
    (x + n) as usize
}

/// The base-plate copy of a surface triangle: indices moved to the mirrored
/// vertices and the winding reversed, so it faces down.
pub open spec fn flipped_tri(t: [usize; 3], n: int) -> [usize; 3] {
    [shifted(t[0], n), shifted(t[2], n), shifted(t[1], n)]
}

pub open spec fn flipped(tris: Seq<[usize; 3]>, n: int) -> Seq<[usize; 3]> {
    tris.map_values(|t: [usize; 3]| flipped_tri(t, n))
}

/// First wall triangle below the boundary edge `a → b`.
pub open spec fn wall_lo(a: usize, b: usize, n: int) -> [usize; 3] {
    [a, shifted(a, n), shifted(b, n)]
}

/// Second wall triangle below the boundary edge `a → b`.
pub open spec fn wall_hi(a: usize, b: usize, n: int) -> [usize; 3] {
    [a, shifted(b, n), b]
}

/// The walls contributed by edge `k` of triangle `i`: two triangles joining
/// the edge to its base copy when it is a boundary edge, none otherwise.
pub open spec fn wall_slot(tris: Seq<[usize; 3]>, n: int, i: int, k: int) -> Seq<[usize; 3]> {
    let a = edge_from(tris[i], k);
    let b = edge_to(tris[i], k);
    if has_edge(tris, b, a) {
        Seq::empty()
    } else {
        seq![wall_lo(a, b, n), wall_hi(a, b, n)]
    }
}

pub open spec fn walls_of(tris: Seq<[usize; 3]>, n: int, i: int) -> Seq<[usize; 3]> {
    wall_slot(tris, n, i, 0) + wall_slot(tris, n, i, 1) + wall_slot(tris, n, i, 2)
}

/// Side walls for the boundary edges of the first `m` triangles, in order.
pub open spec fn side_walls(tris: Seq<[usize; 3]>, n: int, m: int) -> Seq<[usize; 3]>
    decreases m,
{
    if m <= 0 {
        Seq::empty()
    } else {
        side_walls(tris, n, m - 1) + walls_of(tris, n, m - 1)
    }
}

/// The triangles of a surface closed by a base plate: the surface, its
/// flipped copy on the base, then the side walls.
pub open spec fn closed_with_base(tris: Seq<[usize; 3]>, n: int) -> Seq<[usize; 3]> {
    tris + flipped(tris, n) + side_walls(tris, n, tris.len() as int)
}

// ── Edge keys ───────────────────────────────────────────────────────────────
pub open spec fn edge_key(u: usize, v: usize) -> u128 {
    (u * 0x1_0000_0000_0000_0000int + v) as u128
}

fn exec_edge_key(u: usize, v: usize) -> (r: u128)
    ensures
        r == edge_key(u, v),
{
    (u as u128) * 0x1_0000_0000_0000_0000u128 + (v as u128)
}

proof fn lemma_edge_key_injective(u1: usize, v1: usize, u2: usize, v2: usize)
    ensures
        edge_key(u1, v1) == edge_key(u2, v2) ==> u1 == u2 && v1 == v2,
{
    if u1 < u2 {
        assert(u1 * 0x1_0000_0000_0000_0000int + v1 < u2 * 0x1_0000_0000_0000_0000int + v2);
    } else if u2 < u1 {
        assert(u2 * 0x1_0000_0000_0000_0000int + v2 < u1 * 0x1_0000_0000_0000_0000int + v1);
    }
}

/// Keys of all directed edges of the first `m` triangles.
pub open spec fn key_set(tris: Seq<[usize; 3]>, m: int) -> Set<u128> {
    Set::new(
        |key: u128|
            exists|i: int, k: int|
                0 <= i < m && 0 <= k < 3 && key == #[trigger] edge_key(
                    edge_from(tris[i], k),
                    edge_to(tris[i], k),
                ),
    )
}

proof fn lemma_key_set_has_edge(tris: Seq<[usize; 3]>, u: usize, v: usize)
    ensures
        key_set(tris, tris.len() as int).contains(edge_key(u, v)) <==> has_edge(tris, u, v),
{
    if key_set(tris, tris.len() as int).contains(edge_key(u, v)) {
        let (i, k) = choose|i: int, k: int|
            0 <= i < tris.len() && 0 <= k < 3 && edge_key(u, v) == #[trigger] edge_key(
                edge_from(tris[i], k),
                edge_to(tris[i], k),
            );
        lemma_edge_key_injective(u, v, edge_from(tris[i], k), edge_to(tris[i], k));
        assert(edge_from(tris[i], k) == u);
    }
    if has_edge(tris, u, v) {
        let (i, k) = choose|i: int, k: int|
            0 <= i < tris.len() && 0 <= k < 3 && #[trigger] edge_from(tris[i], k) == u && edge_to(
                tris[i],
                k,
            ) == v;
        assert(edge_key(u, v) == edge_key(edge_from(tris[i], k), edge_to(tris[i], k)));
    }
}

/// Close an open surface into a printable solid on a flat base plate.
///
/// `bottom[i]` is the base-plate copy of vertex `i` (same XY, base height);
/// the float geometry that computes it lives with the caller. The mesh gains
/// those copies after its own vertices, a downward-facing copy of every
/// triangle, and two wall triangles under every boundary edge — a directed
/// edge `a → b` whose reverse `b → a` no triangle walks.
pub fn close_mesh_with_base<V>(mesh: &mut TerrainMesh<V>, bottom: Vec<V>)
    requires
        bottom.len() == old(mesh).vertices.len(),
        forall|i: int, k: int|
            0 <= i < old(mesh).triangles.len() && 0 <= k < 3 ==> #[trigger] old(
                mesh,
            ).triangles@[i][k] + old(mesh).vertices.len() <= usize::MAX,
    ensures
        final(mesh).vertices@ == old(mesh).vertices@ + bottom@,
        final(mesh).triangles@ == closed_with_base(
            old(mesh).triangles@,
            old(mesh).vertices.len() as int,
        ),
{
    let n = mesh.vertices.len();
    let m = mesh.triangles.len();
    let ghost tris = mesh.triangles@;

    // Directed edges of the open surface.
    let mut directed: HashSet<u128> = HashSet::new();
    let mut i: usize = 0;
    while i < m
        invariant
            0 <= i <= m,
            m == tris.len(),
            mesh.triangles@ == tris,
            mesh.vertices@ == old(mesh).vertices@,
            directed@ == key_set(tris, i as int),
        decreases m - i,
    {
        let t = mesh.triangles[i];
        directed.insert(exec_edge_key(t[0], t[1]));
        directed.insert(exec_edge_key(t[1], t[2]));
        directed.insert(exec_edge_key(t[2], t[0]));
        proof {
            assert(t == tris[i as int]);
            assert forall|key: u128| #[trigger]
                key_set(tris, i + 1).contains(key) <==> directed@.contains(key) by {
                if key_set(tris, i + 1).contains(key) {
                    let (j, k) = choose|j: int, k: int|
                        0 <= j < i + 1 && 0 <= k < 3 && key == #[trigger] edge_key(
                            edge_from(tris[j], k),
                            edge_to(tris[j], k),
                        );
                    if j < i {
                        assert(key_set(tris, i as int).contains(key));
                    }
                }
                if directed@.contains(key) {
                    if !key_set(tris, i as int).contains(key) {
                        if key == edge_key(t[0], t[1]) {
                            assert(key == edge_key(edge_from(tris[i as int], 0), edge_to(tris[i as int], 0)));
                        } else if key == edge_key(t[1], t[2]) {
                            assert(key == edge_key(edge_from(tris[i as int], 1), edge_to(tris[i as int], 1)));
                        } else {
                            assert(key == edge_key(edge_from(tris[i as int], 2), edge_to(tris[i as int], 2)));
                        }
                    }
                }
            }
            assert(directed@ =~= key_set(tris, i + 1));
        }
        i = i + 1;
    }

    // Flipped copies on the base plate.
    let mut i: usize = 0;
    while i < m
        invariant
            0 <= i <= m,
            m == tris.len(),
            n == old(mesh).vertices.len(),
            tris == old(mesh).triangles@,
            mesh.vertices@ == old(mesh).vertices@,
            mesh.triangles@ == tris + flipped(tris.take(i as int), n as int),
            forall|j: int, k: int|
                0 <= j < tris.len() && 0 <= k < 3 ==> #[trigger] tris[j][k] + n <= usize::MAX,
        decreases m - i,
    {
        let t = mesh.triangles[i];
        proof {
            assert(t == tris[i as int]);
            assert(tris[i as int][0] + n <= usize::MAX);
            assert(tris[i as int][1] + n <= usize::MAX);
            assert(tris[i as int][2] + n <= usize::MAX);
        }
        let f = [t[0] + n, t[2] + n, t[1] + n];
        mesh.triangles.push(f);
        proof {
            assert(f == flipped_tri(tris[i as int], n as int));
            assert(flipped(tris.take(i + 1), n as int) =~= flipped(tris.take(i as int), n as int).push(f));
        }
        i = i + 1;
    }

    proof {
        assert(tris.take(m as int) =~= tris);
    }

    // Side walls under every boundary edge.
    let mut walls: Vec<[usize; 3]> = Vec::new();
    let mut i: usize = 0;
    while i < m
        invariant
            0 <= i <= m,
            m == tris.len(),
            n == old(mesh).vertices.len(),
            tris == old(mesh).triangles@,
            mesh.triangles@ == tris + flipped(tris, n as int),
            mesh.vertices@ == old(mesh).vertices@,
            directed@ == key_set(tris, m as int),
            walls@ == side_walls(tris, n as int, i as int),
            forall|j: int, k: int|
                0 <= j < tris.len() && 0 <= k < 3 ==> #[trigger] tris[j][k] + n <= usize::MAX,
        decreases m - i,
    {
        let t = mesh.triangles[i];
        proof {
            assert(t == tris[i as int]);
            assert(tris[i as int][0] + n <= usize::MAX);
            assert(tris[i as int][1] + n <= usize::MAX);
            assert(tris[i as int][2] + n <= usize::MAX);
        }
        let ghost w0 = walls@;
        let mut k: usize = 0;
        while k < 3
            invariant
                0 <= k <= 3,
                0 <= i < m,
                m == tris.len(),
                t == tris[i as int],
                t[0] + n <= usize::MAX,
                t[1] + n <= usize::MAX,
                t[2] + n <= usize::MAX,
                directed@ == key_set(tris, m as int),
                k == 0 ==> walls@ == w0,
                k == 1 ==> walls@ == w0 + wall_slot(tris, n as int, i as int, 0),
                k == 2 ==> walls@ == w0 + wall_slot(tris, n as int, i as int, 0) + wall_slot(
                    tris,
                    n as int,
                    i as int,
                    1,
                ),
                k == 3 ==> walls@ == w0 + walls_of(tris, n as int, i as int),
            decreases 3 - k,
        {
            let a = t[k];
            let b = if k == 2 {
                t[0]
            } else {
                t[k + 1]
            };
            proof {
                assert(a == edge_from(tris[i as int], k as int));
                assert(b == edge_to(tris[i as int], k as int));
                lemma_key_set_has_edge(tris, b, a);
            }
            let ghost before = walls@;
            if !directed.contains(&exec_edge_key(b, a)) {
                walls.push([a, a + n, b + n]);
                walls.push([a, b + n, b]);
                proof {
                    assert(walls@ =~= before + wall_slot(tris, n as int, i as int, k as int));
                }
            } else {
                proof {
                    assert(walls@ =~= before + wall_slot(tris, n as int, i as int, k as int));
                }
            }
            k = k + 1;
        }
        proof {
            assert(walls@ =~= side_walls(tris, n as int, i + 1));
        }
        i = i + 1;
    }
    mesh.triangles.append(&mut walls);
    let mut bottom = bottom;
    mesh.vertices.append(&mut bottom);
    proof {
        assert(mesh.triangles@ =~= closed_with_base(tris, n as int));
    }
}


// ── Base closure: the proof that the result is closed ──────────────────────
pub(crate) proof fn lemma_contains_edge(s: Seq<[usize; 3]>, t: [usize; 3], k: int)
    requires
        s.contains(t),
        0 <= k < 3,
    ensures
        has_edge(s, edge_from(t, k), edge_to(t, k)),
{
    let j = choose|j: int| 0 <= j < s.len() && s[j] == t;
    assert(edge_from(s[j], k) == edge_from(t, k));
}

pub(crate) proof fn lemma_has_edge_concat(a: Seq<[usize; 3]>, b: Seq<[usize; 3]>, u: usize, v: usize)
    ensures
        (has_edge(a, u, v) || has_edge(b, u, v)) ==> has_edge(a + b, u, v),
{
    if has_edge(a, u, v) {
        let (i, k) = choose|i: int, k: int|
            0 <= i < a.len() && 0 <= k < 3 && #[trigger] edge_from(a[i], k) == u && edge_to(
                a[i],
                k,
            ) == v;
        assert((a + b)[i] == a[i]);
        assert(edge_from((a + b)[i], k) == u);
    } else if has_edge(b, u, v) {
        let (i, k) = choose|i: int, k: int|
            0 <= i < b.len() && 0 <= k < 3 && #[trigger] edge_from(b[i], k) == u && edge_to(
                b[i],
                k,
            ) == v;
        assert((a + b)[a.len() + i] == b[i]);
        assert(edge_from((a + b)[a.len() + i], k) == u);
    }
}

pub(crate) proof fn lemma_flipped_edge(tris: Seq<[usize; 3]>, n: int, u: usize, v: usize)
    requires
        has_edge(tris, u, v),
    ensures
        has_edge(flipped(tris, n), shifted(v, n), shifted(u, n)),
{
    let (i, k) = choose|i: int, k: int|
        0 <= i < tris.len() && 0 <= k < 3 && #[trigger] edge_from(tris[i], k) == u && edge_to(
            tris[i],
            k,
        ) == v;
    let f = flipped(tris, n);
    assert(f[i] == flipped_tri(tris[i], n));
    let kf = if k == 0 {
        2int
    } else if k == 1 {
        1int
    } else {
        0int
    };
    assert(edge_from(f[i], kf) == shifted(v, n));
    assert(edge_to(f[i], kf) == shifted(u, n));
}

proof fn lemma_walls_contain(tris: Seq<[usize; 3]>, n: int, m: int, i: int, k: int)
    requires
        0 <= i < m <= tris.len(),
        0 <= k < 3,
        !has_edge(tris, edge_to(tris[i], k), edge_from(tris[i], k)),
    ensures
        side_walls(tris, n, m).contains(
            wall_lo(edge_from(tris[i], k), edge_to(tris[i], k), n),
        ),
        side_walls(tris, n, m).contains(
            wall_hi(edge_from(tris[i], k), edge_to(tris[i], k), n),
        ),
    decreases m,
{
    let a = edge_from(tris[i], k);
    let b = edge_to(tris[i], k);
    let prev = side_walls(tris, n, m - 1);
    let w = walls_of(tris, n, m - 1);
    assert(side_walls(tris, n, m) == prev + w);
    if i < m - 1 {
        lemma_walls_contain(tris, n, m - 1, i, k);
        let j1 = choose|j: int| 0 <= j < prev.len() && prev[j] == wall_lo(a, b, n);
        let j2 = choose|j: int| 0 <= j < prev.len() && prev[j] == wall_hi(a, b, n);
        assert((prev + w)[j1] == wall_lo(a, b, n));
        assert((prev + w)[j2] == wall_hi(a, b, n));
    } else {
        let s0 = wall_slot(tris, n, i, 0);
        let s1 = wall_slot(tris, n, i, 1);
        let s2 = wall_slot(tris, n, i, 2);
        assert(w == s0 + s1 + s2);
        let off = if k == 0 {
            0int
        } else if k == 1 {
            s0.len() as int
        } else {
            (s0.len() + s1.len()) as int
        };
        let sk = wall_slot(tris, n, i, k);
        assert(sk[0] == wall_lo(a, b, n));
        assert(sk[1] == wall_hi(a, b, n));
        assert(w[off] == wall_lo(a, b, n));
        assert(w[off + 1] == wall_hi(a, b, n));
        assert((prev + w)[prev.len() + off] == wall_lo(a, b, n));
        assert((prev + w)[prev.len() + off + 1] == wall_hi(a, b, n));
    }
}

/// Every wall triangle sits under a boundary edge of the surface.
pub(crate) proof fn lemma_walls_origin(tris: Seq<[usize; 3]>, n: int, m: int, j: int)
    requires
        0 <= m <= tris.len(),
        0 <= j < side_walls(tris, n, m).len(),
    ensures
        exists|i: int, k: int|
            #![trigger edge_from(tris[i], k)]
            0 <= i < m && 0 <= k < 3 && !has_edge(tris, edge_to(tris[i], k), edge_from(tris[i], k))
                && (side_walls(tris, n, m)[j] == wall_lo(
                edge_from(tris[i], k),
                edge_to(tris[i], k),
                n,
            ) || side_walls(tris, n, m)[j] == wall_hi(
                edge_from(tris[i], k),
                edge_to(tris[i], k),
                n,
            )),
    decreases m,
{
    let prev = side_walls(tris, n, m - 1);
    let w = walls_of(tris, n, m - 1);
    assert(side_walls(tris, n, m) == prev + w);
    let i = m - 1;
    if j < prev.len() {
        lemma_walls_origin(tris, n, m - 1, j);
        assert(side_walls(tris, n, m)[j] == prev[j]);
    } else {
        let jj = j - prev.len();
        assert(side_walls(tris, n, m)[j] == w[jj]);
        let s0 = wall_slot(tris, n, i, 0);
        let s1 = wall_slot(tris, n, i, 1);
        let s2 = wall_slot(tris, n, i, 2);
        assert(w == s0 + s1 + s2);
        if jj < s0.len() {
            assert(w[jj] == s0[jj]);
            assert(edge_from(tris[i], 0) == tris[i][0]);
        } else if jj < s0.len() + s1.len() {
            assert(w[jj] == s1[jj - s0.len()]);
            assert(edge_from(tris[i], 1) == tris[i][1]);
        } else {
            assert(w[jj] == s2[jj - s0.len() - s1.len()]);
            assert(edge_from(tris[i], 2) == tris[i][2]);
        }
    }
}

proof fn lemma_boundary_slot_walls(tris: Seq<[usize; 3]>, n: int, a: usize, b: usize)
    requires
        is_boundary_edge(tris, a, b),
    ensures
        side_walls(tris, n, tris.len() as int).contains(wall_lo(a, b, n)),
        side_walls(tris, n, tris.len() as int).contains(wall_hi(a, b, n)),
{
    let (i, k) = choose|i: int, k: int|
        0 <= i < tris.len() && 0 <= k < 3 && #[trigger] edge_from(tris[i], k) == a && edge_to(
            tris[i],
            k,
        ) == b;
    lemma_walls_contain(tris, n, tris.len() as int, i, k);
}

/// Closing a surface whose open borders run in loops yields a closed solid:
/// after `close_mesh_with_base`, every directed edge of every triangle is
/// matched by the reverse edge of another triangle — the mesh is watertight.
pub proof fn lemma_closed_with_base_is_closed(tris: Seq<[usize; 3]>, n: int)
    requires
        0 <= n,
        n + n <= usize::MAX,
        indices_below(tris, n),
        boundary_balanced(tris),
    ensures
        is_closed(closed_with_base(tris, n)),
{
    let f = flipped(tris, n);
    let w = side_walls(tris, n, tris.len() as int);
    let r = closed_with_base(tris, n);
    assert(r == (tris + f) + w);
    assert forall|j: int, k: int| 0 <= j < r.len() && 0 <= k < 3 implies has_edge(
        r,
        edge_to(r[j], k),
        #[trigger] edge_from(r[j], k),
    ) by {
        let t = r[j];
        let a = edge_from(t, k);
        let b = edge_to(t, k);
        if j < tris.len() {
            assert(t == tris[j]);
            assert(has_edge(tris, a, b));
            if has_edge(tris, b, a) {
                lemma_has_edge_concat(tris, f, b, a);
            } else {
                lemma_boundary_slot_walls(tris, n, a, b);
                lemma_contains_edge(w, wall_hi(a, b, n), 2);
            }
            lemma_has_edge_concat(tris + f, w, b, a);
        } else if j < tris.len() + f.len() {
            let jf = j - tris.len();
            assert(t == f[jf]);
            assert(t == flipped_tri(tris[jf], n));
            // Edge k of the flipped triangle reverses edge `kt` of the surface triangle.
            let kt = if k == 0 {
                2int
            } else if k == 1 {
                1int
            } else {
                0int
            };
            let x = edge_from(tris[jf], kt);
            let y = edge_to(tris[jf], kt);
            assert(tris[jf][0] < n && tris[jf][1] < n && tris[jf][2] < n);
            assert(a == shifted(y, n) && b == shifted(x, n));
            assert(has_edge(tris, x, y));
            if has_edge(tris, y, x) {
                lemma_flipped_edge(tris, n, y, x);
                lemma_has_edge_concat(tris, f, b, a);
            } else {
                lemma_boundary_slot_walls(tris, n, x, y);
                lemma_contains_edge(w, wall_lo(x, y, n), 1);
                lemma_has_edge_concat(tris + f, w, b, a);
            }
            lemma_has_edge_concat(tris + f, w, b, a);
        } else {
            let jw = j - tris.len() - f.len();
            assert(t == w[jw]);
            lemma_walls_origin(tris, n, tris.len() as int, jw);
            let (i, kk) = choose|i: int, kk: int|
                #![trigger edge_from(tris[i], kk)]
                0 <= i < tris.len() && 0 <= kk < 3 && !has_edge(
                    tris,
                    edge_to(tris[i], kk),
                    edge_from(tris[i], kk),
                ) && (w[jw] == wall_lo(edge_from(tris[i], kk), edge_to(tris[i], kk), n) || w[jw]
                    == wall_hi(edge_from(tris[i], kk), edge_to(tris[i], kk), n));
            let p = edge_from(tris[i], kk);
            let q = edge_to(tris[i], kk);
            assert(tris[i][0] < n && tris[i][1] < n && tris[i][2] < n);
            assert(p < n && q < n);
            assert(has_edge(tris, p, q));
            assert(is_boundary_edge(tris, p, q));
            lemma_boundary_slot_walls(tris, n, p, q);
            if t == wall_lo(p, q, n) {
                if k == 0 {
                    // p → p': p also ends a boundary edge z → p.
                    assert(starts_boundary(tris, p));
                    assert(ends_boundary(tris, p));
                    let z = choose|z: usize| #[trigger] is_boundary_edge(tris, z, p);
                    lemma_boundary_slot_walls(tris, n, z, p);
                    lemma_contains_edge(w, wall_hi(z, p, n), 1);
                } else if k == 1 {
                    lemma_flipped_edge(tris, n, p, q);
                    lemma_has_edge_concat(tris, f, b, a);
                } else {
                    lemma_contains_edge(w, wall_hi(p, q, n), 0);
                }
            } else {
                assert(t == wall_hi(p, q, n));
                if k == 0 {
                    lemma_contains_edge(w, wall_lo(p, q, n), 2);
                } else if k == 1 {
                    // q' → q: q also starts a boundary edge q → z.
                    assert(ends_boundary(tris, q));
                    assert(starts_boundary(tris, q));
                    let z = choose|z: usize| #[trigger] is_boundary_edge(tris, q, z);
                    lemma_boundary_slot_walls(tris, n, q, z);
                    lemma_contains_edge(w, wall_lo(q, z, n), 0);
                } else {
                    lemma_has_edge_concat(tris, f, b, a);
                }
            }
            lemma_has_edge_concat(tris + f, w, b, a);
        }
    }
}


// ── Manifold check ──────────────────────────────────────────────────────────
/// Side `k` of triangle `t` joins `u` and `v`, in either direction.
pub open spec fn joins(t: [usize; 3], k: int, u: usize, v: usize) -> bool {
    (edge_from(t, k) == u && edge_to(t, k) == v) || (edge_from(t, k) == v && edge_to(t, k) == u)
}

/// How many of the first `kk` sides of `t` join `u` and `v`.
pub open spec fn sides_joining(t: [usize; 3], kk: int, u: usize, v: usize) -> nat {
    (if kk > 0 && joins(t, 0, u, v) {
        1nat
    } else {
        0nat
    }) + (if kk > 1 && joins(t, 1, u, v) {
        1nat
    } else {
        0nat
    }) + (if kk > 2 && joins(t, 2, u, v) {
        1nat
    } else {
        0nat
    })
}

/// How many triangle sides among the first `m` triangles join `u` and `v`:
/// the number of faces sharing the undirected edge `{u, v}`.
pub open spec fn side_count(tris: Seq<[usize; 3]>, m: int, u: usize, v: usize) -> nat
    decreases m,
{
    if m <= 0 {
        0
    } else {
        side_count(tris, m - 1, u, v) + sides_joining(tris[m - 1], 3, u, v)
    }
}

/// Every edge of the mesh is shared by exactly two triangle sides.
pub open spec fn is_manifold(tris: Seq<[usize; 3]>) -> bool {
    forall|i: int, k: int|
        0 <= i < tris.len() && 0 <= k < 3 ==> side_count(
            tris,
            tris.len() as int,
            #[trigger] edge_from(tris[i], k),
            edge_to(tris[i], k),
        ) == 2
}

pub open spec fn und_key(u: usize, v: usize) -> u128 {
    if u <= v {
        edge_key(u, v)
    } else {
        edge_key(v, u)
    }
}

proof fn lemma_und_key(u: usize, v: usize, x: usize, y: usize)
    ensures
        und_key(u, v) == und_key(x, y) <==> ((u == x && v == y) || (u == y && v == x)),
{
    if u <= v {
        if x <= y {
            lemma_edge_key_injective(u, v, x, y);
        } else {
            lemma_edge_key_injective(u, v, y, x);
        }
    } else {
        if x <= y {
            lemma_edge_key_injective(v, u, x, y);
        } else {
            lemma_edge_key_injective(v, u, y, x);
        }
    }
}

proof fn lemma_side_count_bounds(tris: Seq<[usize; 3]>, m: int, u: usize, v: usize)
    ensures
        side_count(tris, m, u, v) <= 3 * m || m <= 0,
        side_count(tris, m, u, v) == side_count(tris, m, v, u),
    decreases m,
{
    if m > 0 {
        lemma_side_count_bounds(tris, m - 1, u, v);
    }
}

/// Counts stored for every undirected edge of the first `i` triangles, plus
/// the first `kk` sides of triangle `i`.
pub open spec fn counts_match(
    counts: Map<u128, usize>,
    tris: Seq<[usize; 3]>,
    i: int,
    kk: int,
) -> bool {
    forall|u: usize, v: usize|
        #![trigger counts.contains_key(und_key(u, v))]
        #![trigger counts[und_key(u, v)]]
        {
            let c = side_count(tris, i, u, v) + sides_joining(tris[i], kk, u, v);
            &&& counts.contains_key(und_key(u, v)) <==> c > 0
            &&& counts.contains_key(und_key(u, v)) ==> counts[und_key(u, v)] == c
        }
}

/// Add one use of the undirected edge `{u, v}` to the counts.
fn bump_edge(counts: &mut HashMap<u128, usize>, u: usize, v: usize, Ghost(limit): Ghost<int>)
    requires
        old(counts)@.contains_key(und_key(u, v)) ==> old(counts)@[und_key(u, v)] < limit,
        limit <= usize::MAX,
    ensures
        final(counts)@ == old(counts)@.insert(
            und_key(u, v),
            if old(counts)@.contains_key(und_key(u, v)) {
                (old(counts)@[und_key(u, v)] + 1) as usize
            } else {
                1usize
            },
        ),
{
    let key = if u <= v {
        exec_edge_key(u, v)
    } else {
        exec_edge_key(v, u)
    };
    let current = match counts.get(&key) {
        Some(c) => *c,
        None => 0,
    };
    counts.insert(key, current + 1);
}

/// Whether the mesh is manifold: every edge shared by exactly two triangles.
pub fn validate_manifold<V>(mesh: &TerrainMesh<V>) -> (manifold: bool)
    requires
        3 * mesh.triangles.len() <= usize::MAX,
    ensures
        manifold == is_manifold(mesh.triangles@),
{
    let tris = &mesh.triangles;
    let m = tris.len();
    let mut counts: HashMap<u128, usize> = HashMap::new();
    proof {
        assert(counts_match(counts@, tris@, 0, 0));
    }
    let mut i: usize = 0;
    while i < m
        invariant
            0 <= i <= m,
            m == tris@.len(),
            tris@ == mesh.triangles@,
            3 * m <= usize::MAX,
            counts_match(counts@, tris@, i as int, 0),
        decreases m - i,
    {
        let t = tris[i];
        let mut k: usize = 0;
        while k < 3
            invariant
                0 <= i < m,
                m == tris@.len(),
            tris@ == mesh.triangles@,
                3 * m <= usize::MAX,
                0 <= k <= 3,
                t == tris@[i as int],
                counts_match(counts@, tris@, i as int, k as int),
            decreases 3 - k,
        {
            let a = t[k];
            let b = if k == 2 {
                t[0]
            } else {
                t[k + 1]
            };
            let ghost old_counts = counts@;
            proof {
                assert(a == edge_from(t, k as int) && b == edge_to(t, k as int));
                lemma_side_count_bounds(tris@, i as int, a, b);
                assert(sides_joining(t, k as int, a, b) <= k) by {
                    assert(sides_joining(t, 0, a, b) == 0);
                    assert(sides_joining(t, 1, a, b) <= 1);
                    assert(sides_joining(t, 2, a, b) <= 2);
                }
                if old_counts.contains_key(und_key(a, b)) {
                    assert(old_counts[und_key(a, b)] == side_count(tris@, i as int, a, b)
                        + sides_joining(t, k as int, a, b));
                }
            }
            bump_edge(&mut counts, a, b, Ghost(3 * m as int));
            proof {
                assert forall|u: usize, v: usize| #![trigger und_key(u, v)] true implies {
                    let c = side_count(tris@, i as int, u, v) + sides_joining(t, k + 1, u, v);
                    &&& counts@.contains_key(und_key(u, v)) <==> c > 0
                    &&& counts@.contains_key(und_key(u, v)) ==> counts@[und_key(u, v)] == c
                } by {
                    lemma_und_key(u, v, a, b);
                    assert(joins(t, k as int, u, v) <==> und_key(u, v) == und_key(a, b));
                    assert(old_counts.contains_key(und_key(u, v)) ==> old_counts[und_key(u, v)]
                        == side_count(tris@, i as int, u, v) + sides_joining(t, k as int, u, v));
                    if und_key(u, v) == und_key(a, b) {
                        lemma_side_count_bounds(tris@, i as int, u, v);
                        assert(sides_joining(t, k as int, u, v) == sides_joining(t, k as int, a, b)) by {
                            assert(sides_joining(t, 0, u, v) == sides_joining(t, 0, a, b));
                            assert(sides_joining(t, 1, u, v) == sides_joining(t, 1, a, b));
                            assert(sides_joining(t, 2, u, v) == sides_joining(t, 2, a, b));
                        }
                    }
                }
                assert(counts_match(counts@, tris@, i as int, k + 1));
            }
            k = k + 1;
        }
        proof {
            assert forall|u: usize, v: usize| #![trigger side_count(tris@, i + 1, u, v)] true implies side_count(tris@, i + 1, u, v)
                == side_count(tris@, i as int, u, v) + sides_joining(tris@[i as int], 3, u, v) by {}
        }
        i = i + 1;
    }

    // Every side's edge must be shared by exactly two triangle sides.
    let mut i: usize = 0;
    while i < m
        invariant
            0 <= i <= m,
            m == tris@.len(),
            tris@ == mesh.triangles@,
            counts_match(counts@, tris@, m as int, 0),
            forall|j: int, k: int|
                0 <= j < i && 0 <= k < 3 ==> side_count(
                    tris@,
                    m as int,
                    #[trigger] edge_from(tris@[j], k),
                    edge_to(tris@[j], k),
                ) == 2,
        decreases m - i,
    {
        let t = tris[i];
        let mut k: usize = 0;
        while k < 3
            invariant
                0 <= i < m,
                m == tris@.len(),
            tris@ == mesh.triangles@,
                0 <= k <= 3,
                t == tris@[i as int],
                counts_match(counts@, tris@, m as int, 0),
                forall|kk: int|
                    0 <= kk < k ==> side_count(
                        tris@,
                        m as int,
                        #[trigger] edge_from(tris@[i as int], kk),
                        edge_to(tris@[i as int], kk),
                    ) == 2,
            decreases 3 - k,
        {
            let a = t[k];
            let b = if k == 2 {
                t[0]
            } else {
                t[k + 1]
            };
            let key = if a <= b {
                exec_edge_key(a, b)
            } else {
                exec_edge_key(b, a)
            };
            proof {
                assert(a == edge_from(t, k as int) && b == edge_to(t, k as int));
                assert(key == und_key(a, b));
                assert(side_count(tris@, m as int, a, b) > 0) by {
                    assert(sides_joining(t, 3, a, b) > 0) by {
                        assert(joins(t, k as int, a, b));
                        assert(sides_joining(t, 1, a, b) >= (if k == 0 { 1int } else { 0int }));
                        assert(sides_joining(t, 2, a, b) >= (if k <= 1 { 1int } else { 0int }));
                    }
                    lemma_side_count_prefix(tris@, i as int + 1, m as int, a, b);
                }
            }
            let c = match counts.get(&key) {
                Some(c) => *c,
                None => 0,
            };
            proof {
                assert(counts@.contains_key(und_key(a, b)));
                assert(c == side_count(tris@, m as int, a, b));
            }
            if c != 2 {
                proof {
                    assert(side_count(tris@, m as int, edge_from(tris@[i as int], k as int), edge_to(tris@[i as int], k as int)) != 2);
                    assert(!is_manifold(tris@));
                }
                return false;
            }
            k = k + 1;
        }
        i = i + 1;
    }
    true
}

proof fn lemma_side_count_prefix(tris: Seq<[usize; 3]>, m1: int, m2: int, u: usize, v: usize)
    requires
        0 <= m1 <= m2,
    ensures
        side_count(tris, m1, u, v) <= side_count(tris, m2, u, v),
    decreases m2 - m1,
{
    if m1 < m2 {
        lemma_side_count_prefix(tris, m1, m2 - 1, u, v);
    }
}



// ── Triangle lists from flat index lists ────────────────────────────────────
/// A flat index list read as whole triangles: entries `3i, 3i+1, 3i+2` form
/// triangle `i` (a trailing partial triangle is ignored).
pub open spec fn triples(flat: Seq<usize>) -> Seq<[usize; 3]> {
    Seq::new((flat.len() / 3) as nat, |i: int| [flat[3 * i], flat[3 * i + 1], flat[3 * i + 2]])
}

/// Group a triangulation's flat index list (three indices per triangle, as
/// a Delaunay triangulator returns it) into triangles.
pub fn triangles_from_indices(flat: &Vec<usize>) -> (tris: Vec<[usize; 3]>)
    requires
        flat.len() % 3 == 0,
    ensures
        tris@ == triples(flat@),
{
    let mut tris: Vec<[usize; 3]> = Vec::new();
    let mut i: usize = 0;
    let mut c: usize = 0;
    while c < flat.len()
        invariant
            c == 3 * i,
            c <= flat.len(),
            flat.len() % 3 == 0,
            tris@ == triples(flat@).take(i as int),
        decreases flat.len() - c,
    {
        tris.push([flat[c], flat[c + 1], flat[c + 2]]);
        proof {
            assert(tris@ =~= triples(flat@).take(i + 1));
        }
        i = i + 1;
        c = c + 3;
    }
    proof {
        assert(triples(flat@).take(i as int) =~= triples(flat@));
    }
    tris
}

} // verus!
