use crate::building::{
    band, band_hi, band_lo, cap_closes_rings, cyc_next, dome_bands, dome_roof, fan, frustum_roof, idx,
    lemma_building_solid_is_closed, lemma_cap_tri_bound, lemma_ring_offset_mono,
    lemma_ring_offset_nonneg, lemma_single_ring, lifted, ridge_corner, ridge_roof, ring_edge, ring_offset,
    ring_pos, ring_total, roof_fits, roof_triangles, roof_vertex_bound, walls, RoofGeometry,
};
use crate::manifold::{
    dir_count, dirs, edges_unique, lemma_dir_count_concat, lemma_dir_count_has_edge,
    lemma_has_edge_count, lemma_side_count_dirs, nondegenerate, walks,
};
use crate::mesh::{
    edge_from, edge_to, flipped, flipped_tri, has_edge, indices_below, is_closed, is_manifold,
    side_count, triples,
};
use vstd::prelude::*;

verus! {

// ── Sums over the edges of one ring ─────────────────────────────────────────
/// Sum of `f(p, q)` over the first `c` edges `p → q` of a ring of `s`
/// vertices starting at position `off`.
pub open spec fn esum(off: int, s: int, c: int, f: spec_fn(int, int) -> nat) -> nat
    decreases c,
{
    if c <= 0 {
        0
    } else {
        esum(off, s, c - 1, f) + f(off + c - 1, off + cyc_next(c - 1, s))
    }
}

/// How many sides of the quad over ring edge `p → q` walk `x → y`.
pub open spec fn bdirs(lo: int, hi: int, x: usize, y: usize) -> spec_fn(int, int) -> nat {
    |p: int, q: int| dirs(band_lo(lo, hi, p, q), x, y) + dirs(band_hi(lo, hi, p, q), x, y)
}

pub(crate) proof fn lemma_pair_count(a: [usize; 3], b: [usize; 3], x: usize, y: usize)
    ensures
        dir_count(seq![a, b], 2, x, y) == dirs(a, x, y) + dirs(b, x, y),
{
    let s = seq![a, b];
    assert(dir_count(s, 0, x, y) == 0);
    assert(dir_count(s, 1, x, y) == dirs(a, x, y));
}

pub(crate) proof fn lemma_band_count(lo: int, hi: int, off: int, s: int, c: int, x: usize, y: usize)
    requires
        0 <= c,
    ensures
        band(lo, hi, off, s, c).len() == 2 * c,
        dir_count(band(lo, hi, off, s, c), 2 * c, x, y) == esum(off, s, c, bdirs(lo, hi, x, y)),
    decreases c,
{
    if c > 0 {
        lemma_band_count(lo, hi, off, s, c - 1, x, y);
        let p = off + c - 1;
        let q = off + cyc_next(c - 1, s);
        let prev = band(lo, hi, off, s, c - 1);
        let quad = seq![band_lo(lo, hi, p, q), band_hi(lo, hi, p, q)];
        assert(band(lo, hi, off, s, c) == prev + quad);
        lemma_dir_count_concat(prev, quad, 2, x, y);
        lemma_pair_count(band_lo(lo, hi, p, q), band_hi(lo, hi, p, q), x, y);
    }
}

pub open spec fn ind(b: bool) -> nat {
    if b {
        1
    } else {
        0
    }
}

pub open spec fn pq_ind(a: int, b: int) -> spec_fn(int, int) -> nat {
    |p: int, q: int| ind(p == a && q == b)
}

pub open spec fn p_ind(a: int) -> spec_fn(int, int) -> nat {
    |p: int, q: int| ind(p == a)
}

pub open spec fn q_ind(a: int) -> spec_fn(int, int) -> nat {
    |p: int, q: int| ind(q == a)
}

pub open spec fn zero_fn() -> spec_fn(int, int) -> nat {
    |p: int, q: int| 0nat
}

pub open spec fn plus2(f: spec_fn(int, int) -> nat, g: spec_fn(int, int) -> nat) -> spec_fn(int, int) -> nat {
    |p: int, q: int| f(p, q) + g(p, q)
}

proof fn lemma_esum_zero(off: int, s: int, c: int)
    ensures
        esum(off, s, c, zero_fn()) == 0,
    decreases c,
{
    if c > 0 {
        lemma_esum_zero(off, s, c - 1);
    }
}

proof fn lemma_esum_ext(off: int, s: int, c: int, f: spec_fn(int, int) -> nat, g: spec_fn(int, int) -> nat)
    requires
        forall|i: int| 0 <= i < c ==> f(off + i, off + cyc_next(i, s)) == g(off + i, off + cyc_next(i, s)),
    ensures
        esum(off, s, c, f) == esum(off, s, c, g),
    decreases c,
{
    if c > 0 {
        lemma_esum_ext(off, s, c - 1, f, g);
        assert(f(off + (c - 1), off + cyc_next(c - 1, s)) == g(off + (c - 1), off + cyc_next(c - 1, s)));
    }
}

proof fn lemma_esum_add(
    off: int,
    s: int,
    c: int,
    f: spec_fn(int, int) -> nat,
    g: spec_fn(int, int) -> nat,
    h: spec_fn(int, int) -> nat,
)
    requires
        forall|p: int, q: int| #[trigger] h(p, q) == f(p, q) + g(p, q),
    ensures
        esum(off, s, c, h) == esum(off, s, c, f) + esum(off, s, c, g),
    decreases c,
{
    if c > 0 {
        lemma_esum_add(off, s, c - 1, f, g, h);
        assert(h(off + c - 1, off + cyc_next(c - 1, s)) == f(off + c - 1, off + cyc_next(c - 1, s)) + g(
            off + c - 1,
            off + cyc_next(c - 1, s),
        ));
    }
}

/// Edges starting at `a` and ending at `b`: the one with `p == a`, if `b` follows it.
proof fn lemma_esum_pq(off: int, s: int, c: int, a: int, b: int)
    requires
        0 <= c <= s,
    ensures
        esum(off, s, c, pq_ind(a, b)) == ind(
            off <= a < off + c && b == off + cyc_next(a - off, s),
        ),
    decreases c,
{
    if c > 0 {
        lemma_esum_pq(off, s, c - 1, a, b);
    }
}

proof fn lemma_esum_p(off: int, s: int, c: int, a: int)
    requires
        0 <= c <= s,
    ensures
        esum(off, s, c, p_ind(a)) == ind(off <= a < off + c),
    decreases c,
{
    if c > 0 {
        lemma_esum_p(off, s, c - 1, a);
    }
}

proof fn lemma_cyc_next_injective(i: int, j: int, s: int)
    requires
        0 <= i < s,
        0 <= j < s,
        cyc_next(i, s) == cyc_next(j, s),
    ensures
        i == j,
{
}

/// Edges ending at `a`: in a whole ring, exactly one when `a` is on it.
proof fn lemma_esum_q(off: int, s: int, c: int, a: int)
    requires
        1 <= s,
        0 <= c <= s,
    ensures
        esum(off, s, c, q_ind(a)) == ind(
            exists|i: int| 0 <= i < c && #[trigger] cyc_next(i, s) == a - off,
        ),
    decreases c,
{
    if c > 0 {
        lemma_esum_q(off, s, c - 1, a);
        if cyc_next(c - 1, s) == a - off {
            if exists|i: int| 0 <= i < c - 1 && #[trigger] cyc_next(i, s) == a - off {
                let i = choose|i: int| 0 <= i < c - 1 && #[trigger] cyc_next(i, s) == a - off;
                lemma_cyc_next_injective(i, c - 1, s);
            }
        } else {
            if exists|i: int| 0 <= i < c && #[trigger] cyc_next(i, s) == a - off {
                let i = choose|i: int| 0 <= i < c && #[trigger] cyc_next(i, s) == a - off;
                assert(i < c - 1);
            }
        }
    }
}

proof fn lemma_esum_q_full(off: int, s: int, a: int)
    requires
        1 <= s,
    ensures
        esum(off, s, s, q_ind(a)) == ind(off <= a < off + s),
{
    lemma_esum_q(off, s, s, a);
    if off <= a < off + s {
        let i = if a - off == 0 {
            s - 1
        } else {
            a - off - 1
        };
        assert(cyc_next(i, s) == a - off);
    }
}

/// Position after `a` on the ring of `s` positions starting at `off`.
pub open spec fn rn(off: int, s: int, a: int) -> int {
    off + cyc_next(a - off, s)
}

/// How many sides of a whole band walk `x → y`: the six kinds of side,
/// each found from one end of the edge.
pub open spec fn band_count(lo: int, hi: int, off: int, s: int, x: int, y: int) -> nat {
    ind(off <= x - lo < off + s && y == lo + rn(off, s, x - lo)) + ind(off <= y - hi < off + s && x == lo + rn(
        off,
        s,
        y - hi,
    )) + ind(off <= x - hi < off + s && y == lo + (x - hi)) + ind(off <= x - hi < off + s && y == lo + rn(
        off,
        s,
        x - hi,
    )) + ind(off <= x - lo < off + s && y == hi + (x - lo)) + ind(off <= y - hi < off + s && x == hi + rn(
        off,
        s,
        y - hi,
    ))
}

pub open spec fn six(
    f1: spec_fn(int, int) -> nat,
    f2: spec_fn(int, int) -> nat,
    f3: spec_fn(int, int) -> nat,
    f4: spec_fn(int, int) -> nat,
    f5: spec_fn(int, int) -> nat,
    f6: spec_fn(int, int) -> nat,
) -> spec_fn(int, int) -> nat {
    plus2(plus2(plus2(plus2(plus2(f1, f2), f3), f4), f5), f6)
}

proof fn lemma_esum_six(
    off: int,
    s: int,
    f1: spec_fn(int, int) -> nat,
    f2: spec_fn(int, int) -> nat,
    f3: spec_fn(int, int) -> nat,
    f4: spec_fn(int, int) -> nat,
    f5: spec_fn(int, int) -> nat,
    f6: spec_fn(int, int) -> nat,
)
    ensures
        esum(off, s, s, six(f1, f2, f3, f4, f5, f6)) == esum(off, s, s, f1) + esum(off, s, s, f2) + esum(
            off,
            s,
            s,
            f3,
        ) + esum(off, s, s, f4) + esum(off, s, s, f5) + esum(off, s, s, f6),
{
    let a = plus2(f1, f2);
    let b = plus2(a, f3);
    let c = plus2(b, f4);
    let d = plus2(c, f5);
    lemma_esum_add(off, s, s, f1, f2, a);
    lemma_esum_add(off, s, s, a, f3, b);
    lemma_esum_add(off, s, s, b, f4, c);
    lemma_esum_add(off, s, s, c, f5, d);
    lemma_esum_add(off, s, s, d, f6, six(f1, f2, f3, f4, f5, f6));
}

proof fn lemma_bdirs_point(lo: int, hi: int, off: int, s: int, x: usize, y: usize, p: int, q: int)
    requires
        0 <= lo,
        0 <= off,
        lo + off + s <= hi,
        hi + off + s <= usize::MAX,
        off <= p < off + s,
        off <= q < off + s,
    ensures
        bdirs(lo, hi, x, y)(p, q) == ind(x == lo + p && y == lo + q) + ind(x == lo + q && y == hi + p) + ind(
            x == hi + p && y == lo + p,
        ) + ind(x == hi + p && y == lo + q) + ind(x == lo + q && y == hi + q) + ind(x == hi + q && y == hi + p),
{
    let bl = band_lo(lo, hi, p, q);
    let bh = band_hi(lo, hi, p, q);
    assert(bl[0] == lo + p && bl[1] == lo + q && bl[2] == hi + p);
    assert(bh[0] == hi + p && bh[1] == lo + q && bh[2] == hi + q);
}

/// A whole band, as `band_count` says.
#[verifier::spinoff_prover]
#[verifier::rlimit(60)]
pub(crate) proof fn lemma_band_formula(lo: int, hi: int, off: int, s: int, x: usize, y: usize)
    requires
        2 <= s,
        0 <= lo,
        0 <= off,
        lo + off + s <= hi,
        hi + off + s <= usize::MAX,
    ensures
        dir_count(band(lo, hi, off, s, s), 2 * s, x, y) == band_count(lo, hi, off, s, x as int, y as int),
{
    let xi = x as int;
    let yi = y as int;
    lemma_band_count(lo, hi, off, s, s, x, y);
    let f1 = pq_ind(xi - lo, yi - lo);
    let f2 = pq_ind(yi - hi, xi - lo);
    let f3 = if yi - lo == xi - hi { p_ind(xi - hi) } else { zero_fn() };
    let f4 = pq_ind(xi - hi, yi - lo);
    let f5 = if yi - hi == xi - lo { q_ind(xi - lo) } else { zero_fn() };
    let f6 = pq_ind(yi - hi, xi - hi);
    let g = six(f1, f2, f3, f4, f5, f6);
    assert forall|i: int| 0 <= i < s implies bdirs(lo, hi, x, y)(off + i, off + cyc_next(i, s)) == g(
        off + i,
        off + cyc_next(i, s),
    ) by {
        lemma_bdirs_point(lo, hi, off, s, x, y, off + i, off + cyc_next(i, s));
    }
    lemma_esum_ext(off, s, s, bdirs(lo, hi, x, y), g);
    lemma_esum_six(off, s, f1, f2, f3, f4, f5, f6);
    lemma_esum_pq(off, s, s, xi - lo, yi - lo);
    lemma_esum_pq(off, s, s, yi - hi, xi - lo);
    lemma_esum_pq(off, s, s, xi - hi, yi - lo);
    lemma_esum_pq(off, s, s, yi - hi, xi - hi);
    if yi - lo == xi - hi {
        lemma_esum_p(off, s, s, xi - hi);
    } else {
        lemma_esum_zero(off, s, s);
    }
    if yi - hi == xi - lo {
        lemma_esum_q_full(off, s, xi - lo);
    } else {
        lemma_esum_zero(off, s, s);
    }
}

proof fn lemma_band_count_bound(lo: int, hi: int, off: int, s: int, x: int, y: int)
    requires
        2 <= s,
        0 <= off,
        lo + off + s <= hi,
    ensures
        band_count(lo, hi, off, s, x, y) <= 1,
        band_count(lo, hi, off, s, x, y) > 0 ==> (off <= x - lo < off + s || off <= x - hi < off + s),
        band_count(lo, hi, off, s, x, y) > 0 ==> (off <= y - lo < off + s || off <= y - hi < off + s),
        (off <= x - lo < off + s && off <= y - lo < off + s) ==> band_count(lo, hi, off, s, x, y) == ind(
            y == lo + rn(off, s, x - lo),
        ),
        (off <= x - hi < off + s && off <= y - hi < off + s) ==> band_count(lo, hi, off, s, x, y) == ind(
            x == hi + rn(off, s, y - hi),
        ),
        band_count(lo, hi, off, s, x, x) == 0,
{
    if off <= x - lo < off + s {
        assert(cyc_next(x - lo - off, s) != x - lo - off);
    }
    if off <= x - hi < off + s {
        assert(cyc_next(x - hi - off, s) != x - hi - off);
    }
    if off <= y - hi < off + s {
        assert(cyc_next(y - hi - off, s) != y - hi - off);
    }
}

/// `p → q` is an edge of one of the first `m` rings, in ring order.
pub open spec fn ring_edge_upto(sizes: Seq<usize>, m: int, p: int, q: int) -> bool {
    exists|r: int, i: int|
        0 <= r < m && 0 <= i < sizes[r] && p == #[trigger] ring_pos(sizes, r, i) && q == ring_pos(
            sizes,
            r,
            cyc_next(i, sizes[r] as int),
        )
}

/// Every ring has at least three vertices.
pub open spec fn rings_proper(sizes: Seq<usize>) -> bool {
    forall|r: int| 0 <= r < sizes.len() ==> #[trigger] sizes[r] >= 3
}

/// Directed edge counts of the walls of the first `m` rings, between the
/// bottom layer at `lo` and the top layer at `hi = lo + total`.
#[verifier::spinoff_prover]
#[verifier::rlimit(60)]
pub(crate) proof fn lemma_walls_count(lo: int, sizes: Seq<usize>, m: int, x: usize, y: usize)
    requires
        0 <= lo,
        0 <= m <= sizes.len(),
        rings_proper(sizes),
        lo + 2 * ring_total(sizes) <= usize::MAX,
    ensures
        ({
            let t = ring_total(sizes);
            let hi = lo + t;
            let w = walls(lo, hi, sizes, m);
            let c = dir_count(w, w.len() as int, x, y);
            let om = ring_offset(sizes, m);
            &&& w.len() == 2 * om
            &&& c <= 1
            &&& c > 0 ==> (0 <= x - lo < om || 0 <= x - hi < om)
            &&& c > 0 ==> (0 <= y - lo < om || 0 <= y - hi < om)
            &&& (lo <= x < hi && lo <= y < hi) ==> c == ind(ring_edge_upto(sizes, m, x - lo, y - lo))
            &&& (hi <= x < hi + t && hi <= y < hi + t) ==> c == ind(ring_edge_upto(sizes, m, y - hi, x - hi))
            &&& x == y ==> c == 0
        }),
    decreases m,
{
    let t = ring_total(sizes);
    let hi = lo + t;
    lemma_ring_offset_nonneg(sizes, m);
    if m == 0 {
        assert(walls(lo, hi, sizes, 0).len() == 0);
        assert(!ring_edge_upto(sizes, 0, x - lo, y - lo));
        assert(!ring_edge_upto(sizes, 0, y - hi, x - hi));
    } else {
        lemma_walls_count(lo, sizes, m - 1, x, y);
        let off = ring_offset(sizes, m - 1);
        let sz = sizes[m - 1] as int;
        let prev = walls(lo, hi, sizes, m - 1);
        let bd = band(lo, hi, off, sz, sz);
        assert(walls(lo, hi, sizes, m) == prev + bd);
        lemma_ring_offset_nonneg(sizes, m - 1);
        lemma_ring_offset_mono(sizes, m, sizes.len() as int);
        assert(sz >= 3);
        lemma_band_count(lo, hi, off, sz, sz, x, y);
        lemma_dir_count_concat(prev, bd, bd.len() as int, x, y);
        lemma_band_formula(lo, hi, off, sz, x, y);
        lemma_band_count_bound(lo, hi, off, sz, x as int, y as int);
        // Edges of ring m - 1 are those found from its own positions.
        if lo <= x < hi && lo <= y < hi {
            let a = x - lo;
            let b = y - lo;
            if ring_edge_upto(sizes, m, a, b) && !ring_edge_upto(sizes, m - 1, a, b) {
                let (r, i) = choose|r: int, i: int|
                    0 <= r < m && 0 <= i < sizes[r] && a == #[trigger] ring_pos(sizes, r, i) && b == ring_pos(
                        sizes,
                        r,
                        cyc_next(i, sizes[r] as int),
                    );
                assert(r == m - 1);
            }
            if off <= a < off + sz && b == off + cyc_next(a - off, sz) {
                assert(ring_pos(sizes, m - 1, a - off) == a);
                assert(ring_edge_upto(sizes, m, a, b));
            }
            if ring_edge_upto(sizes, m - 1, a, b) {
                let (r, i) = choose|r: int, i: int|
                    0 <= r < m - 1 && 0 <= i < sizes[r] && a == #[trigger] ring_pos(sizes, r, i) && b
                        == ring_pos(sizes, r, cyc_next(i, sizes[r] as int));
                lemma_ring_offset_mono(sizes, r + 1, m - 1);
            }
        }
        if hi <= x < hi + t && hi <= y < hi + t {
            let a = y - hi;
            let b = x - hi;
            if ring_edge_upto(sizes, m, a, b) && !ring_edge_upto(sizes, m - 1, a, b) {
                let (r, i) = choose|r: int, i: int|
                    0 <= r < m && 0 <= i < sizes[r] && a == #[trigger] ring_pos(sizes, r, i) && b == ring_pos(
                        sizes,
                        r,
                        cyc_next(i, sizes[r] as int),
                    );
                assert(r == m - 1);
            }
            if off <= a < off + sz && b == off + cyc_next(a - off, sz) {
                assert(ring_pos(sizes, m - 1, a - off) == a);
                assert(ring_edge_upto(sizes, m, a, b));
            }
            if ring_edge_upto(sizes, m - 1, a, b) {
                let (r, i) = choose|r: int, i: int|
                    0 <= r < m - 1 && 0 <= i < sizes[r] && a == #[trigger] ring_pos(sizes, r, i) && b
                        == ring_pos(sizes, r, cyc_next(i, sizes[r] as int));
                lemma_ring_offset_mono(sizes, r + 1, m - 1);
            }
        }
    }
}

// ── From edge counts to a manifold ──────────────────────────────────────────
/// No directed edge is walked twice and no side is a loop.
pub open spec fn sides_unique(tris: Seq<[usize; 3]>) -> bool {
    &&& forall|x: usize, y: usize| #[trigger] dir_count(tris, tris.len() as int, x, y) <= 1
    &&& forall|x: usize| #[trigger] dir_count(tris, tris.len() as int, x, x) == 0
}

/// A closed surface that walks no directed edge twice and has no loop side
/// is manifold: each of its edges lies on exactly two faces.
pub proof fn lemma_closed_unique_is_manifold(tris: Seq<[usize; 3]>)
    requires
        is_closed(tris),
        sides_unique(tris),
    ensures
        is_manifold(tris),
{
    let m = tris.len() as int;
    assert forall|i: int, k: int| 0 <= i < m && 0 <= k < 3 implies side_count(
        tris,
        m,
        #[trigger] edge_from(tris[i], k),
        edge_to(tris[i], k),
    ) == 2 by {
        let x = edge_from(tris[i], k);
        let y = edge_to(tris[i], k);
        lemma_dir_count_has_edge(tris, m, x, y);
        if x == y {
            assert(dir_count(tris, m, x, x) == 0);
        }
        assert(has_edge(tris, y, x));
        lemma_dir_count_has_edge(tris, m, y, x);
        assert(dir_count(tris, m, x, y) <= 1);
        assert(dir_count(tris, m, y, x) <= 1);
        lemma_side_count_dirs(tris, m, x, y);
    }
}

// ── Moved copies of a triangulation ─────────────────────────────────────────
proof fn lemma_lifted_count(tris: Seq<[usize; 3]>, n: int, d: int, m: int, x: usize, y: usize)
    requires
        0 <= d,
        indices_below(tris, n),
        d + n <= usize::MAX,
        0 <= m <= tris.len(),
    ensures
        dir_count(lifted(tris, d), m, x, y) == if x >= d && y >= d {
            dir_count(tris, m, (x - d) as usize, (y - d) as usize)
        } else {
            0
        },
    decreases m,
{
    if m > 0 {
        lemma_lifted_count(tris, n, d, m - 1, x, y);
        let t = tris[m - 1];
        assert(t[0] < n && t[1] < n && t[2] < n);
        let l = lifted(tris, d)[m - 1];
        assert(l[0] == t[0] + d && l[1] == t[1] + d && l[2] == t[2] + d);
    }
}

proof fn lemma_flipped_by_count(tris: Seq<[usize; 3]>, n: int, d: int, m: int, x: usize, y: usize)
    requires
        0 <= d,
        indices_below(tris, n),
        d + n <= usize::MAX,
        0 <= m <= tris.len(),
    ensures
        dir_count(flipped(tris, d), m, x, y) == if x >= d && y >= d {
            dir_count(tris, m, (y - d) as usize, (x - d) as usize)
        } else {
            0
        },
    decreases m,
{
    if m > 0 {
        lemma_flipped_by_count(tris, n, d, m - 1, x, y);
        let t = tris[m - 1];
        assert(t[0] < n && t[1] < n && t[2] < n);
        let f = flipped(tris, d)[m - 1];
        assert(f == flipped_tri(t, d));
        assert(f[0] == t[0] + d && f[1] == t[2] + d && f[2] == t[1] + d);
        if x >= d && y >= d {
            let p = (y - d) as usize;
            let q = (x - d) as usize;
            assert(walks(f, 0, x, y) == walks(t, 2, p, q));
            assert(walks(f, 1, x, y) == walks(t, 1, p, q));
            assert(walks(f, 2, x, y) == walks(t, 0, p, q));
        }
    }
}

/// A triangulation with no repeated corner has no loop side.
proof fn lemma_no_loops(tris: Seq<[usize; 3]>, m: int, x: usize)
    requires
        nondegenerate(tris),
        0 <= m <= tris.len(),
    ensures
        dir_count(tris, m, x, x) == 0,
    decreases m,
{
    if m > 0 {
        lemma_no_loops(tris, m - 1, x);
        let t = tris[m - 1];
        assert(t[0] != t[1] && t[1] != t[2] && t[0] != t[2]);
    }
}

// ── Fans ────────────────────────────────────────────────────────────────────
pub open spec fn fdirs(apex: int, x: usize, y: usize) -> spec_fn(int, int) -> nat {
    |p: int, q: int| dirs([idx(p), idx(q), idx(apex)], x, y)
}

proof fn lemma_fan_esum(start: int, n: int, apex: int, c: int, x: usize, y: usize)
    requires
        0 <= c,
    ensures
        fan(start, n, apex, c).len() == c,
        dir_count(fan(start, n, apex, c), c, x, y) == esum(start, n, c, fdirs(apex, x, y)),
    decreases c,
{
    if c > 0 {
        lemma_fan_esum(start, n, apex, c - 1, x, y);
        let prev = fan(start, n, apex, c - 1);
        let t = [idx(start + c - 1), idx(start + cyc_next(c - 1, n)), idx(apex)];
        assert(fan(start, n, apex, c) == prev + seq![t]);
        lemma_dir_count_concat(prev, seq![t], 1, x, y);
        assert(dir_count(seq![t], 0, x, y) == 0);
    }
}

/// How many sides of a whole fan walk `x → y`.
pub open spec fn fan_count(start: int, n: int, apex: int, x: int, y: int) -> nat {
    ind(0 <= x - start < n && y == start + cyc_next(x - start, n)) + ind(y == apex && 0 <= x - start < n) + ind(
        x == apex && 0 <= y - start < n,
    )
}

#[verifier::spinoff_prover]
#[verifier::rlimit(40)]
pub(crate) proof fn lemma_fan_formula(start: int, n: int, apex: int, x: usize, y: usize)
    requires
        1 <= n,
        0 <= start,
        start + n <= apex <= usize::MAX,
    ensures
        fan(start, n, apex, n).len() == n,
        dir_count(fan(start, n, apex, n), n, x, y) == fan_count(start, n, apex, x as int, y as int),
{
    let xi = x as int;
    let yi = y as int;
    lemma_fan_esum(start, n, apex, n, x, y);
    let f1 = pq_ind(xi, yi);
    let f2 = if yi == apex { q_ind(xi) } else { zero_fn() };
    let f3 = if xi == apex { p_ind(yi) } else { zero_fn() };
    let f12 = plus2(f1, f2);
    let g = plus2(f12, f3);
    assert forall|i: int| 0 <= i < n implies fdirs(apex, x, y)(start + i, start + cyc_next(i, n)) == g(
        start + i,
        start + cyc_next(i, n),
    ) by {
        let p = start + i;
        let q = start + cyc_next(i, n);
        let t = [idx(p), idx(q), idx(apex)];
        assert(t[0] == p && t[1] == q && t[2] == apex);
    }
    lemma_esum_ext(start, n, n, fdirs(apex, x, y), g);
    lemma_esum_add(start, n, n, f1, f2, f12);
    lemma_esum_add(start, n, n, f12, f3, g);
    lemma_esum_pq(start, n, n, xi, yi);
    if yi == apex {
        lemma_esum_q_full(start, n, xi);
    } else {
        lemma_esum_zero(start, n, n);
    }
    if xi == apex {
        lemma_esum_p(start, n, n, yi);
    } else {
        lemma_esum_zero(start, n, n);
    }
}

proof fn lemma_next_next(a: int, n: int)
    requires
        3 <= n,
        0 <= a < n,
    ensures
        cyc_next(cyc_next(a, n), n) != a,
        cyc_next(a, n) != a,
        0 <= cyc_next(a, n) < n,
{
}

// ── Domes ───────────────────────────────────────────────────────────────────
proof fn lemma_layer_step(top: int, n: int, l: int)
    requires
        1 <= l,
        0 <= n,
    ensures
        top + l * n == top + (l - 1) * n + n,
        top + (l - 1) * n >= top,
        l >= 2 ==> top + (l - 1) * n >= top + n,
{
    assert(l * n == (l - 1) * n + n) by (nonlinear_arith);
    assert((l - 1) * n >= 0) by (nonlinear_arith)
        requires
            l >= 1,
            n >= 0,
    ;
    if l >= 2 {
        assert((l - 1) * n >= n) by (nonlinear_arith)
            requires
                l >= 2,
                n >= 0,
        ;
    }
}

/// Edge counts of `levels` stacked dome bands over the eave ring at `top`.
#[verifier::spinoff_prover]
#[verifier::rlimit(60)]
pub(crate) proof fn lemma_dome_bands_count(top: int, n: int, levels: int, x: usize, y: usize)
    requires
        3 <= n,
        0 <= top,
        0 <= levels,
        top + (levels + 1) * n <= usize::MAX,
    ensures
        ({
            let d = dome_bands(top, n, levels);
            let c = dir_count(d, d.len() as int, x, y);
            let e = top + levels * n;
            &&& c <= 1
            &&& c > 0 ==> (top <= x < e + n && top <= y < e + n)
            &&& (c > 0 && top <= x < top + n && top <= y < top + n) ==> y == top + cyc_next(x - top, n)
            &&& (e <= x < e + n && e <= y < e + n) ==> c == ind(levels >= 1 && x == e + cyc_next(y - e, n))
            &&& x == y ==> c == 0
        }),
    decreases levels,
{
    if levels == 0 {
        assert(dome_bands(top, n, 0).len() == 0);
    } else {
        let l = levels;
        lemma_layer_step(top, n, l);
        assert(top + (l - 1 + 1) * n <= usize::MAX) by (nonlinear_arith)
            requires
                top + (l + 1) * n <= usize::MAX,
                n >= 0,
                l >= 1,
        ;
        assert((l + 1) * n == l * n + n) by (nonlinear_arith);
        lemma_dome_bands_count(top, n, l - 1, x, y);
        let lo = top + (l - 1) * n;
        let hi = top + l * n;
        let prev = dome_bands(top, n, l - 1);
        let bd = band(lo, hi, 0, n, n);
        assert(dome_bands(top, n, l) == prev + bd);
        lemma_band_count(lo, hi, 0, n, n, x, y);
        lemma_dir_count_concat(prev, bd, bd.len() as int, x, y);
        lemma_band_formula(lo, hi, 0, n, x, y);
        lemma_band_count_bound(lo, hi, 0, n, x as int, y as int);
        if lo <= x < hi {
            lemma_next_next(x - lo, n);
        }
        if lo <= y < hi {
            lemma_next_next(y - lo, n);
        }
    }
}

// ── Roofs ───────────────────────────────────────────────────────────────────
/// The footprint triangulation is a proper triangulation of the rings: it
/// closes them, repeats no corner, walks no directed edge twice and walks
/// no ring edge backwards.
pub open spec fn cap_is_triangulation(cap: Seq<usize>, sizes: Seq<usize>) -> bool {
    &&& cap_closes_rings(cap, sizes)
    &&& nondegenerate(triples(cap))
    &&& edges_unique(triples(cap))
    &&& forall|p: int, q: int| #[trigger] ring_edge(sizes, p, q) ==> !has_edge(triples(cap), idx(q), idx(p))
}

/// What a roof's edge counts must satisfy to close a manifold solid over
/// the eave layer at `top`: no edge twice, no loop, nothing below the eave,
/// and no eave ring edge walked backwards.
pub open spec fn roof_ok(r: Seq<[usize; 3]>, top: int, sizes: Seq<usize>, x: usize, y: usize) -> bool {
    let c = dir_count(r, r.len() as int, x, y);
    let t = ring_total(sizes);
    &&& c <= 1
    &&& c > 0 ==> x >= top && y >= top
    &&& (c > 0 && top <= x < top + t && top <= y < top + t) ==> !ring_edge(sizes, y - top, x - top)
    &&& x == y ==> c == 0
}

proof fn lemma_cap_indices(cap: Seq<usize>, t: int)
    requires
        forall|i: int| 0 <= i < cap.len() ==> #[trigger] cap[i] < t,
    ensures
        indices_below(triples(cap), t),
{
    assert forall|j: int, k: int| 0 <= j < triples(cap).len() && 0 <= k < 3 implies #[trigger] triples(cap)[j][k]
        < t by {
        lemma_cap_tri_bound(cap, t, j, k);
    }
}

/// A cap triangulation lifted onto the layer at `d` walks each edge once at
/// most, has no loop, and walks no ring edge of that layer backwards.
proof fn lemma_lifted_cap_ok(cap: Seq<usize>, sizes: Seq<usize>, d: int, x: usize, y: usize)
    requires
        0 <= d,
        d + ring_total(sizes) <= usize::MAX,
        forall|i: int| 0 <= i < cap.len() ==> #[trigger] cap[i] < ring_total(sizes),
        cap_is_triangulation(cap, sizes),
    ensures
        roof_ok(lifted(triples(cap), d), d, sizes, x, y),
        dir_count(lifted(triples(cap), d), triples(cap).len() as int, x, y) > 0 ==> x < d + ring_total(sizes)
            && y < d + ring_total(sizes),
{
    let t = ring_total(sizes);
    let tc = triples(cap);
    lemma_cap_indices(cap, t);
    lemma_lifted_count(tc, t, d, tc.len() as int, x, y);
    assert(lifted(tc, d).len() == tc.len());
    if x >= d && y >= d {
        let u = (x - d) as usize;
        let v = (y - d) as usize;
        assert(dir_count(tc, tc.len() as int, u, v) <= 1);
        lemma_has_edge_count(tc, u, v);
        lemma_dir_count_has_edge(tc, tc.len() as int, u, v);
        if dir_count(tc, tc.len() as int, u, v) > 0 {
            let (i, k) = choose|i: int, k: int|
                0 <= i < tc.len() && 0 <= k < 3 && #[trigger] edge_from(tc[i], k) == u && edge_to(tc[i], k) == v;
            lemma_cap_tri_bound(cap, t, i, k);
        }
        if x == y {
            lemma_no_loops(tc, tc.len() as int, u);
        }
        if ring_edge(sizes, y - d, x - d) {
            assert(!has_edge(tc, idx(x - d), idx(y - d)));
        }
    }
}

proof fn lemma_flat_roof_ok(top: int, sizes: Seq<usize>, cap: Seq<usize>, x: usize, y: usize)
    requires
        0 <= top,
        top + ring_total(sizes) <= usize::MAX,
        forall|i: int| 0 <= i < cap.len() ==> #[trigger] cap[i] < ring_total(sizes),
        cap_is_triangulation(cap, sizes),
    ensures
        roof_ok(lifted(triples(cap), top), top, sizes, x, y),
{
    lemma_lifted_cap_ok(cap, sizes, top, x, y);
}

#[verifier::spinoff_prover]
#[verifier::rlimit(60)]
proof fn lemma_dome_roof_ok(top: int, sizes: Seq<usize>, levels: int, x: usize, y: usize)
    requires
        sizes.len() == 1,
        sizes[0] >= 3,
        0 <= top,
        0 <= levels,
        top + (levels + 1) * sizes[0] + 1 <= usize::MAX,
    ensures
        roof_ok(dome_roof(top, sizes[0] as int, levels), top, sizes, x, y),
{
    let n = sizes[0] as int;
    let e = top + levels * n;
    assert(ring_total(sizes) == n) by {
        assert(ring_total(sizes) == crate::building::ring_offset(sizes, 1));
        assert(crate::building::ring_offset(sizes, 0) == 0);
    }
    assert(levels * n >= 0) by (nonlinear_arith)
        requires
            levels >= 0,
            n >= 0,
    ;
    assert((levels + 1) * n == levels * n + n) by (nonlinear_arith);
    if levels >= 1 {
        assert(levels * n >= n) by (nonlinear_arith)
            requires
                levels >= 1,
                n >= 0,
        ;
    }
    let d = dome_bands(top, n, levels);
    let f = fan(e, n, e + n, n);
    lemma_dome_bands_count(top, n, levels, x, y);
    lemma_fan_formula(e, n, e + n, x, y);
    lemma_dir_count_concat(d, f, n, x, y);
    assert(dome_roof(top, n, levels) == d + f);
    lemma_single_ring(sizes, y - top, x - top);
    if e <= x < e + n {
        lemma_next_next(x - e, n);
    }
    if e <= y < e + n {
        lemma_next_next(y - e, n);
    }
    if top <= x < top + n {
        lemma_next_next(x - top, n);
    }
    if top <= y < top + n {
        lemma_next_next(y - top, n);
    }
}

#[verifier::spinoff_prover]
#[verifier::rlimit(60)]
proof fn lemma_frustum_roof_ok(top: int, sizes: Seq<usize>, cap: Seq<usize>, x: usize, y: usize)
    requires
        sizes.len() == 1,
        sizes[0] >= 3,
        0 <= top,
        top + 2 * sizes[0] <= usize::MAX,
        forall|i: int| 0 <= i < cap.len() ==> #[trigger] cap[i] < ring_total(sizes),
        cap_is_triangulation(cap, sizes),
    ensures
        roof_ok(frustum_roof(top, sizes[0] as int, cap), top, sizes, x, y),
{
    let n = sizes[0] as int;
    assert(ring_total(sizes) == n) by {
        assert(ring_total(sizes) == crate::building::ring_offset(sizes, 1));
        assert(crate::building::ring_offset(sizes, 0) == 0);
    }
    let hi = top + n;
    let bd = band(top, hi, 0, n, n);
    let tc = triples(cap);
    let lf = lifted(tc, hi);
    assert(frustum_roof(top, n, cap) == bd + lf);
    lemma_band_count(top, hi, 0, n, n, x, y);
    lemma_band_formula(top, hi, 0, n, x, y);
    lemma_band_count_bound(top, hi, 0, n, x as int, y as int);
    lemma_lifted_cap_ok(cap, sizes, hi, x, y);
    assert(lf.len() == tc.len());
    lemma_dir_count_concat(bd, lf, lf.len() as int, x, y);
    lemma_single_ring(sizes, y - top, x - top);
    lemma_single_ring(sizes, y - hi, x - hi);
    if top <= x < hi {
        lemma_next_next(x - top, n);
    }
    if hi <= y < hi + n {
        lemma_next_next(y - hi, n);
    }
}

proof fn lemma_six_count(
    t0: [usize; 3],
    t1: [usize; 3],
    t2: [usize; 3],
    t3: [usize; 3],
    t4: [usize; 3],
    t5: [usize; 3],
    x: usize,
    y: usize,
)
    ensures
        dir_count(seq![t0, t1, t2, t3, t4, t5], 6, x, y) == dirs(t0, x, y) + dirs(t1, x, y) + dirs(t2, x, y)
            + dirs(t3, x, y) + dirs(t4, x, y) + dirs(t5, x, y),
{
    let r = seq![t0, t1, t2, t3, t4, t5];
    assert(dir_count(r, 0, x, y) == 0);
    assert(dir_count(r, 1, x, y) == dirs(t0, x, y));
    assert(dir_count(r, 2, x, y) == dir_count(r, 1, x, y) + dirs(t1, x, y));
    assert(dir_count(r, 3, x, y) == dir_count(r, 2, x, y) + dirs(t2, x, y));
    assert(dir_count(r, 4, x, y) == dir_count(r, 3, x, y) + dirs(t3, x, y));
    assert(dir_count(r, 5, x, y) == dir_count(r, 4, x, y) + dirs(t4, x, y));
}

#[verifier::spinoff_prover]
#[verifier::rlimit(60)]
proof fn lemma_ridge_roof_ok(top: int, sizes: Seq<usize>, rotated: bool, x: usize, y: usize)
    requires
        sizes.len() == 1,
        sizes[0] == 4,
        0 <= top,
        top + 6 <= usize::MAX,
    ensures
        roof_ok(ridge_roof(top, rotated, top + 4, top + 5), top, sizes, x, y),
{
    assert(ring_total(sizes) == 4) by {
        assert(ring_total(sizes) == crate::building::ring_offset(sizes, 1));
        assert(crate::building::ring_offset(sizes, 0) == 0);
    }
    let c0 = ridge_corner(top, rotated, 0);
    let c1 = ridge_corner(top, rotated, 1);
    let c2 = ridge_corner(top, rotated, 2);
    let c3 = ridge_corner(top, rotated, 3);
    let a = idx(top + 4);
    let b = idx(top + 5);
    assert(a == top + 4 && b == top + 5);
    if rotated {
        assert(c0 == top + 1 && c1 == top + 2 && c2 == top + 3 && c3 == top);
    } else {
        assert(c0 == top && c1 == top + 1 && c2 == top + 2 && c3 == top + 3);
    }
    let r = ridge_roof(top, rotated, top + 4, top + 5);
    assert(r == seq![[c0, c1, a], [c0, a, b], [c2, c3, b], [c2, b, a], [c1, c2, a], [c3, c0, b]]);
    lemma_six_count([c0, c1, a], [c0, a, b], [c2, c3, b], [c2, b, a], [c1, c2, a], [c3, c0, b], x, y);
    lemma_single_ring(sizes, y - top, x - top);
}

proof fn lemma_single_ring_total(sizes: Seq<usize>)
    requires
        sizes.len() == 1,
    ensures
        ring_total(sizes) == sizes[0],
{
    assert(ring_total(sizes) == crate::building::ring_offset(sizes, 1));
    assert(crate::building::ring_offset(sizes, 0) == 0);
}

proof fn lemma_roof_ok<V>(roof: RoofGeometry<V>, top: int, sizes: Seq<usize>, cap: Seq<usize>, x: usize, y: usize)
    requires
        0 <= top,
        top + ring_total(sizes) + roof_vertex_bound(roof, ring_total(sizes)) <= usize::MAX,
        rings_proper(sizes),
        roof_fits(roof, sizes.len() as int, ring_total(sizes)),
        forall|i: int| 0 <= i < cap.len() ==> #[trigger] cap[i] < ring_total(sizes),
        cap_is_triangulation(cap, sizes),
    ensures
        roof_ok(roof_triangles(roof, top, ring_total(sizes), cap), top, sizes, x, y),
{
    let t = ring_total(sizes);
    lemma_ring_offset_nonneg(sizes, sizes.len() as int);
    match roof {
        RoofGeometry::Flat => {
            lemma_flat_roof_ok(top, sizes, cap, x, y);
        },
        RoofGeometry::Pyramid { .. } => {
            lemma_single_ring_total(sizes);
            assert(sizes[0] >= 3);
            lemma_dome_roof_ok(top, sizes, 0, x, y);
        },
        RoofGeometry::Dome { rings, .. } => {
            lemma_single_ring_total(sizes);
            assert(sizes[0] >= 3);
            let l = rings.len() as int;
            let n = sizes[0] as int;
            assert((l + 1) * n == l * n + n) by (nonlinear_arith);
            assert(l * n == rings.len() * t);
            lemma_dome_roof_ok(top, sizes, l, x, y);
        },
        RoofGeometry::Ridge { rotated, .. } => {
            lemma_single_ring_total(sizes);
            lemma_ridge_roof_ok(top, sizes, rotated, x, y);
        },
        RoofGeometry::Frustum { .. } => {
            lemma_single_ring_total(sizes);
            assert(sizes[0] >= 3);
            lemma_frustum_roof_ok(top, sizes, cap, x, y);
        },
    }
}

/// The triangles of a building solid: walls, the bottom cap facing down,
/// and the roof.
pub open spec fn solid_triangles<V>(base: int, sizes: Seq<usize>, cap: Seq<usize>, roof: RoofGeometry<V>) -> Seq<
    [usize; 3],
> {
    walls(base, base + ring_total(sizes), sizes, sizes.len() as int) + flipped(triples(cap), base)
        + roof_triangles(roof, base + ring_total(sizes), ring_total(sizes), cap)
}

#[verifier::spinoff_prover]
#[verifier::rlimit(60)]
proof fn lemma_solid_count<V>(base: int, sizes: Seq<usize>, cap: Seq<usize>, roof: RoofGeometry<V>, x: usize, y: usize)
    requires
        0 <= base,
        base + 2 * ring_total(sizes) + roof_vertex_bound(roof, ring_total(sizes)) <= usize::MAX,
        forall|i: int| 0 <= i < cap.len() ==> #[trigger] cap[i] < ring_total(sizes),
        cap_is_triangulation(cap, sizes),
        rings_proper(sizes),
        roof_fits(roof, sizes.len() as int, ring_total(sizes)),
    ensures
        ({
            let s = solid_triangles(base, sizes, cap, roof);
            &&& dir_count(s, s.len() as int, x, y) <= 1
            &&& x == y ==> dir_count(s, s.len() as int, x, y) == 0
        }),
{
    let t = ring_total(sizes);
    let top = base + t;
    lemma_ring_offset_nonneg(sizes, sizes.len() as int);
    let w = walls(base, top, sizes, sizes.len() as int);
    let tc = triples(cap);
    let f = flipped(tc, base);
    let r = roof_triangles(roof, top, t, cap);
    let s = solid_triangles(base, sizes, cap, roof);
    assert(s == (w + f) + r);
    lemma_walls_count(base, sizes, sizes.len() as int, x, y);
    lemma_cap_indices(cap, t);
    lemma_flipped_by_count(tc, t, base, tc.len() as int, x, y);
    assert(f.len() == tc.len());
    lemma_roof_ok(roof, top, sizes, cap, x, y);
    lemma_dir_count_concat(w + f, r, r.len() as int, x, y);
    lemma_dir_count_concat(w, f, f.len() as int, x, y);
    assert(ring_edge_upto(sizes, sizes.len() as int, x - base, y - base) == ring_edge(sizes, x - base, y - base));
    assert(ring_edge_upto(sizes, sizes.len() as int, y - top, x - top) == ring_edge(sizes, y - top, x - top));
    if x >= base && y >= base {
        let u = (y - base) as usize;
        let v = (x - base) as usize;
        assert(dir_count(tc, tc.len() as int, u, v) <= 1);
        lemma_dir_count_has_edge(tc, tc.len() as int, u, v);
        lemma_has_edge_count(tc, u, v);
        if dir_count(tc, tc.len() as int, u, v) > 0 {
            let (i, k) = choose|i: int, k: int|
                0 <= i < tc.len() && 0 <= k < 3 && #[trigger] edge_from(tc[i], k) == u && edge_to(tc[i], k) == v;
            lemma_cap_tri_bound(cap, t, i, k);
            if ring_edge(sizes, x - base, y - base) {
                assert(!has_edge(tc, idx(y - base), idx(x - base)));
            }
        }
        if x == y {
            lemma_no_loops(tc, tc.len() as int, u);
        }
    }
}

/// A building solid is a manifold: after `add_building_walls` and a
/// successful `add_building_roof`, every edge of the triangles the two calls
/// added lies on exactly two of them, for every roof shape, provided the
/// rings have at least three vertices and the footprint triangulation is a
/// proper triangulation of them.
pub proof fn lemma_building_solid_is_manifold<V>(
    base: int,
    sizes: Seq<usize>,
    cap: Seq<usize>,
    roof: RoofGeometry<V>,
)
    requires
        0 <= base,
        base + 2 * ring_total(sizes) + roof_vertex_bound(roof, ring_total(sizes)) <= usize::MAX,
        forall|i: int| 0 <= i < cap.len() ==> #[trigger] cap[i] < ring_total(sizes),
        cap_is_triangulation(cap, sizes),
        rings_proper(sizes),
        roof_fits(roof, sizes.len() as int, ring_total(sizes)),
    ensures
        is_manifold(solid_triangles(base, sizes, cap, roof)),
{
    let s = solid_triangles(base, sizes, cap, roof);
    lemma_building_solid_is_closed(base, sizes, cap, roof);
    assert forall|x: usize, y: usize| #[trigger] dir_count(s, s.len() as int, x, y) <= 1 by {
        lemma_solid_count(base, sizes, cap, roof, x, y);
    }
    assert forall|x: usize| #[trigger] dir_count(s, s.len() as int, x, x) == 0 by {
        lemma_solid_count(base, sizes, cap, roof, x, x);
    }
    lemma_closed_unique_is_manifold(s);
}

} // verus!
