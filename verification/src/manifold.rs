use crate::mesh::{
    boundary_balanced, closed_with_base, edge_from, edge_to, flipped, flipped_tri, has_edge, indices_below,
    is_boundary_edge, is_manifold, joins, shifted, side_count, side_walls, sides_joining, wall_hi, wall_lo,
    wall_slot, walls_of,
};
use vstd::prelude::*;

verus! {

// ── Directed edge counts ────────────────────────────────────────────────────
/// 1 when side `k` of `t` walks `u → v`, 0 otherwise.
pub open spec fn walks(t: [usize; 3], k: int, u: usize, v: usize) -> nat {
    if edge_from(t, k) == u && edge_to(t, k) == v {
        1
    } else {
        0
    }
}

/// How many sides of `t` walk `u → v`.
pub open spec fn dirs(t: [usize; 3], u: usize, v: usize) -> nat {
    walks(t, 0, u, v) + walks(t, 1, u, v) + walks(t, 2, u, v)
}

/// How many sides of the first `m` triangles walk `u → v`.
pub open spec fn dir_count(tris: Seq<[usize; 3]>, m: int, u: usize, v: usize) -> nat
    decreases m,
{
    if m <= 0 {
        0
    } else {
        dir_count(tris, m - 1, u, v) + dirs(tris[m - 1], u, v)
    }
}

/// No directed edge is walked by two triangle sides: the surface is
/// consistently oriented and no face is repeated.
pub open spec fn edges_unique(tris: Seq<[usize; 3]>) -> bool {
    forall|u: usize, v: usize| #[trigger] dir_count(tris, tris.len() as int, u, v) <= 1
}

/// No triangle repeats a corner.
pub open spec fn nondegenerate(tris: Seq<[usize; 3]>) -> bool {
    forall|i: int|
        0 <= i < tris.len() ==> (#[trigger] tris[i])[0] != tris[i][1] && tris[i][1] != tris[i][2]
            && tris[i][0] != tris[i][2]
}

/// Every vertex starts at most one boundary edge and ends at most one: the
/// open borders are simple loops.
pub open spec fn simple_border(tris: Seq<[usize; 3]>) -> bool {
    &&& forall|x: usize, w1: usize, w2: usize|
        #[trigger] is_boundary_edge(tris, x, w1) && #[trigger] is_boundary_edge(tris, x, w2) ==> w1
            == w2
    &&& forall|x: usize, w1: usize, w2: usize|
        #[trigger] is_boundary_edge(tris, w1, x) && #[trigger] is_boundary_edge(tris, w2, x) ==> w1
            == w2
}

pub(crate) proof fn lemma_side_count_dirs(s: Seq<[usize; 3]>, m: int, u: usize, v: usize)
    requires
        u != v,
    ensures
        side_count(s, m, u, v) == dir_count(s, m, u, v) + dir_count(s, m, v, u),
    decreases m,
{
    if m > 0 {
        lemma_side_count_dirs(s, m - 1, u, v);
        let t = s[m - 1];
        assert(sides_joining(t, 3, u, v) == dirs(t, u, v) + dirs(t, v, u));
    }
}

pub(crate) proof fn lemma_dir_count_concat(a: Seq<[usize; 3]>, b: Seq<[usize; 3]>, m: int, u: usize, v: usize)
    requires
        0 <= m <= b.len(),
    ensures
        dir_count(a + b, a.len() + m, u, v) == dir_count(a, a.len() as int, u, v) + dir_count(b, m, u, v),
    decreases m,
{
    if m == 0 {
        lemma_dir_count_prefix(a, b, a.len() as int, u, v);
    } else {
        lemma_dir_count_concat(a, b, m - 1, u, v);
        assert((a + b)[a.len() + m - 1] == b[m - 1]);
    }
}

pub(crate) proof fn lemma_dir_count_prefix(a: Seq<[usize; 3]>, b: Seq<[usize; 3]>, m: int, u: usize, v: usize)
    requires
        0 <= m <= a.len(),
    ensures
        dir_count(a + b, m, u, v) == dir_count(a, m, u, v),
    decreases m,
{
    if m > 0 {
        lemma_dir_count_prefix(a, b, m - 1, u, v);
        assert((a + b)[m - 1] == a[m - 1]);
    }
}

/// A walked edge is counted; a counted edge is walked.
pub(crate) proof fn lemma_dir_count_has_edge(s: Seq<[usize; 3]>, m: int, u: usize, v: usize)
    requires
        0 <= m <= s.len(),
    ensures
        dir_count(s, m, u, v) > 0 <==> exists|i: int, k: int|
            0 <= i < m && 0 <= k < 3 && #[trigger] edge_from(s[i], k) == u && edge_to(s[i], k) == v,
    decreases m,
{
    if m > 0 {
        lemma_dir_count_has_edge(s, m - 1, u, v);
        let t = s[m - 1];
        if dirs(t, u, v) > 0 {
            let k = if walks(t, 0, u, v) > 0 {
                0int
            } else if walks(t, 1, u, v) > 0 {
                1int
            } else {
                2int
            };
            assert(edge_from(s[m - 1], k) == u && edge_to(s[m - 1], k) == v);
        }
        if exists|i: int, k: int|
            0 <= i < m && 0 <= k < 3 && #[trigger] edge_from(s[i], k) == u && edge_to(s[i], k) == v {
            let (i, k) = choose|i: int, k: int|
                0 <= i < m && 0 <= k < 3 && #[trigger] edge_from(s[i], k) == u && edge_to(s[i], k) == v;
            if i == m - 1 {
                assert(walks(t, k, u, v) == 1);
            } else {
                assert(edge_from(s[i], k) == u && edge_to(s[i], k) == v);
            }
        }
    }
}

pub(crate) proof fn lemma_has_edge_count(s: Seq<[usize; 3]>, u: usize, v: usize)
    ensures
        has_edge(s, u, v) <==> dir_count(s, s.len() as int, u, v) > 0,
{
    lemma_dir_count_has_edge(s, s.len() as int, u, v);
}

proof fn lemma_dir_count_out_of_range(s: Seq<[usize; 3]>, n: int, m: int, x: usize, y: usize)
    requires
        indices_below(s, n),
        0 <= m <= s.len(),
        x >= n || y >= n,
    ensures
        dir_count(s, m, x, y) == 0,
    decreases m,
{
    if m > 0 {
        lemma_dir_count_out_of_range(s, n, m - 1, x, y);
        let t = s[m - 1];
        assert(t[0] < n && t[1] < n && t[2] < n);
    }
}

proof fn lemma_flipped_dirs(t: [usize; 3], n: int, x: usize, y: usize)
    requires
        0 <= n,
        n + n <= usize::MAX,
        t[0] < n,
        t[1] < n,
        t[2] < n,
    ensures
        dirs(flipped_tri(t, n), x, y) == if x >= n && y >= n {
            dirs(t, (y - n) as usize, (x - n) as usize)
        } else {
            0
        },
{
    let f = flipped_tri(t, n);
    assert(f[0] == t[0] + n && f[1] == t[2] + n && f[2] == t[1] + n);
    if x >= n && y >= n {
        let p = (y - n) as usize;
        let q = (x - n) as usize;
        assert(walks(f, 0, x, y) == walks(t, 2, p, q));
        assert(walks(f, 1, x, y) == walks(t, 1, p, q));
        assert(walks(f, 2, x, y) == walks(t, 0, p, q));
    }
}

proof fn lemma_flipped_count(s: Seq<[usize; 3]>, n: int, m: int, x: usize, y: usize)
    requires
        0 <= n,
        n + n <= usize::MAX,
        indices_below(s, n),
        0 <= m <= s.len(),
    ensures
        dir_count(flipped(s, n), m, x, y) == if x >= n && y >= n {
            dir_count(s, m, (y - n) as usize, (x - n) as usize)
        } else {
            0
        },
    decreases m,
{
    if m > 0 {
        lemma_flipped_count(s, n, m - 1, x, y);
        let t = s[m - 1];
        assert(t[0] < n && t[1] < n && t[2] < n);
        assert(flipped(s, n)[m - 1] == flipped_tri(t, n));
        lemma_flipped_dirs(t, n, x, y);
    }
}

// ── Counting over the open sides of a surface ───────────────────────────────
/// Side `k` of triangle `i` is open: no triangle walks it backwards.
pub open spec fn open_side(tris: Seq<[usize; 3]>, i: int, k: int) -> bool {
    !has_edge(tris, edge_to(tris[i], k), edge_from(tris[i], k))
}

/// `f` of the edge of side `k` of triangle `i` when that side is open, else 0.
pub open spec fn slot_val(tris: Seq<[usize; 3]>, i: int, k: int, f: spec_fn(usize, usize) -> nat) -> nat {
    if open_side(tris, i, k) {
        f(edge_from(tris[i], k), edge_to(tris[i], k))
    } else {
        0
    }
}

/// Sum of `f` over the open sides of the first `m` triangles.
pub open spec fn slot_sum(tris: Seq<[usize; 3]>, m: int, f: spec_fn(usize, usize) -> nat) -> nat
    decreases m,
{
    if m <= 0 {
        0
    } else {
        slot_sum(tris, m - 1, f) + slot_val(tris, m - 1, 0, f) + slot_val(tris, m - 1, 1, f) + slot_val(
            tris,
            m - 1,
            2,
            f,
        )
    }
}

/// How many sides of the two wall triangles under `a → b` walk `x → y`.
pub open spec fn wall_dirs(n: int, x: usize, y: usize) -> spec_fn(usize, usize) -> nat {
    |a: usize, b: usize| dirs(wall_lo(a, b, n), x, y) + dirs(wall_hi(a, b, n), x, y)
}

proof fn lemma_slot_walls(tris: Seq<[usize; 3]>, n: int, i: int, k: int, x: usize, y: usize)
    ensures
        dir_count(wall_slot(tris, n, i, k), wall_slot(tris, n, i, k).len() as int, x, y) == slot_val(
            tris,
            i,
            k,
            wall_dirs(n, x, y),
        ),
{
    let w = wall_slot(tris, n, i, k);
    if !open_side(tris, i, k) {
        assert(dir_count(w, 0, x, y) == 0);
    } else {
        assert(w.len() == 2);
        assert(dir_count(w, 0, x, y) == 0);
        assert(dir_count(w, 1, x, y) == dirs(w[0], x, y));
    }
}

proof fn lemma_side_walls_count(tris: Seq<[usize; 3]>, n: int, m: int, x: usize, y: usize)
    requires
        0 <= m <= tris.len(),
    ensures
        dir_count(side_walls(tris, n, m), side_walls(tris, n, m).len() as int, x, y) == slot_sum(
            tris,
            m,
            wall_dirs(n, x, y),
        ),
    decreases m,
{
    if m > 0 {
        lemma_side_walls_count(tris, n, m - 1, x, y);
        let prev = side_walls(tris, n, m - 1);
        let s0 = wall_slot(tris, n, m - 1, 0);
        let s1 = wall_slot(tris, n, m - 1, 1);
        let s2 = wall_slot(tris, n, m - 1, 2);
        assert(walls_of(tris, n, m - 1) == s0 + s1 + s2);
        assert(side_walls(tris, n, m) == prev + (s0 + s1 + s2));
        lemma_dir_count_concat(prev, s0 + s1 + s2, (s0 + s1 + s2).len() as int, x, y);
        lemma_dir_count_concat(s0 + s1, s2, s2.len() as int, x, y);
        lemma_dir_count_concat(s0, s1, s1.len() as int, x, y);
        lemma_slot_walls(tris, n, m - 1, 0, x, y);
        lemma_slot_walls(tris, n, m - 1, 1, x, y);
        lemma_slot_walls(tris, n, m - 1, 2, x, y);
    }
}

proof fn lemma_slot_sum_ext(
    tris: Seq<[usize; 3]>,
    m: int,
    f: spec_fn(usize, usize) -> nat,
    g: spec_fn(usize, usize) -> nat,
)
    requires
        forall|i: int, k: int|
            0 <= i < m && 0 <= k < 3 && open_side(tris, i, k) ==> f(edge_from(tris[i], k), edge_to(tris[i], k))
                == g(edge_from(tris[i], k), edge_to(tris[i], k)),
    ensures
        slot_sum(tris, m, f) == slot_sum(tris, m, g),
    decreases m,
{
    if m > 0 {
        lemma_slot_sum_ext(tris, m - 1, f, g);
        assert(slot_val(tris, m - 1, 0, f) == slot_val(tris, m - 1, 0, g));
        assert(slot_val(tris, m - 1, 1, f) == slot_val(tris, m - 1, 1, g));
        assert(slot_val(tris, m - 1, 2, f) == slot_val(tris, m - 1, 2, g));
    }
}

proof fn lemma_slot_sum_add(
    tris: Seq<[usize; 3]>,
    m: int,
    f: spec_fn(usize, usize) -> nat,
    g: spec_fn(usize, usize) -> nat,
    h: spec_fn(usize, usize) -> nat,
)
    requires
        forall|a: usize, b: usize| #[trigger] h(a, b) == f(a, b) + g(a, b),
    ensures
        slot_sum(tris, m, h) == slot_sum(tris, m, f) + slot_sum(tris, m, g),
    decreases m,
{
    if m > 0 {
        lemma_slot_sum_add(tris, m - 1, f, g, h);
        let t = tris[m - 1];
        assert(h(edge_from(t, 0), edge_to(t, 0)) == f(edge_from(t, 0), edge_to(t, 0)) + g(edge_from(t, 0), edge_to(t, 0)));
        assert(h(edge_from(t, 1), edge_to(t, 1)) == f(edge_from(t, 1), edge_to(t, 1)) + g(edge_from(t, 1), edge_to(t, 1)));
        assert(h(edge_from(t, 2), edge_to(t, 2)) == f(edge_from(t, 2), edge_to(t, 2)) + g(edge_from(t, 2), edge_to(t, 2)));
    }
}

proof fn lemma_slot_sum_vanishes(tris: Seq<[usize; 3]>, m: int, f: spec_fn(usize, usize) -> nat)
    requires
        forall|i: int, k: int|
            0 <= i < m && 0 <= k < 3 && open_side(tris, i, k) ==> f(edge_from(tris[i], k), edge_to(tris[i], k))
                == 0,
    ensures
        slot_sum(tris, m, f) == 0,
    decreases m,
{
    if m > 0 {
        lemma_slot_sum_vanishes(tris, m - 1, f);
        assert(slot_val(tris, m - 1, 0, f) == 0);
        assert(slot_val(tris, m - 1, 1, f) == 0);
        assert(slot_val(tris, m - 1, 2, f) == 0);
    }
}

/// Indicator of the directed edge `p → q`.
pub open spec fn edge_ind(p: usize, q: usize) -> spec_fn(usize, usize) -> nat {
    |a: usize, b: usize| if a == p && b == q { 1nat } else { 0nat }
}

/// Indicator of edges that start at `x`.
pub open spec fn start_ind(x: usize) -> spec_fn(usize, usize) -> nat {
    |a: usize, b: usize| if a == x { 1nat } else { 0nat }
}

/// Indicator of edges that end at `x`.
pub open spec fn end_ind(x: usize) -> spec_fn(usize, usize) -> nat {
    |a: usize, b: usize| if b == x { 1nat } else { 0nat }
}

proof fn lemma_slot_sum_edge(tris: Seq<[usize; 3]>, m: int, p: usize, q: usize)
    requires
        0 <= m <= tris.len(),
    ensures
        slot_sum(tris, m, edge_ind(p, q)) == if has_edge(tris, q, p) {
            0
        } else {
            dir_count(tris, m, p, q)
        },
    decreases m,
{
    if m > 0 {
        lemma_slot_sum_edge(tris, m - 1, p, q);
        let t = tris[m - 1];
        assert(slot_val(tris, m - 1, 0, edge_ind(p, q)) == if has_edge(tris, q, p) { 0 } else { walks(t, 0, p, q) });
        assert(slot_val(tris, m - 1, 1, edge_ind(p, q)) == if has_edge(tris, q, p) { 0 } else { walks(t, 1, p, q) });
        assert(slot_val(tris, m - 1, 2, edge_ind(p, q)) == if has_edge(tris, q, p) { 0 } else { walks(t, 2, p, q) });
    }
}

pub(crate) proof fn lemma_side_has_edge(tris: Seq<[usize; 3]>, i: int, k: int)
    requires
        0 <= i < tris.len(),
        0 <= k < 3,
    ensures
        has_edge(tris, edge_from(tris[i], k), edge_to(tris[i], k)),
{
}

proof fn lemma_open_edge_count(tris: Seq<[usize; 3]>, p: usize, q: usize)
    requires
        edges_unique(tris),
    ensures
        slot_sum(tris, tris.len() as int, edge_ind(p, q)) == if is_boundary_edge(tris, p, q) {
            1nat
        } else {
            0nat
        },
{
    lemma_slot_sum_edge(tris, tris.len() as int, p, q);
    lemma_has_edge_count(tris, p, q);
    assert(dir_count(tris, tris.len() as int, p, q) <= 1);
}

#[verifier::spinoff_prover]
#[verifier::rlimit(40)]
proof fn lemma_open_start_count(tris: Seq<[usize; 3]>, x: usize)
    requires
        edges_unique(tris),
        simple_border(tris),
    ensures
        slot_sum(tris, tris.len() as int, start_ind(x)) == if crate::mesh::starts_boundary(tris, x) {
            1nat
        } else {
            0nat
        },
{
    let m = tris.len() as int;
    if crate::mesh::starts_boundary(tris, x) {
        let w = choose|w: usize| #[trigger] is_boundary_edge(tris, x, w);
        assert forall|i: int, k: int|
            0 <= i < m && 0 <= k < 3 && open_side(tris, i, k) implies start_ind(x)(
            edge_from(tris[i], k),
            edge_to(tris[i], k),
        ) == edge_ind(x, w)(edge_from(tris[i], k), edge_to(tris[i], k)) by {
            let a = edge_from(tris[i], k);
            let b = edge_to(tris[i], k);
            if a == x {
                lemma_side_has_edge(tris, i, k);
                assert(is_boundary_edge(tris, x, b));
            }
        }
        lemma_slot_sum_ext(tris, m, start_ind(x), edge_ind(x, w));
        lemma_open_edge_count(tris, x, w);
    } else {
        assert forall|i: int, k: int|
            0 <= i < m && 0 <= k < 3 && open_side(tris, i, k) implies start_ind(x)(
            edge_from(tris[i], k),
            edge_to(tris[i], k),
        ) == 0 by {
            let a = edge_from(tris[i], k);
            let b = edge_to(tris[i], k);
            if a == x {
                lemma_side_has_edge(tris, i, k);
                assert(is_boundary_edge(tris, x, b));
            }
        }
        lemma_slot_sum_vanishes(tris, m, start_ind(x));
    }
}

#[verifier::spinoff_prover]
#[verifier::rlimit(40)]
proof fn lemma_open_end_count(tris: Seq<[usize; 3]>, x: usize)
    requires
        edges_unique(tris),
        simple_border(tris),
    ensures
        slot_sum(tris, tris.len() as int, end_ind(x)) == if crate::mesh::ends_boundary(tris, x) {
            1nat
        } else {
            0nat
        },
{
    let m = tris.len() as int;
    if crate::mesh::ends_boundary(tris, x) {
        let u = choose|u: usize| #[trigger] is_boundary_edge(tris, u, x);
        assert forall|i: int, k: int|
            0 <= i < m && 0 <= k < 3 && open_side(tris, i, k) implies end_ind(x)(
            edge_from(tris[i], k),
            edge_to(tris[i], k),
        ) == edge_ind(u, x)(edge_from(tris[i], k), edge_to(tris[i], k)) by {
            let a = edge_from(tris[i], k);
            let b = edge_to(tris[i], k);
            if b == x {
                lemma_side_has_edge(tris, i, k);
                assert(is_boundary_edge(tris, a, x));
            }
        }
        lemma_slot_sum_ext(tris, m, end_ind(x), edge_ind(u, x));
        lemma_open_edge_count(tris, u, x);
    } else {
        assert forall|i: int, k: int|
            0 <= i < m && 0 <= k < 3 && open_side(tris, i, k) implies end_ind(x)(
            edge_from(tris[i], k),
            edge_to(tris[i], k),
        ) == 0 by {
            let a = edge_from(tris[i], k);
            let b = edge_to(tris[i], k);
            if b == x {
                lemma_side_has_edge(tris, i, k);
                assert(is_boundary_edge(tris, a, x));
            }
        }
        lemma_slot_sum_vanishes(tris, m, end_ind(x));
    }
}

pub open spec fn plus(f: spec_fn(usize, usize) -> nat, g: spec_fn(usize, usize) -> nat) -> spec_fn(usize, usize) -> nat {
    |a: usize, b: usize| f(a, b) + g(a, b)
}

pub open spec fn nothing() -> spec_fn(usize, usize) -> nat {
    |a: usize, b: usize| 0nat
}

/// Wall sides seen from the four kinds of edge: surface–surface,
/// base–base, surface–base and base–surface.
proof fn lemma_wall_dirs_cases(n: int, x: usize, y: usize, a: usize, b: usize)
    requires
        0 <= n,
        n + n <= usize::MAX,
        a < n,
        b < n,
    ensures
        x < n && y < n ==> wall_dirs(n, x, y)(a, b) == edge_ind(y, x)(a, b),
        x >= n && y >= n ==> wall_dirs(n, x, y)(a, b) == edge_ind((x - n) as usize, (y - n) as usize)(a, b),
        x < n && y >= n ==> wall_dirs(n, x, y)(a, b) == plus(
            if y - n == x { start_ind(x) } else { nothing() },
            edge_ind(x, (y - n) as usize),
        )(a, b),
        x >= n && y < n ==> wall_dirs(n, x, y)(a, b) == plus(
            edge_ind(y, (x - n) as usize),
            if x - n == y { end_ind(y) } else { nothing() },
        )(a, b),
{
    let lo = wall_lo(a, b, n);
    let hi = wall_hi(a, b, n);
    assert(lo[0] == a && lo[1] == a + n && lo[2] == b + n);
    assert(hi[0] == a && hi[1] == b + n && hi[2] == b);
}

/// Counts of the wall sides under the open borders of a surface.
#[verifier::spinoff_prover]
#[verifier::rlimit(40)]
proof fn lemma_wall_count(tris: Seq<[usize; 3]>, n: int, x: usize, y: usize)
    requires
        0 <= n,
        n + n <= usize::MAX,
        indices_below(tris, n),
        edges_unique(tris),
        simple_border(tris),
    ensures
        ({
            let w = side_walls(tris, n, tris.len() as int);
            let c = dir_count(w, w.len() as int, x, y);
            &&& x < n && y < n ==> c == if is_boundary_edge(tris, y, x) { 1nat } else { 0nat }
            &&& x >= n && y >= n ==> c == if is_boundary_edge(tris, (x - n) as usize, (y - n) as usize) {
                1nat
            } else {
                0nat
            }
            &&& x < n && y >= n ==> c == (if y - n == x && crate::mesh::starts_boundary(tris, x) {
                1nat
            } else {
                0nat
            }) + (if is_boundary_edge(tris, x, (y - n) as usize) { 1nat } else { 0nat })
            &&& x >= n && y < n ==> c == (if is_boundary_edge(tris, y, (x - n) as usize) {
                1nat
            } else {
                0nat
            }) + (if x - n == y && crate::mesh::ends_boundary(tris, y) { 1nat } else { 0nat })
        }),
{
    let m = tris.len() as int;
    lemma_side_walls_count(tris, n, m, x, y);
    let h = wall_dirs(n, x, y);
    if x < n && y < n {
        let g = edge_ind(y, x);
        assert forall|i: int, k: int|
            0 <= i < m && 0 <= k < 3 && open_side(tris, i, k) implies h(edge_from(tris[i], k), edge_to(tris[i], k))
            == g(edge_from(tris[i], k), edge_to(tris[i], k)) by {
            assert(tris[i][0] < n && tris[i][1] < n && tris[i][2] < n);
            lemma_wall_dirs_cases(n, x, y, edge_from(tris[i], k), edge_to(tris[i], k));
        }
        lemma_slot_sum_ext(tris, m, h, g);
        lemma_open_edge_count(tris, y, x);
    } else if x >= n && y >= n {
        let g = edge_ind((x - n) as usize, (y - n) as usize);
        assert forall|i: int, k: int|
            0 <= i < m && 0 <= k < 3 && open_side(tris, i, k) implies h(edge_from(tris[i], k), edge_to(tris[i], k))
            == g(edge_from(tris[i], k), edge_to(tris[i], k)) by {
            assert(tris[i][0] < n && tris[i][1] < n && tris[i][2] < n);
            lemma_wall_dirs_cases(n, x, y, edge_from(tris[i], k), edge_to(tris[i], k));
        }
        lemma_slot_sum_ext(tris, m, h, g);
        lemma_open_edge_count(tris, (x - n) as usize, (y - n) as usize);
    } else if x < n && y >= n {
        let f1 = if y - n == x { start_ind(x) } else { nothing() };
        let f2 = edge_ind(x, (y - n) as usize);
        let g = plus(f1, f2);
        assert forall|i: int, k: int|
            0 <= i < m && 0 <= k < 3 && open_side(tris, i, k) implies h(edge_from(tris[i], k), edge_to(tris[i], k))
            == g(edge_from(tris[i], k), edge_to(tris[i], k)) by {
            assert(tris[i][0] < n && tris[i][1] < n && tris[i][2] < n);
            lemma_wall_dirs_cases(n, x, y, edge_from(tris[i], k), edge_to(tris[i], k));
        }
        lemma_slot_sum_ext(tris, m, h, g);
        lemma_slot_sum_add(tris, m, f1, f2, g);
        lemma_open_edge_count(tris, x, (y - n) as usize);
        if y - n == x {
            lemma_open_start_count(tris, x);
        } else {
            lemma_slot_sum_vanishes(tris, m, f1);
        }
    } else {
        let f1 = edge_ind(y, (x - n) as usize);
        let f2 = if x - n == y { end_ind(y) } else { nothing() };
        let g = plus(f1, f2);
        assert forall|i: int, k: int|
            0 <= i < m && 0 <= k < 3 && open_side(tris, i, k) implies h(edge_from(tris[i], k), edge_to(tris[i], k))
            == g(edge_from(tris[i], k), edge_to(tris[i], k)) by {
            assert(tris[i][0] < n && tris[i][1] < n && tris[i][2] < n);
            lemma_wall_dirs_cases(n, x, y, edge_from(tris[i], k), edge_to(tris[i], k));
        }
        lemma_slot_sum_ext(tris, m, h, g);
        lemma_slot_sum_add(tris, m, f1, f2, g);
        lemma_open_edge_count(tris, y, (x - n) as usize);
        if x - n == y {
            lemma_open_end_count(tris, y);
        } else {
            lemma_slot_sum_vanishes(tris, m, f2);
        }
    }
}

pub open spec fn ind(b: bool) -> nat {
    if b {
        1
    } else {
        0
    }
}

/// How many sides of a closed surface walk `x → y`, from the open surface:
/// surface edges, base edges (the surface reversed), and the walls under
/// the open borders.
pub open spec fn closed_dirs(tris: Seq<[usize; 3]>, n: int, x: usize, y: usize) -> nat {
    let m = tris.len() as int;
    if x < n && y < n {
        dir_count(tris, m, x, y) + ind(is_boundary_edge(tris, y, x))
    } else if x >= n && y >= n {
        dir_count(tris, m, (y - n) as usize, (x - n) as usize) + ind(
            is_boundary_edge(tris, (x - n) as usize, (y - n) as usize),
        )
    } else if x < n {
        ind(y - n == x && crate::mesh::starts_boundary(tris, x)) + ind(
            is_boundary_edge(tris, x, (y - n) as usize),
        )
    } else {
        ind(is_boundary_edge(tris, y, (x - n) as usize)) + ind(
            x - n == y && crate::mesh::ends_boundary(tris, y),
        )
    }
}

#[verifier::spinoff_prover]
#[verifier::rlimit(40)]
proof fn lemma_closed_dirs(tris: Seq<[usize; 3]>, n: int, x: usize, y: usize)
    requires
        0 <= n,
        n + n <= usize::MAX,
        indices_below(tris, n),
        edges_unique(tris),
        simple_border(tris),
    ensures
        ({
            let r = closed_with_base(tris, n);
            dir_count(r, r.len() as int, x, y) == closed_dirs(tris, n, x, y)
        }),
{
    let m = tris.len() as int;
    let f = flipped(tris, n);
    let w = side_walls(tris, n, m);
    assert(closed_with_base(tris, n) == (tris + f) + w);
    lemma_dir_count_concat(tris + f, w, w.len() as int, x, y);
    lemma_dir_count_concat(tris, f, f.len() as int, x, y);
    lemma_flipped_count(tris, n, m, x, y);
    lemma_wall_count(tris, n, x, y);
    if x >= n || y >= n {
        lemma_dir_count_out_of_range(tris, n, m, x, y);
    }
}

proof fn lemma_unique_count(tris: Seq<[usize; 3]>, u: usize, v: usize)
    requires
        edges_unique(tris),
    ensures
        dir_count(tris, tris.len() as int, u, v) == ind(has_edge(tris, u, v)),
{
    lemma_has_edge_count(tris, u, v);
    assert(dir_count(tris, tris.len() as int, u, v) <= 1);
}

proof fn lemma_side_walls_len(tris: Seq<[usize; 3]>, n: int, m: int)
    requires
        0 <= m <= tris.len(),
    ensures
        side_walls(tris, n, m).len() <= 6 * m,
    decreases m,
{
    if m > 0 {
        lemma_side_walls_len(tris, n, m - 1);
        assert(walls_of(tris, n, m - 1).len() <= 6);
    }
}

/// Sides of a closed surface joining `x` and `y`, in both directions.
pub open spec fn pair_total(tris: Seq<[usize; 3]>, n: int, x: usize, y: usize) -> nat {
    closed_dirs(tris, n, x, y) + closed_dirs(tris, n, y, x)
}

proof fn lemma_surface_pair(tris: Seq<[usize; 3]>, n: int, x: usize, y: usize)
    requires
        edges_unique(tris),
        x < n,
        y < n,
        has_edge(tris, x, y),
    ensures
        pair_total(tris, n, x, y) == 2,
{
    lemma_unique_count(tris, x, y);
    lemma_unique_count(tris, y, x);
}

proof fn lemma_base_pair(tris: Seq<[usize; 3]>, n: int, p: usize, q: usize)
    requires
        edges_unique(tris),
        p < n,
        q < n,
        n + n <= usize::MAX,
        has_edge(tris, p, q),
    ensures
        pair_total(tris, n, (q + n) as usize, (p + n) as usize) == 2,
{
    lemma_unique_count(tris, p, q);
    lemma_unique_count(tris, q, p);
    let x = (q + n) as usize;
    let y = (p + n) as usize;
    assert(x - n == q && y - n == p);
}

#[verifier::spinoff_prover]
#[verifier::rlimit(40)]
proof fn lemma_wall_pairs(tris: Seq<[usize; 3]>, n: int, p: usize, q: usize)
    requires
        edges_unique(tris),
        boundary_balanced(tris),
        p < n,
        q < n,
        p != q,
        n + n <= usize::MAX,
        is_boundary_edge(tris, p, q),
    ensures
        pair_total(tris, n, p, (p + n) as usize) == 2,
        pair_total(tris, n, (p + n) as usize, (q + n) as usize) == 2,
        pair_total(tris, n, (q + n) as usize, p) == 2,
        pair_total(tris, n, (q + n) as usize, q) == 2,
        pair_total(tris, n, q, p) == 2,
{
    assert(crate::mesh::starts_boundary(tris, p));
    assert(crate::mesh::ends_boundary(tris, q));
    assert(crate::mesh::ends_boundary(tris, p));
    assert(crate::mesh::starts_boundary(tris, q));
    lemma_unique_count(tris, p, q);
    lemma_unique_count(tris, q, p);
    assert(!is_boundary_edge(tris, p, p));
    assert(!is_boundary_edge(tris, q, q));
    assert(!is_boundary_edge(tris, q, p));
    let pn = (p + n) as usize;
    let qn = (q + n) as usize;
    assert(pn - n == p && qn - n == q);
}

/// The sides of the surface, the base and the walls all join vertices
/// that `pair_total` counts twice.
#[verifier::spinoff_prover]
#[verifier::rlimit(40)]
proof fn lemma_closed_side_pair(tris: Seq<[usize; 3]>, n: int, j: int, k: int)
    requires
        0 <= n,
        n + n <= usize::MAX,
        indices_below(tris, n),
        nondegenerate(tris),
        edges_unique(tris),
        boundary_balanced(tris),
        0 <= j < closed_with_base(tris, n).len(),
        0 <= k < 3,
    ensures
        ({
            let t = closed_with_base(tris, n)[j];
            &&& edge_from(t, k) != edge_to(t, k)
            &&& pair_total(tris, n, edge_from(t, k), edge_to(t, k)) == 2
        }),
{
    let m = tris.len() as int;
    let f = flipped(tris, n);
    let w = side_walls(tris, n, m);
    let r = closed_with_base(tris, n);
    assert(r == (tris + f) + w);
    let x = edge_from(r[j], k);
    let y = edge_to(r[j], k);
    if j < m {
        assert(r[j] == tris[j]);
        assert(tris[j][0] < n && tris[j][1] < n && tris[j][2] < n);
        lemma_side_has_edge(tris, j, k);
        lemma_surface_pair(tris, n, x, y);
    } else if j < m + m {
        let jf = j - m;
        assert(r[j] == f[jf]);
        assert(f[jf] == flipped_tri(tris[jf], n));
        assert(tris[jf][0] < n && tris[jf][1] < n && tris[jf][2] < n);
        let kt = if k == 0 {
            2int
        } else if k == 1 {
            1int
        } else {
            0int
        };
        let p = edge_from(tris[jf], kt);
        let q = edge_to(tris[jf], kt);
        assert(x == q + n && y == p + n);
        lemma_side_has_edge(tris, jf, kt);
        lemma_base_pair(tris, n, p, q);
    } else {
        let jw = j - m - m;
        assert(r[j] == w[jw]);
        crate::mesh::lemma_walls_origin(tris, n, m, jw);
        let (i, kk) = choose|i: int, kk: int|
            #![trigger edge_from(tris[i], kk)]
            0 <= i < m && 0 <= kk < 3 && !has_edge(tris, edge_to(tris[i], kk), edge_from(tris[i], kk))
                && (w[jw] == wall_lo(edge_from(tris[i], kk), edge_to(tris[i], kk), n) || w[jw]
                == wall_hi(edge_from(tris[i], kk), edge_to(tris[i], kk), n));
        let p = edge_from(tris[i], kk);
        let q = edge_to(tris[i], kk);
        assert(tris[i][0] < n && tris[i][1] < n && tris[i][2] < n);
        lemma_side_has_edge(tris, i, kk);
        lemma_wall_pairs(tris, n, p, q);
        let lo = wall_lo(p, q, n);
        let hi = wall_hi(p, q, n);
        assert(lo[0] == p && lo[1] == p + n && lo[2] == q + n);
        assert(hi[0] == p && hi[1] == q + n && hi[2] == q);
    }
}

/// Closing a consistently oriented surface whose open borders are simple
/// loops yields a manifold solid: after `close_mesh_with_base`, every edge
/// of the mesh is shared by exactly two triangles, which is what
/// `validate_manifold` checks.
#[verifier::spinoff_prover]
#[verifier::rlimit(40)]
pub proof fn lemma_closed_with_base_is_manifold(tris: Seq<[usize; 3]>, n: int)
    requires
        0 <= n,
        n + n <= usize::MAX,
        indices_below(tris, n),
        nondegenerate(tris),
        edges_unique(tris),
        simple_border(tris),
        boundary_balanced(tris),
    ensures
        is_manifold(closed_with_base(tris, n)),
        closed_with_base(tris, n).len() <= 8 * tris.len(),
{
    let r = closed_with_base(tris, n);
    lemma_side_walls_len(tris, n, tris.len() as int);
    assert forall|j: int, k: int| 0 <= j < r.len() && 0 <= k < 3 implies side_count(
        r,
        r.len() as int,
        #[trigger] edge_from(r[j], k),
        edge_to(r[j], k),
    ) == 2 by {
        let x = edge_from(r[j], k);
        let y = edge_to(r[j], k);
        lemma_closed_side_pair(tris, n, j, k);
        lemma_side_count_dirs(r, r.len() as int, x, y);
        lemma_closed_dirs(tris, n, x, y);
        lemma_closed_dirs(tris, n, y, x);
    }
}

} // verus!
