use crate::mesh::TerrainMesh;
use crate::text::{decimal, push_decimal};
use vstd::prelude::*;
use vstd::string::*;

verus! {

/// Exports meshes for 3D printing and preview.
pub struct MeshExporter;

/// `picked` holds the triangles of `all` at positions `0, f, 2f, …`, all in range.
pub open spec fn sampled(picked: Seq<[usize; 3]>, all: Seq<[usize; 3]>, f: int) -> bool {
    forall|q: int| 0 <= q < picked.len() ==> #[trigger] sample_ok(picked, all, f, q)
}

pub open spec fn sample_ok(picked: Seq<[usize; 3]>, all: Seq<[usize; 3]>, f: int, q: int) -> bool {
    q * f < all.len() && picked[q] == all[q * f]
}

proof fn lemma_sampled_push(picked: Seq<[usize; 3]>, all: Seq<[usize; 3]>, f: int, x: [usize; 3])
    requires
        sampled(picked, all, f),
        picked.len() * f < all.len(),
        x == all[picked.len() * f],
    ensures
        sampled(picked.push(x), all, f),
{
    assert forall|q: int| 0 <= q < picked.push(x).len() implies #[trigger] sample_ok(picked.push(x), all, f, q) by {
        if q < picked.len() {
            assert(sample_ok(picked, all, f, q));
            assert(picked.push(x)[q] == picked[q]);
        }
    }
}

/// The OBJ face line of a triangle: `f a b c`, with 1-based vertex numbers.
pub open spec fn obj_face_line(t: [usize; 3]) -> Seq<char> {
    "f "@ + decimal((t[0] + 1) as nat) + " "@ + decimal((t[1] + 1) as nat) + " "@ + decimal(
        (t[2] + 1) as nat,
    ) + "\n"@
}

/// The OBJ face lines of the first `n` triangles.
pub open spec fn obj_faces_text(tris: Seq<[usize; 3]>, n: int) -> Seq<char>
    decreases n,
{
    if n <= 0 {
        Seq::empty()
    } else {
        obj_faces_text(tris, n - 1) + obj_face_line(tris[n - 1])
    }
}

impl MeshExporter {
    /// The simplified mesh exported as a preview: the same vertices and every
    /// `reduction_factor`-th triangle (the first, then one in each following
    /// run of `reduction_factor`).
    pub fn preview_mesh<V: Copy>(mesh: &TerrainMesh<V>, reduction_factor: usize) -> (preview:
        TerrainMesh<V>)
        requires
            reduction_factor > 0,
        ensures
            preview.vertices@ == mesh.vertices@,
            preview.triangles@.len() * reduction_factor >= mesh.triangles@.len(),
            sampled(preview.triangles@, mesh.triangles@, reduction_factor as int),
    {
        let mut vertices: Vec<V> = Vec::new();
        let mut i: usize = 0;
        while i < mesh.vertices.len()
            invariant
                0 <= i <= mesh.vertices@.len(),
                vertices@ == mesh.vertices@.take(i as int),
            decreases mesh.vertices@.len() - i,
        {
            vertices.push(mesh.vertices[i]);
            proof {
                assert(vertices@ =~= mesh.vertices@.take(i + 1));
            }
            i = i + 1;
        }
        proof {
            assert(vertices@ =~= mesh.vertices@);
        }
        let f = reduction_factor;
        let len = mesh.triangles.len();
        let mut triangles: Vec<[usize; 3]> = Vec::new();
        let mut i: usize = 0;
        let mut k: usize = 0;
        if len > 0 {
            loop
                invariant_except_break
                    f > 0,
                    len == mesh.triangles@.len(),
                    i == k * f,
                    i < len,
                    triangles@.len() == k,
                    sampled(triangles@, mesh.triangles@, f as int),
                ensures
                    triangles@.len() * f >= len,
                    sampled(triangles@, mesh.triangles@, f as int),
                decreases len - i,
            {
                assert(k <= i) by (nonlinear_arith)
                    requires
                        i == k * f,
                        f > 0,
                ;
                let ghost before = triangles@;
                triangles.push(mesh.triangles[i]);
                proof {
                    lemma_sampled_push(before, mesh.triangles@, f as int, mesh.triangles@[i as int]);
                }
                k = k + 1;
                assert(k * f == i + f) by (nonlinear_arith)
                    requires
                        i == (k - 1) * f,
                ;
                if len - i <= f {
                    break;
                }
                i = i + f;
            }
        } else {
            assert(triangles@.len() * f == 0);
        }
        TerrainMesh { vertices, triangles }
    }

    /// The face section of an OBJ file: one `f a b c` line per triangle, with
    /// 1-based vertex numbers.
    pub fn obj_faces<V>(mesh: &TerrainMesh<V>) -> (text: String)
        requires
            forall|j: int, c: int|
                0 <= j < mesh.triangles@.len() && 0 <= c < 3 ==> #[trigger] mesh.triangles@[j][c]
                    < usize::MAX,
        ensures
            text@ == obj_faces_text(mesh.triangles@, mesh.triangles@.len() as int),
    {
        let mut out = String::new();
        let mut i: usize = 0;
        while i < mesh.triangles.len()
            invariant
                0 <= i <= mesh.triangles@.len(),
                forall|j: int, c: int|
                    0 <= j < mesh.triangles@.len() && 0 <= c < 3 ==> #[trigger] mesh.triangles@[j][c]
                        < usize::MAX,
                out@ == obj_faces_text(mesh.triangles@, i as int),
            decreases mesh.triangles@.len() - i,
        {
            let t = mesh.triangles[i];
            proof {
                assert(t[0] < usize::MAX && t[1] < usize::MAX && t[2] < usize::MAX) by {
                    assert(mesh.triangles@[i as int][0] < usize::MAX);
                    assert(mesh.triangles@[i as int][1] < usize::MAX);
                    assert(mesh.triangles@[i as int][2] < usize::MAX);
                }
            }
            let ghost start = out@;
            out.append("f ");
            push_decimal(&mut out, (t[0] + 1) as u64);
            out.append(" ");
            push_decimal(&mut out, (t[1] + 1) as u64);
            out.append(" ");
            push_decimal(&mut out, (t[2] + 1) as u64);
            out.append("\n");
            proof {
                assert(out@ =~= start + obj_face_line(mesh.triangles@[i as int]));
            }
            i = i + 1;
        }
        out
    }
}

} // verus!
