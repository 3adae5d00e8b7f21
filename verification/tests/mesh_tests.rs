use geoprint3d_backend::mesh::{close_mesh_with_base, triangles_from_indices, validate_manifold, TerrainMesh};

fn square() -> TerrainMesh<[f32; 3]> {
    TerrainMesh {
        vertices: vec![[0.0, 0.0, 1.0], [1.0, 0.0, 2.0], [1.0, 1.0, 3.0], [0.0, 1.0, 4.0]],
        triangles: vec![[0, 1, 2], [0, 2, 3]],
    }
}

#[test]
fn base_closure_adds_bottom_copy_and_walls() {
    let mut mesh = square();
    let bottom: Vec<[f32; 3]> = mesh.vertices.iter().map(|v| [v[0], v[1], -1.0]).collect();
    close_mesh_with_base(&mut mesh, bottom);
    assert_eq!(mesh.vertices.len(), 8);
    assert_eq!(mesh.vertices[5], [1.0, 0.0, -1.0]);
    let expected: Vec<[usize; 3]> = vec![
        [0, 1, 2],
        [0, 2, 3],
        [4, 6, 5],
        [4, 7, 6],
        [0, 4, 5],
        [0, 5, 1],
        [1, 5, 6],
        [1, 6, 2],
        [2, 6, 7],
        [2, 7, 3],
        [3, 7, 4],
        [3, 4, 0],
    ];
    assert_eq!(mesh.triangles, expected);
}

#[test]
fn closed_square_is_manifold() {
    let mut mesh = square();
    let bottom: Vec<[f32; 3]> = mesh.vertices.iter().map(|v| [v[0], v[1], 0.0]).collect();
    close_mesh_with_base(&mut mesh, bottom);
    assert!(validate_manifold(&mesh));
}

#[test]
fn open_surface_is_not_manifold() {
    let mesh = square();
    assert!(!validate_manifold(&mesh));
}

#[test]
fn single_triangle_closure_is_a_prism() {
    let mut mesh: TerrainMesh<u32> = TerrainMesh { vertices: vec![0, 1, 2], triangles: vec![[0, 1, 2]] };
    close_mesh_with_base(&mut mesh, vec![10, 11, 12]);
    assert_eq!(mesh.vertices, vec![0, 1, 2, 10, 11, 12]);
    assert_eq!(mesh.triangles.len(), 1 + 1 + 6);
    assert!(validate_manifold(&mesh));
}

#[test]
fn edge_shared_three_times_is_not_manifold() {
    let mesh: TerrainMesh<u32> = TerrainMesh {
        vertices: vec![0, 1, 2, 3, 4],
        triangles: vec![[0, 1, 2], [1, 0, 3], [0, 1, 4]],
    };
    assert!(!validate_manifold(&mesh));
}

#[test]
fn empty_mesh_is_manifold_and_closes_to_nothing() {
    let mut mesh: TerrainMesh<u32> = TerrainMesh { vertices: vec![], triangles: vec![] };
    assert!(validate_manifold(&mesh));
    close_mesh_with_base(&mut mesh, vec![]);
    assert!(mesh.vertices.is_empty());
    assert!(mesh.triangles.is_empty());
}

#[test]
fn flat_indices_group_into_triangles() {
    let tris = triangles_from_indices(&vec![0, 1, 2, 2, 1, 3]);
    assert_eq!(tris, vec![[0, 1, 2], [2, 1, 3]]);
    assert!(triangles_from_indices(&vec![]).is_empty());
}

#[test]
fn bow_tie_closure_is_closed_but_not_manifold() {
    // Two triangles that meet only at vertex 0: its border is not a simple loop.
    let mut mesh: TerrainMesh<u32> = TerrainMesh { vertices: vec![0, 1, 2, 3, 4], triangles: vec![[0, 1, 2], [0, 3, 4]] };
    close_mesh_with_base(&mut mesh, vec![5, 6, 7, 8, 9]);
    assert_eq!(mesh.triangles.len(), 2 + 2 + 12);
    assert!(!validate_manifold(&mesh));
}
