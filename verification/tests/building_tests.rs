use geoprint3d_backend::building::{add_building_roof, add_building_walls, RoofGeometry, SolidError};
use geoprint3d_backend::mesh::{validate_manifold, TerrainMesh};

fn ring(z: f32) -> Vec<[f32; 3]> {
    vec![[0.0, 0.0, z], [4.0, 0.0, z], [4.0, 2.0, z], [0.0, 2.0, z]]
}

fn walled_box() -> (TerrainMesh<[f32; 3]>, geoprint3d_backend::building::SolidLayers) {
    let mut mesh = TerrainMesh { vertices: Vec::new(), triangles: Vec::new() };
    let layers = add_building_walls(&mut mesh, ring(0.0), ring(3.0), &vec![4]);
    (mesh, layers)
}

const CAP: [usize; 6] = [0, 1, 2, 0, 2, 3];

#[test]
fn walls_join_each_ring_edge_to_the_eave() {
    let (mesh, layers) = walled_box();
    assert_eq!(layers.base_index, 0);
    assert_eq!(layers.top_index, 4);
    assert_eq!(mesh.vertices.len(), 8);
    assert_eq!(
        mesh.triangles,
        vec![
            [0, 1, 4],
            [4, 1, 5],
            [1, 2, 5],
            [5, 2, 6],
            [2, 3, 6],
            [6, 3, 7],
            [3, 0, 7],
            [7, 0, 4],
        ]
    );
}

#[test]
fn walls_follow_holes_after_the_outer_ring() {
    let mut mesh: TerrainMesh<u32> = TerrainMesh { vertices: vec![99], triangles: Vec::new() };
    let layers = add_building_walls(&mut mesh, vec![0, 1, 2, 3, 4, 5, 6], vec![0, 1, 2, 3, 4, 5, 6], &vec![4, 3]);
    assert_eq!(layers.base_index, 1);
    assert_eq!(layers.top_index, 8);
    assert_eq!(mesh.vertices.len(), 15);
    assert_eq!(mesh.triangles.len(), 2 * 7);
    // first edge of the hole: ring offset 4, wrapping back from its last vertex.
    assert_eq!(mesh.triangles[8], [5, 6, 12]);
    assert_eq!(mesh.triangles[12], [7, 5, 14]);
    assert_eq!(mesh.triangles[13], [14, 5, 12]);
}

#[test]
fn flat_roof_closes_the_box() {
    let (mut mesh, layers) = walled_box();
    let r = add_building_roof(&mut mesh, &layers, &vec![4], &CAP.to_vec(), RoofGeometry::Flat);
    assert_eq!(r, Ok(()));
    assert_eq!(mesh.triangles[8], [0, 2, 1]);
    assert_eq!(mesh.triangles[9], [0, 3, 2]);
    assert_eq!(mesh.triangles[10], [4, 5, 6]);
    assert_eq!(mesh.triangles[11], [4, 6, 7]);
    assert_eq!(mesh.triangles.len(), 12);
    assert!(validate_manifold(&mesh));
}

#[test]
fn pyramid_roof_fans_to_the_apex() {
    let (mut mesh, layers) = walled_box();
    let r = add_building_roof(&mut mesh, &layers, &vec![4], &CAP.to_vec(), RoofGeometry::Pyramid { apex: [2.0, 1.0, 5.0] });
    assert_eq!(r, Ok(()));
    assert_eq!(mesh.vertices.len(), 9);
    assert_eq!(mesh.vertices[8], [2.0, 1.0, 5.0]);
    assert_eq!(&mesh.triangles[10..], &[[4, 5, 8], [5, 6, 8], [6, 7, 8], [7, 4, 8]]);
    assert!(validate_manifold(&mesh));
}

#[test]
fn ridge_roof_has_two_slopes_and_two_gables() {
    let (mut mesh, layers) = walled_box();
    let roof = RoofGeometry::Ridge { rotated: false, ridge_a: [4.0, 1.0, 5.0], ridge_b: [0.0, 1.0, 5.0] };
    assert_eq!(add_building_roof(&mut mesh, &layers, &vec![4], &CAP.to_vec(), roof), Ok(()));
    assert_eq!(mesh.vertices.len(), 10);
    assert_eq!(
        &mesh.triangles[10..],
        &[[4, 5, 8], [4, 8, 9], [6, 7, 9], [6, 9, 8], [5, 6, 8], [7, 4, 9]]
    );
    assert!(validate_manifold(&mesh));
}

#[test]
fn rotated_ridge_relabels_the_corners() {
    let (mut mesh, layers) = walled_box();
    let roof = RoofGeometry::Ridge { rotated: true, ridge_a: [2.0, 2.0, 5.0], ridge_b: [2.0, 0.0, 5.0] };
    assert_eq!(add_building_roof(&mut mesh, &layers, &vec![4], &CAP.to_vec(), roof), Ok(()));
    assert_eq!(
        &mesh.triangles[10..],
        &[[5, 6, 8], [5, 8, 9], [7, 4, 9], [7, 9, 8], [6, 7, 8], [4, 5, 9]]
    );
    assert!(validate_manifold(&mesh));
}

#[test]
fn dome_roof_stacks_rings_then_closes() {
    let (mut mesh, layers) = walled_box();
    let roof = RoofGeometry::Dome { rings: vec![ring(4.0), ring(4.5)], apex: [2.0, 1.0, 5.0] };
    assert_eq!(add_building_roof(&mut mesh, &layers, &vec![4], &CAP.to_vec(), roof), Ok(()));
    assert_eq!(mesh.vertices.len(), 8 + 8 + 1);
    // first band: eave ring (4..8) up to the first intermediate ring (8..12)
    assert_eq!(mesh.triangles[10], [4, 5, 8]);
    assert_eq!(mesh.triangles[11], [8, 5, 9]);
    // apex fan from the last ring (12..16) to vertex 16
    assert_eq!(mesh.triangles[mesh.triangles.len() - 1], [15, 12, 16]);
    assert_eq!(mesh.triangles.len(), 10 + 8 + 8 + 4);
    assert!(validate_manifold(&mesh));
}

#[test]
fn frustum_roof_rises_to_an_inset_cap() {
    let (mut mesh, layers) = walled_box();
    let roof = RoofGeometry::Frustum { inset: ring(5.0) };
    assert_eq!(add_building_roof(&mut mesh, &layers, &vec![4], &CAP.to_vec(), roof), Ok(()));
    assert_eq!(mesh.vertices.len(), 12);
    assert_eq!(mesh.triangles[10], [4, 5, 8]);
    assert_eq!(mesh.triangles[11], [8, 5, 9]);
    assert_eq!(mesh.triangles[18], [8, 9, 10]);
    assert_eq!(mesh.triangles[19], [8, 10, 11]);
    assert_eq!(mesh.triangles.len(), 20);
    assert!(validate_manifold(&mesh));
}

#[test]
fn courtyard_solid_with_flat_roof_is_closed() {
    // Outer square 0..4 and an inner square hole 4..8, bridged by a hand-made cap.
    let mut mesh: TerrainMesh<u32> = TerrainMesh { vertices: Vec::new(), triangles: Vec::new() };
    let pts: Vec<u32> = (0..8).collect();
    let layers = add_building_walls(&mut mesh, pts.clone(), pts, &vec![4, 4]);
    // The hole's ring order runs against the outline, as a courtyard's does.
    let cap = vec![0, 1, 6, 0, 6, 7, 1, 2, 5, 1, 5, 6, 2, 3, 4, 2, 4, 5, 3, 0, 7, 3, 7, 4];
    let result = add_building_roof(&mut mesh, &layers, &vec![4, 4], &cap, RoofGeometry::Flat);
    assert_eq!(result, Ok(()));
    assert_eq!(mesh.triangles.len(), 16 + 8 + 8);
    assert!(validate_manifold(&mesh));
}

#[test]
fn empty_triangulation_is_refused_and_mesh_kept() {
    let (mut mesh, layers) = walled_box();
    let before = mesh.triangles.clone();
    let r = add_building_roof(&mut mesh, &layers, &vec![4], &Vec::new(), RoofGeometry::Pyramid { apex: [0.0, 0.0, 9.0] });
    assert_eq!(r, Err(SolidError::DegenerateFootprint));
    assert_eq!(mesh.triangles, before);
    assert_eq!(mesh.vertices.len(), 8);
}
