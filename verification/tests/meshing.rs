use voxel_world::grid::VoxelGrid;
use voxel_world::mesher::greedy_mesh;

#[test]
fn empty_grid_yields_no_mesh() {
    let grid = VoxelGrid::new(3, 3, 3);
    assert!(greedy_mesh(grid).is_none());
}

#[test]
fn single_voxel_yields_six_unit_quads() {
    let mut grid = VoxelGrid::new(3, 3, 3);
    grid.set(1, 1, 1, 7);
    let mesh = greedy_mesh(grid).unwrap();
    // One quad (four vertices, six indices) per face.
    assert_eq!(mesh.vertices.len(), 24);
    assert_eq!(mesh.indices.len(), 36);
    for v in &mesh.vertices {
        // Every corner of every face is a corner of the unit cell.
        assert!(1 <= v.position.0 && v.position.0 <= 2);
        assert!(1 <= v.position.1 && v.position.1 <= 2);
        assert!(1 <= v.position.2 && v.position.2 <= 2);
        assert_eq!(v.color, 7);
    }
    for i in &mesh.indices {
        assert!((*i as usize) < mesh.vertices.len());
    }
}

#[test]
fn solid_cube_collapses_to_six_quads() {
    for n in [2usize, 3, 5] {
        let mut grid = VoxelGrid::new(n, n, n);
        for z in 0..n {
            for y in 0..n {
                for x in 0..n {
                    grid.set(x, y, z, 9);
                }
            }
        }
        let mesh = greedy_mesh(grid).unwrap();
        // Greedy merging collapses each face to one rectangle, so the
        // count does not depend on the cube's side.
        assert_eq!(mesh.vertices.len(), 24);
        assert_eq!(mesh.indices.len(), 36);
    }
}

#[test]
fn color_change_exposes_internal_faces() {
    let mut different = VoxelGrid::new(2, 1, 1);
    different.set(0, 0, 0, 1);
    different.set(1, 0, 0, 2);
    let mesh = greedy_mesh(different).unwrap();
    // Ten outer faces (no merging across the color change) plus the two
    // internal boundary faces.
    assert_eq!(mesh.vertices.len(), 48);
    assert_eq!(mesh.indices.len(), 72);

    let mut same = VoxelGrid::new(2, 1, 1);
    same.set(0, 0, 0, 1);
    same.set(1, 0, 0, 1);
    let mesh = greedy_mesh(same).unwrap();
    // Same-color neighbors occlude each other and outer faces merge:
    // six quads, none on the internal boundary.
    assert_eq!(mesh.vertices.len(), 24);
    assert_eq!(mesh.indices.len(), 36);
}

#[test]
fn quads_share_normal_and_color() {
    let mut grid = VoxelGrid::new(4, 4, 4);
    grid.set(0, 0, 0, 1);
    grid.set(3, 3, 3, 2);
    let mesh = greedy_mesh(grid).unwrap();
    assert_eq!(mesh.vertices.len() % 4, 0);
    assert_eq!(mesh.indices.len(), mesh.vertices.len() / 4 * 6);
    let mut q = 0;
    while q < mesh.vertices.len() / 4 {
        let a = &mesh.vertices[4 * q];
        for j in 1..4 {
            let b = &mesh.vertices[4 * q + j];
            assert_eq!(a.normal, b.normal);
            assert_eq!(a.color, b.color);
        }
        let norm = a.normal;
        let len = norm.0.abs() + norm.1.abs() + norm.2.abs();
        assert_eq!(len, 1);
        q += 1;
    }
}

#[test]
fn meshing_is_deterministic() {
    let build = || {
        let mut grid = VoxelGrid::new(4, 4, 4);
        grid.set(0, 1, 2, 5);
        grid.set(1, 1, 2, 5);
        grid.set(3, 3, 0, 9);
        grid
    };
    let a = greedy_mesh(build()).unwrap();
    let b = greedy_mesh(build()).unwrap();
    assert_eq!(a.vertices, b.vertices);
    assert_eq!(a.indices, b.indices);
}
