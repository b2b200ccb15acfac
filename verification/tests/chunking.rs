use voxel_world::grid::VoxelGrid;
use voxel_world::registry::Registry;
use voxel_world::world::World;

#[test]
fn offset_test() {
    assert_eq!(World::chunk_number_and_offset(-5, 32), (-1, 27));
    assert_eq!(World::chunk_number_and_offset(-5, 4), (-2, 3));
    assert_eq!(World::chunk_number_and_offset(2, 4), (0, 2));
    assert_eq!(World::chunk_number_and_offset(5, 4), (1, 1));
}

#[test]
fn offset_reconstructs_world_coordinate() {
    for start in [-129i32, -32, -5, -1, 0, 1, 5, 31, 32, 100] {
        for chunk_size in [1usize, 4, 32] {
            let (chunk, offset) = World::chunk_number_and_offset(start, chunk_size);
            assert!(offset < chunk_size);
            assert_eq!(chunk * chunk_size as i32 + offset as i32, start);
        }
    }
}

/// A solid single-color asset of the given dimensions.
fn solid_asset(sx: usize, sy: usize, sz: usize, color: u8) -> VoxelGrid {
    let mut grid = VoxelGrid::new(sx, sy, sz);
    for z in 0..sz {
        for y in 0..sy {
            for x in 0..sx {
                grid.set(x, y, z, color);
            }
        }
    }
    grid
}

#[test]
fn placement_covers_asset_without_gaps() {
    let mut registry = Registry::<VoxelGrid>::new();
    let handle = registry.add(solid_asset(5, 5, 5, 3));
    let mut world = World::with_settings(4, 1);
    world.add(handle, (-5, -5, -5), &registry);
    assert_eq!(world.asset_count(), 1);

    // The walk along each axis splits [-5, 0) into chunk -2 (one voxel at
    // local offset 3) and chunk -1 (four voxels at local offset 0).
    for cx in [-2i32, -1] {
        for cy in [-2i32, -1] {
            for cz in [-2i32, -1] {
                let rec = world.overlay_record((cx, cy, cz)).unwrap();
                assert_eq!(rec.asset_index, 0);
                let expect = |c: i32| if c == -2 { (0usize, 3usize, 1usize) } else { (1, 0, 4) };
                let (sx, tx, ex) = expect(cx);
                let (sy, ty, ey) = expect(cy);
                let (sz, tz, ez) = expect(cz);
                assert_eq!(rec.source_offset, (sx, sy, sz));
                assert_eq!(rec.target_offset, (tx, ty, tz));
                assert_eq!(rec.extent, (ex, ey, ez));
            }
        }
    }
    // The per-axis extents tile the full dimension: 1 + 4 == 5.
    let e2 = world.overlay_record((-2, -2, -2)).unwrap().extent.0;
    let e1 = world.overlay_record((-1, -1, -1)).unwrap().extent.0;
    assert_eq!(e2 + e1, 5);

    // No record outside the covered chunks.
    assert!(world.overlay_record((0, 0, 0)).is_none());
    assert!(world.overlay_record((-3, -2, -2)).is_none());
}

#[test]
fn placement_positive_position_single_chunk() {
    let mut registry = Registry::<VoxelGrid>::new();
    let handle = registry.add(solid_asset(2, 2, 2, 7));
    let mut world = World::with_settings(8, 1);
    world.add(handle, (1, 2, 3), &registry);
    let rec = world.overlay_record((0, 0, 0)).unwrap();
    assert_eq!(rec.source_offset, (0, 0, 0));
    assert_eq!(rec.target_offset, (1, 2, 3));
    assert_eq!(rec.extent, (2, 2, 2));
    assert!(world.overlay_record((1, 0, 0)).is_none());
}
