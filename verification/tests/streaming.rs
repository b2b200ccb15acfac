use voxel_world::grid::VoxelGrid;
use voxel_world::mesher::Mesh;
use voxel_world::registry::Registry;
use voxel_world::world::{Entity, World};

#[test]
fn unchanged_position_is_an_empty_diff() {
    let registry = Registry::<VoxelGrid>::new();
    let mut meshes = Registry::<Mesh>::new();
    let mut entities = Registry::<Entity>::new();
    let mut world = World::with_settings(4, 1);

    world.generate_around(&registry, (0, -5, 0), &mut meshes, &mut entities);
    let meshes_after_first = meshes.len();
    let entities_after_first = entities.len();
    assert!(meshes_after_first > 0);
    let chunk_before = world.loaded_chunk((0, -5, 0)).unwrap();

    world.generate_around(&registry, (0, -5, 0), &mut meshes, &mut entities);
    // Nothing was regenerated: no mesh or entity was built or freed.
    assert_eq!(meshes.len(), meshes_after_first);
    assert_eq!(entities.len(), entities_after_first);
    let chunk_after = world.loaded_chunk((0, -5, 0)).unwrap();
    assert_eq!(chunk_after.entity, chunk_before.entity);
    assert!(!chunk_after.just_added);
    // The chunk's entity still points at a live mesh.
    let entity = entities.get(&chunk_after.entity).unwrap();
    assert!(meshes.get(&entity.mesh_handle).is_some());
}

#[test]
fn moving_by_the_radius_loads_the_new_plane() {
    let registry = Registry::<VoxelGrid>::new();
    let mut meshes = Registry::<Mesh>::new();
    let mut entities = Registry::<Entity>::new();
    let mut world = World::with_settings(4, 1);

    world.generate_around(&registry, (0, -5, 0), &mut meshes, &mut entities);
    // Window radius is one chunk: 27 coordinates are loaded.
    let mut loaded = 0;
    for x in -1..=1 {
        for y in -6..=-4 {
            for z in -1..=1 {
                assert!(world.chunk_loaded((x, y, z)));
                loaded += 1;
            }
        }
    }
    assert_eq!(loaded, 27);
    // Nothing beyond the new plane is loaded yet.
    for y in -6..=-4 {
        for z in -1..=1 {
            assert!(!world.chunk_loaded((2, y, z)));
        }
    }
    let retained_before = world.loaded_chunk((1, -5, 0)).unwrap();

    world.generate_around(&registry, (1, -5, 0), &mut meshes, &mut entities);
    // The diff is exactly the newly covered plane of cells.
    let mut added = 0;
    for y in -6..=-4 {
        for z in -1..=1 {
            assert!(world.chunk_loaded((2, y, z)));
            added += 1;
        }
    }
    assert_eq!(added, 9);
    // A chunk that stayed in range was not rebuilt and kept its mesh.
    let retained_after = world.loaded_chunk((1, -5, 0)).unwrap();
    assert_eq!(retained_after.entity, retained_before.entity);
    assert!(!retained_after.just_added);
    let entity = entities.get(&retained_after.entity).unwrap();
    assert!(meshes.get(&entity.mesh_handle).is_some());
}

#[test]
fn empty_chunks_make_no_mesh_or_entity() {
    let registry = Registry::<VoxelGrid>::new();
    let mut meshes = Registry::<Mesh>::new();
    let mut entities = Registry::<Entity>::new();
    let mut world = World::with_settings(4, 1);

    // High above the terrain every chunk is empty: the coordinates are
    // loaded, but no mesh or entity is created for them.
    world.generate_around(&registry, (0, 100, 0), &mut meshes, &mut entities);
    assert!(world.chunk_loaded((0, 100, 0)));
    assert!(world.loaded_chunk((0, 100, 0)).is_none());
    assert_eq!(meshes.len(), 0);
    assert_eq!(entities.len(), 0);
}

#[test]
fn overlaid_asset_reaches_the_generated_mesh() {
    let mut registry = Registry::<VoxelGrid>::new();
    let mut asset = VoxelGrid::new(2, 2, 2);
    for z in 0..2 {
        for y in 0..2 {
            for x in 0..2 {
                asset.set(x, y, z, 42);
            }
        }
    }
    let handle = registry.add(asset);
    let mut world = World::with_settings(4, 0);
    // Place the asset high above the terrain, inside chunk (0, 25, 0).
    world.add(handle, (1, 101, 1), &registry);
    let mut meshes = Registry::<Mesh>::new();
    let mut entities = Registry::<Entity>::new();
    world.generate_around(&registry, (0, 25, 0), &mut meshes, &mut entities);
    let chunk = world.loaded_chunk((0, 25, 0)).unwrap();
    let entity = entities.get(&chunk.entity).unwrap();
    let mesh = meshes.get(&entity.mesh_handle).unwrap();
    // A lone solid 2x2x2 box meshes to six quads of the asset's color.
    assert_eq!(mesh.vertices.len(), 24);
    assert_eq!(mesh.indices.len(), 36);
    for v in &mesh.vertices {
        assert_eq!(v.color, 42);
    }
    assert_eq!(entity.translation, (0, 100, 0));
}
