//! A voxel-world core: chunk coordinate arithmetic, asset placement across
//! chunks, dense voxel grids composited from terrain and placed assets,
//! greedy surface meshing, a sliding streaming window of loaded chunks, and
//! a grid flow-field for navigation.

pub mod coord_map;
pub mod grid;
pub mod mesher;
pub mod navigation;
pub mod placement;
pub mod registry;
pub mod terrain;
pub mod window;
pub mod world;
