//! The voxel world: placed assets, the overlay table that splits each
//! asset across the chunks it overlaps, per-chunk voxel compositing and
//! meshing, and the streaming pass that keeps the window of loaded chunks
//! around a moving reference position.

use vstd::prelude::*;
use crate::coord_map::CoordMap;
use crate::grid::VoxelGrid;
use crate::mesher::{greedy_mesh, mesh_faces_exact, mesh_wf, Mesh};
use crate::placement::{
    axis_segments, chunk_index_and_offset, seg_model, spec_segments,
    lemma_segments_partition, AxisSegment, SegModel, MAX_WORLD_POS,
};
use crate::registry::{Handle, Registry};
use crate::terrain::spec_terrain;
use crate::terrain::terrain_voxel;
use crate::window::{clear_flag, in_window, Chunk, Chunks};

verus! {

/// A renderable chunk entity: the mesh it draws and its translation, in
/// voxel lattice units (the chunk coordinate times the chunk size).
#[derive(Clone, Copy, PartialEq, Eq, Debug)]
pub struct Entity {
    pub mesh_handle: Handle,
    pub translation: (i32, i32, i32),
}

/// How a sub-box of a placed asset lands in one chunk: which asset, where
/// the sub-box starts in the asset (`source_offset`), where it starts in
/// the chunk's local grid (`target_offset`), and its size (`extent`).
#[derive(Clone, Copy, PartialEq, Eq, Debug)]
pub struct OverlayRecord {
    pub asset_index: usize,
    pub source_offset: (usize, usize, usize),
    pub target_offset: (usize, usize, usize),
    pub extent: (usize, usize, usize),
}

/// A placed asset: the handle of its voxel data, its dimensions, and its
/// world position (possibly negative).
pub type PlacedAsset = (Handle, (usize, usize, usize), (i32, i32, i32));

/// The record fields that one cross-product cell of the per-axis walks
/// prescribes.
pub open spec fn rec_matches(r: OverlayRecord, ai: int, sx: SegModel, sy: SegModel, sz: SegModel) -> bool {
    &&& r.asset_index == ai
    &&& r.source_offset.0 == sx.source && r.target_offset.0 == sx.target && r.extent.0 == sx.len
    &&& r.source_offset.1 == sy.source && r.target_offset.1 == sy.target && r.extent.1 == sy.len
    &&& r.source_offset.2 == sz.source && r.target_offset.2 == sz.target && r.extent.2 == sz.len
}

/// Whether a chunk index along one axis is covered by the first `n`
/// segments of a per-axis walk.
pub open spec fn seg_covers(b: Seq<SegModel>, c: int, n: int) -> bool {
    b.len() > 0 && 0 <= c - b[0].chunk < n
}

/// The segment of a walk that covers chunk index `c`.
pub open spec fn seg_at(b: Seq<SegModel>, c: int) -> SegModel {
    b[c - b[0].chunk]
}

/// The per-axis walk of an asset with dimensions `dims` placed at
/// `position`, along world axis `axis`.
pub open spec fn walk_of(dims: (usize, usize, usize), position: (i32, i32, i32), cs: int, axis: int) -> Seq<SegModel> {
    let start = if axis == 0 {
        position.0 as int
    } else if axis == 1 {
        position.1 as int
    } else {
        position.2 as int
    };
    let size = if axis == 0 {
        dims.0 as int
    } else if axis == 1 {
        dims.1 as int
    } else {
        dims.2 as int
    };
    spec_segments(start, size, 0, cs)
}

/// The unbounded chunked voxel world.
pub struct World {
    assets: Vec<PlacedAsset>,
    chunk_entity_map: CoordMap<OverlayRecord>,
    chunk_size: usize,
    chunks: Chunks,
}

impl World {
    pub closed spec fn spec_chunk_size(self) -> int {
        self.chunk_size as int
    }

    /// The append-only list of placed assets.
    pub closed spec fn assets_view(self) -> Seq<PlacedAsset> {
        self.assets@
    }

    /// The overlay table: chunk coordinate to overlay record.
    pub closed spec fn overlay_map(self) -> Map<(i32, i32, i32), OverlayRecord> {
        self.chunk_entity_map@
    }

    /// The streaming window state.
    pub closed spec fn window(self) -> Chunks {
        self.chunks
    }

    pub closed spec fn storage_inv(self) -> bool {
        &&& self.chunk_entity_map.wf()
        &&& self.chunks.wf()
    }

    /// One asset entry is sound: modest dimensions, bounded position.
    pub open spec fn asset_entry_wf(a: PlacedAsset) -> bool {
        &&& 0 < a.1.0 <= 256 && 0 < a.1.1 <= 256 && 0 < a.1.2 <= 256
        &&& -MAX_WORLD_POS <= a.2.0 <= MAX_WORLD_POS
        &&& -MAX_WORLD_POS <= a.2.1 <= MAX_WORLD_POS
        &&& -MAX_WORLD_POS <= a.2.2 <= MAX_WORLD_POS
    }

    /// One overlay record is sound for this world: it names a placed
    /// asset, copies a non-empty sub-box that fits inside the chunk grid,
    /// and reads inside the asset's bounding box.
    pub open spec fn record_wf(self, r: OverlayRecord) -> bool {
        &&& r.asset_index < self.assets_view().len()
        &&& r.extent.0 >= 1 && r.extent.1 >= 1 && r.extent.2 >= 1
        &&& r.target_offset.0 + r.extent.0 <= self.spec_chunk_size()
        &&& r.target_offset.1 + r.extent.1 <= self.spec_chunk_size()
        &&& r.target_offset.2 + r.extent.2 <= self.spec_chunk_size()
        &&& r.source_offset.0 + r.extent.0 <= self.assets_view()[r.asset_index as int].1.0
        &&& r.source_offset.1 + r.extent.1 <= self.assets_view()[r.asset_index as int].1.1
        &&& r.source_offset.2 + r.extent.2 <= self.assets_view()[r.asset_index as int].1.2
    }

    pub open spec fn wf(self) -> bool {
        &&& self.storage_inv()
        &&& 1 <= self.spec_chunk_size() <= 256
        &&& forall|i: int| 0 <= i < self.assets_view().len()
            ==> Self::asset_entry_wf(#[trigger] self.assets_view()[i])
        &&& forall|k: (i32, i32, i32)| #[trigger] self.overlay_map().contains_key(k)
            ==> self.record_wf(self.overlay_map()[k])
    }

    /// The placed assets agree with a registry: every handle points at a
    /// live, well-formed grid whose dimensions are the recorded ones.
    pub open spec fn assets_ok(self, reg: Seq<Option<VoxelGrid>>) -> bool {
        forall|i: int| 0 <= i < self.assets_view().len()
            ==> {
                let a = #[trigger] self.assets_view()[i];
                &&& a.0.id < reg.len()
                &&& reg[a.0.id as int] is Some
                &&& reg[a.0.id as int]->0.wf()
                &&& reg[a.0.id as int]->0.sx() == a.1.0
                &&& reg[a.0.id as int]->0.sy() == a.1.1
                &&& reg[a.0.id as int]->0.sz() == a.1.2
            }
    }

    /// The loaded chunks' handles are live and unaliased: every loaded
    /// chunk's entity slot is filled, that entity's mesh slot is filled,
    /// and no two loaded chunks share an entity or a mesh.
    pub open spec fn registries_ok(
        self, meshes: Seq<Option<Mesh>>, entities: Seq<Option<Entity>>,
    ) -> bool {
        &&& forall|k: (i32, i32, i32)| #![trigger self.window().loaded_map()[k]]
            self.window().loaded_map().contains_key(k)
                && self.window().loaded_map()[k] is Some
                ==> {
                    let c = self.window().loaded_map()[k]->0;
                    &&& c.entity.id < entities.len()
                    &&& entities[c.entity.id as int] is Some
                    &&& entities[c.entity.id as int]->0.mesh_handle.id < meshes.len()
                    &&& meshes[entities[c.entity.id as int]->0.mesh_handle.id as int] is Some
                }
        &&& forall|k1: (i32, i32, i32), k2: (i32, i32, i32)|
            #![trigger self.window().loaded_map()[k1], self.window().loaded_map()[k2]]
            k1 != k2
                && self.window().loaded_map().contains_key(k1)
                && self.window().loaded_map()[k1] is Some
                && self.window().loaded_map().contains_key(k2)
                && self.window().loaded_map()[k2] is Some
                ==> self.window().loaded_map()[k1]->0.entity.id
                        != self.window().loaded_map()[k2]->0.entity.id
                    && entities[self.window().loaded_map()[k1]->0.entity.id as int]->0.mesh_handle.id
                        != entities[self.window().loaded_map()[k2]->0.entity.id as int]->0.mesh_handle.id
    }

    /// A world with the given chunk edge length and window radius, and
    /// nothing placed or loaded yet.
    pub fn with_settings(chunk_size: usize, radius: i32) -> (w: Self)
        requires
            1 <= chunk_size <= 256,
            0 <= radius <= crate::window::MAX_RADIUS,
        ensures
            w.wf(),
            w.spec_chunk_size() == chunk_size,
            w.assets_view().len() == 0,
            w.overlay_map() =~= Map::<(i32, i32, i32), OverlayRecord>::empty(),
            w.window().spec_radius() == radius,
            w.window().spec_center() is None,
            w.window().loaded_map() =~= Map::<(i32, i32, i32), Option<Chunk>>::empty(),
    {
        World {
            assets: Vec::new(),
            chunk_entity_map: CoordMap::new(),
            chunk_size,
            chunks: Chunks::new(radius),
        }
    }

    /// The default world: 32-voxel chunks, a 16-chunk window radius.
    pub fn new() -> (w: Self)
        ensures
            w.wf(),
            w.spec_chunk_size() == 32,
            w.assets_view().len() == 0,
            w.overlay_map() =~= Map::<(i32, i32, i32), OverlayRecord>::empty(),
            w.window().spec_radius() == 16,
            w.window().spec_center() is None,
            w.window().loaded_map() =~= Map::<(i32, i32, i32), Option<Chunk>>::empty(),
    {
        Self::with_settings(32, 16)
    }

    /// Sign-correct split of a world coordinate into a chunk index and a
    /// local offset, with floor-division semantics: the offset is never
    /// negative, and `chunk * chunk_size + offset == start` always.
    pub fn chunk_number_and_offset(start: i32, chunk_size: usize) -> (r: (i32, usize))
        requires
            1 <= chunk_size <= 0x4000_0000,
        ensures
            r.0 * chunk_size + r.1 == start,
            r.1 < chunk_size,
            r.0 == start as int / chunk_size as int,
            r.1 == start as int % chunk_size as int,
    {
        chunk_index_and_offset(start, chunk_size)
    }

    /// Reads the overlay record for a chunk coordinate, if an asset
    /// covers it.
    pub fn overlay_record(&self, chunk: (i32, i32, i32)) -> (r: Option<OverlayRecord>)
        requires
            self.wf(),
        ensures
            match r {
                Some(rec) => self.overlay_map().contains_key(chunk)
                    && self.overlay_map()[chunk] == rec,
                None => !self.overlay_map().contains_key(chunk),
            },
    {
        match self.chunk_entity_map.get(chunk) {
            Some(rec) => Some(*rec),
            None => None,
        }
    }

    /// The chunk edge length, in voxels.
    pub fn chunk_size(&self) -> (n: usize)
        ensures
            n == self.spec_chunk_size(),
    {
        self.chunk_size
    }

    /// Whether a chunk coordinate has been loaded by the streaming
    /// window, counting chunks that were generated and found empty.
    pub fn chunk_loaded(&self, k: (i32, i32, i32)) -> (r: bool)
        requires
            self.wf(),
        ensures
            r == self.window().loaded_map().contains_key(k),
    {
        self.chunks.is_loaded(k)
    }

    /// The loaded chunk at a coordinate; `None` for a coordinate that is
    /// not loaded or whose composited grid was empty.
    pub fn loaded_chunk(&self, k: (i32, i32, i32)) -> (r: Option<Chunk>)
        requires
            self.wf(),
        ensures
            match r {
                Some(c) => self.window().loaded_map().contains_key(k)
                    && self.window().loaded_map()[k] == Some(c),
                None => !self.window().loaded_map().contains_key(k)
                    || self.window().loaded_map()[k] is None,
            },
    {
        match self.chunks.get_chunk(k) {
            Some(c) => Some(*c),
            None => None,
        }
    }

    /// The number of placed assets.
    pub fn asset_count(&self) -> (n: usize)
        ensures
            n == self.assets_view().len(),
    {
        self.assets.len()
    }

    /// Places an asset: records it in the asset list and splits its
    /// bounding box across every chunk it overlaps, one overlay record
    /// per chunk, by walking each axis independently.  Coverage is
    /// permanent; the records at covered chunk coordinates replace
    /// whatever was there, all other records stay.
    #[verifier::rlimit(60)]
    pub fn add(&mut self, handle: Handle, position: (i32, i32, i32), registry: &Registry<VoxelGrid>)
        requires
            old(self).wf(),
            handle.id < registry@.len(),
            registry@[handle.id as int] is Some,
            registry@[handle.id as int]->0.wf(),
            -MAX_WORLD_POS <= position.0 <= MAX_WORLD_POS,
            -MAX_WORLD_POS <= position.1 <= MAX_WORLD_POS,
            -MAX_WORLD_POS <= position.2 <= MAX_WORLD_POS,
        ensures
            final(self).wf(),
            final(self).spec_chunk_size() == old(self).spec_chunk_size(),
            final(self).window() == old(self).window(),
            ({
                let g = registry@[handle.id as int]->0;
                final(self).assets_view() == old(self).assets_view().push(
                    (handle, ((g.sx() as usize), (g.sy() as usize), (g.sz() as usize)), position))
            }),
            ({
                let g = registry@[handle.id as int]->0;
                let dims = ((g.sx() as usize), (g.sy() as usize), (g.sz() as usize));
                let cs = old(self).spec_chunk_size();
                let bx = walk_of(dims, position, cs, 0);
                let by = walk_of(dims, position, cs, 1);
                let bz = walk_of(dims, position, cs, 2);
                &&& forall|k: (i32, i32, i32)|
                    seg_covers(bx, k.0 as int, bx.len() as int)
                        && seg_covers(by, k.1 as int, by.len() as int)
                        && seg_covers(bz, k.2 as int, bz.len() as int)
                        ==> #[trigger] final(self).overlay_map().contains_key(k)
                            && rec_matches(
                                final(self).overlay_map()[k],
                                old(self).assets_view().len() as int,
                                seg_at(bx, k.0 as int),
                                seg_at(by, k.1 as int),
                                seg_at(bz, k.2 as int),
                            )
                &&& forall|k: (i32, i32, i32)|
                    !(seg_covers(bx, k.0 as int, bx.len() as int)
                        && seg_covers(by, k.1 as int, by.len() as int)
                        && seg_covers(bz, k.2 as int, bz.len() as int))
                        ==> #[trigger] final(self).overlay_map().contains_key(k)
                                == old(self).overlay_map().contains_key(k)
                            && (old(self).overlay_map().contains_key(k)
                                ==> final(self).overlay_map()[k] == old(self).overlay_map()[k])
            }),
    {
        let vox = registry.get(&handle).unwrap();
        let dims = (vox.x_size(), vox.y_size(), vox.z_size());
        let asset_index = self.assets.len();
        self.assets.push((handle, dims, position));
        let cs = self.chunk_size;
        let segs_x = axis_segments(position.0, dims.0, cs);
        let segs_y = axis_segments(position.1, dims.1, cs);
        let segs_z = axis_segments(position.2, dims.2, cs);
        let ghost bx = spec_segments(position.0 as int, dims.0 as int, 0, cs as int);
        let ghost by = spec_segments(position.1 as int, dims.1 as int, 0, cs as int);
        let ghost bz = spec_segments(position.2 as int, dims.2 as int, 0, cs as int);
        proof {
            lemma_segments_partition(position.0 as int, dims.0 as int, 0, cs as int);
            lemma_segments_partition(position.1 as int, dims.1 as int, 0, cs as int);
            lemma_segments_partition(position.2 as int, dims.2 as int, 0, cs as int);
            assert(segs_x@.map_values(|a: crate::placement::AxisSegment| seg_model(a)) == bx);
            assert(segs_y@.map_values(|a: crate::placement::AxisSegment| seg_model(a)) == by);
            assert(segs_z@.map_values(|a: crate::placement::AxisSegment| seg_model(a)) == bz);
        }
        proof {
            assert(forall|i: int| 0 <= i < segs_x@.len()
                ==> seg_model(#[trigger] segs_x@[i]) == bx[i]);
            assert(forall|i: int| 0 <= i < segs_y@.len()
                ==> seg_model(#[trigger] segs_y@[i]) == by[i]);
            assert(forall|i: int| 0 <= i < segs_z@.len()
                ==> seg_model(#[trigger] segs_z@[i]) == bz[i]);
            assert(forall|i: int| 0 <= i < segs_x@.len()
                ==> (#[trigger] segs_x@[i]).chunk == segs_x@[0].chunk + i);
            assert(forall|i: int| 0 <= i < segs_y@.len()
                ==> (#[trigger] segs_y@[i]).chunk == segs_y@[0].chunk + i);
            assert(forall|i: int| 0 <= i < segs_z@.len()
                ==> (#[trigger] segs_z@[i]).chunk == segs_z@[0].chunk + i);
        }
        insert_overlay_block(&mut self.chunk_entity_map, asset_index, &segs_x, &segs_y, &segs_z);
        proof {
            let w = *self;
            assert forall|k: (i32, i32, i32)|
                seg_covers(bx, k.0 as int, bx.len() as int)
                    && seg_covers(by, k.1 as int, by.len() as int)
                    && seg_covers(bz, k.2 as int, bz.len() as int)
                    implies #[trigger] w.overlay_map().contains_key(k)
                        && rec_matches(w.overlay_map()[k], asset_index as int,
                            seg_at(bx, k.0 as int), seg_at(by, k.1 as int),
                            seg_at(bz, k.2 as int)) by {
                assert(seg_model(segs_x@[0]) == bx[0]);
                assert(seg_model(segs_y@[0]) == by[0]);
                assert(seg_model(segs_z@[0]) == bz[0]);
                assert(covers(segs_x@, k.0 as int));
                assert(covers(segs_y@, k.1 as int));
                assert(covers(segs_z@, k.2 as int));
                assert(w.overlay_map().contains_key(k));
                assert(w.overlay_map()[k] == record_for(asset_index, segs_x@, segs_y@, segs_z@, k));
                let i = k.0 as int - segs_x@[0].chunk;
                let j = k.1 as int - segs_y@[0].chunk;
                let l = k.2 as int - segs_z@[0].chunk;
                assert(seg_model(segs_x@[i]) == bx[i]);
                assert(seg_model(segs_y@[j]) == by[j]);
                assert(seg_model(segs_z@[l]) == bz[l]);
                assert(seg_for(segs_x@, k.0 as int) == segs_x@[i]);
                assert(seg_at(bx, k.0 as int) == bx[i]);
                assert(seg_for(segs_y@, k.1 as int) == segs_y@[j]);
                assert(seg_at(by, k.1 as int) == by[j]);
                assert(seg_for(segs_z@, k.2 as int) == segs_z@[l]);
                assert(seg_at(bz, k.2 as int) == bz[l]);
            }
            assert forall|k: (i32, i32, i32)|
                !(seg_covers(bx, k.0 as int, bx.len() as int)
                    && seg_covers(by, k.1 as int, by.len() as int)
                    && seg_covers(bz, k.2 as int, bz.len() as int))
                    implies #[trigger] w.overlay_map().contains_key(k)
                            == old(self).overlay_map().contains_key(k)
                        && (old(self).overlay_map().contains_key(k)
                            ==> w.overlay_map()[k] == old(self).overlay_map()[k]) by {
                assert(seg_model(segs_x@[0]) == bx[0]);
                assert(seg_model(segs_y@[0]) == by[0]);
                assert(seg_model(segs_z@[0]) == bz[0]);
                assert(!(covers(segs_x@, k.0 as int) && covers(segs_y@, k.1 as int)
                    && covers(segs_z@, k.2 as int)));
                assert(w.overlay_map().contains_key(k) == old(self).overlay_map().contains_key(k));
            }
            assert forall|k: (i32, i32, i32)| #[trigger] w.overlay_map().contains_key(k)
                implies w.record_wf(w.overlay_map()[k]) by {
                if seg_covers(bx, k.0 as int, bx.len() as int)
                    && seg_covers(by, k.1 as int, by.len() as int)
                    && seg_covers(bz, k.2 as int, bz.len() as int) {
                    lemma_segments_partition(position.0 as int, dims.0 as int, 0, cs as int);
                    lemma_segments_partition(position.1 as int, dims.1 as int, 0, cs as int);
                    lemma_segments_partition(position.2 as int, dims.2 as int, 0, cs as int);
                } else {
                    assert(old(self).record_wf(old(self).overlay_map()[k]));
                }
            }
        }
    }

    /// The terrain voxel of a chunk-local cell, read at its world-space
    /// lattice position.
    pub open spec fn terrain_cell(self, chunk: (i32, i32, i32), x: int, y: int, z: int) -> Option<u8> {
        spec_terrain(
            chunk.0 * self.spec_chunk_size() + x,
            chunk.1 * self.spec_chunk_size() + y,
            chunk.2 * self.spec_chunk_size() + z,
        )
    }

    /// The composited voxel of a chunk-local cell: the overlaid asset's
    /// cell where the chunk has an overlay record, the cell lies in its
    /// target box and the asset cell is non-empty; the terrain otherwise.
    /// Empty asset cells never erase terrain.
    pub open spec fn composite_cell(
        self, reg: Seq<Option<VoxelGrid>>, chunk: (i32, i32, i32), x: int, y: int, z: int,
    ) -> Option<u8> {
        if self.overlay_map().contains_key(chunk) {
            let r = self.overlay_map()[chunk];
            let a = self.assets_view()[r.asset_index as int];
            let patch = overlay_patch(r, reg[a.0.id as int]->0, x, y, z);
            if patch is Some {
                patch
            } else {
                self.terrain_cell(chunk, x, y, z)
            }
        } else {
            self.terrain_cell(chunk, x, y, z)
        }
    }

    /// Whether the composited grid of a chunk holds any voxel at all.
    pub open spec fn chunk_has_voxel(self, reg: Seq<Option<VoxelGrid>>, chunk: (i32, i32, i32)) -> bool {
        exists|x: int, y: int, z: int|
            0 <= x < self.spec_chunk_size() && 0 <= y < self.spec_chunk_size()
                && 0 <= z < self.spec_chunk_size()
                && #[trigger] self.composite_cell(reg, chunk, x, y, z) is Some
    }

    /// Composites and meshes one chunk: fills a fresh grid from the
    /// terrain, overlays the covering asset's sub-box where one exists,
    /// and runs the greedy mesher.  Yields `None` exactly when the
    /// composited chunk is empty; otherwise registers the mesh and a new
    /// entity placed at the chunk's origin and hands back the chunk,
    /// marked just added.
    pub fn generate_chunk(
        &mut self,
        registry: &Registry<VoxelGrid>,
        chunk: (i32, i32, i32),
        meshes: &mut Registry<Mesh>,
        entities: &mut Registry<Entity>,
    ) -> (r: Option<Chunk>)
        requires
            old(self).wf(),
            old(self).assets_ok(registry@),
            -0x10_1000 <= chunk.0 <= 0x10_1000,
            -0x10_1000 <= chunk.1 <= 0x10_1000,
            -0x10_1000 <= chunk.2 <= 0x10_1000,
        ensures
            *final(self) == *old(self),
            (r is Some) == old(self).chunk_has_voxel(registry@, chunk),
            match r {
                Some(ch) => {
                    &&& ch.just_added
                    &&& ch.entity.id == old(entities)@.len()
                    &&& final(meshes)@.len() == old(meshes)@.len() + 1
                    &&& forall|i: int| 0 <= i < old(meshes)@.len()
                        ==> #[trigger] final(meshes)@[i] == old(meshes)@[i]
                    &&& final(meshes)@[old(meshes)@.len() as int] is Some
                    &&& mesh_wf(
                        final(meshes)@[old(meshes)@.len() as int]->0,
                        old(self).spec_chunk_size(),
                        old(self).spec_chunk_size(),
                        old(self).spec_chunk_size(),
                    )
                    &&& final(meshes)@[old(meshes)@.len() as int]->0.vertices@.len() >= 4
                    &&& exists|cg: VoxelGrid|
                        {
                            &&& (#[trigger] cg.wf())
                            &&& cg.sx() == old(self).spec_chunk_size()
                            &&& cg.sy() == old(self).spec_chunk_size()
                            &&& cg.sz() == old(self).spec_chunk_size()
                            &&& (forall|x: int, y: int, z: int| cg.in_bounds(x, y, z)
                                ==> #[trigger] cg.cell(x, y, z)
                                    == old(self).composite_cell(registry@, chunk, x, y, z))
                            &&& mesh_faces_exact(
                                final(meshes)@[old(meshes)@.len() as int]->0, cg)
                        }
                    &&& final(entities)@.len() == old(entities)@.len() + 1
                    &&& forall|i: int| 0 <= i < old(entities)@.len()
                        ==> #[trigger] final(entities)@[i] == old(entities)@[i]
                    &&& final(entities)@[old(entities)@.len() as int] is Some
                    &&& final(entities)@[old(entities)@.len() as int]->0.mesh_handle.id
                        == old(meshes)@.len()
                    &&& final(entities)@[old(entities)@.len() as int]->0.translation.0
                        == chunk.0 * old(self).spec_chunk_size()
                    &&& final(entities)@[old(entities)@.len() as int]->0.translation.1
                        == chunk.1 * old(self).spec_chunk_size()
                    &&& final(entities)@[old(entities)@.len() as int]->0.translation.2
                        == chunk.2 * old(self).spec_chunk_size()
                },
                None => final(meshes)@ == old(meshes)@ && final(entities)@ == old(entities)@,
            },
    {
        let cs = self.chunk_size;
        let mut grid = VoxelGrid::new(cs, cs, cs);
        fill_terrain(&mut grid, chunk);
        match self.overlay_record(chunk) {
            Some(rec) => {
                let (h, adims, _apos) = self.assets[rec.asset_index];
                let vox = registry.get(&h).unwrap();
                apply_overlay(&mut grid, rec, vox);
                proof {
                    let w = *self;
                    let reg = registry@;
                    assert forall|x: int, y: int, z: int| grid.in_bounds(x, y, z)
                        implies #[trigger] grid.cell(x, y, z)
                            == w.composite_cell(reg, chunk, x, y, z) by {
                    }
                }
            },
            None => {
                proof {
                    let w = *self;
                    let reg = registry@;
                    assert forall|x: int, y: int, z: int| grid.in_bounds(x, y, z)
                        implies #[trigger] grid.cell(x, y, z)
                            == w.composite_cell(reg, chunk, x, y, z) by {
                    }
                }
            },
        }
        proof {
            let w = *self;
            let reg = registry@;
            if grid.spec_touched() {
                let (x, y, z) = choose|x: int, y: int, z: int|
                    grid.in_bounds(x, y, z) && #[trigger] grid.cell(x, y, z) is Some;
                assert(w.composite_cell(reg, chunk, x, y, z) is Some);
                assert(w.chunk_has_voxel(reg, chunk));
            }
            if w.chunk_has_voxel(reg, chunk) {
                let (x, y, z) = choose|x: int, y: int, z: int|
                    0 <= x < w.spec_chunk_size() && 0 <= y < w.spec_chunk_size()
                        && 0 <= z < w.spec_chunk_size()
                        && #[trigger] w.composite_cell(reg, chunk, x, y, z) is Some;
                assert(grid.cell(x, y, z) is Some);
                assert(grid.has_voxel());
            }
        }
        let ghost composed = grid;
        let mesh_opt = greedy_mesh(grid);
        match mesh_opt {
            Some(mesh) => {
                proof {
                    assert(mesh_faces_exact(mesh, composed));
                }
                proof {
                    assert(-0x1100_0000 <= chunk.0 * cs <= 0x1100_0000) by (nonlinear_arith)
                        requires
                            -0x10_1000 <= chunk.0 <= 0x10_1000,
                            1 <= cs <= 256,
                    ;
                    assert(-0x1100_0000 <= chunk.1 * cs <= 0x1100_0000) by (nonlinear_arith)
                        requires
                            -0x10_1000 <= chunk.1 <= 0x10_1000,
                            1 <= cs <= 256,
                    ;
                    assert(-0x1100_0000 <= chunk.2 * cs <= 0x1100_0000) by (nonlinear_arith)
                        requires
                            -0x10_1000 <= chunk.2 <= 0x10_1000,
                            1 <= cs <= 256,
                    ;
                }
                let translation = (
                    chunk.0 * cs as i32,
                    chunk.1 * cs as i32,
                    chunk.2 * cs as i32,
                );
                let mesh_handle = meshes.add(mesh);
                let entity_handle = entities.add(Entity { mesh_handle, translation });
                Some(Chunk { entity: entity_handle, just_added: true })
            },
            None => None,
        }
    }

    /// One streaming pass around a reference position, given in chunk
    /// coordinates: lowers every loaded chunk's `just_added` flag, diffs
    /// the window against the new position, and (re)generates every
    /// entering coordinate -- tearing down the stale mesh and entity of a
    /// revisited chunk first.  Chunks that stay inside the window are not
    /// rebuilt and keep their entity handle and its live mesh; with an
    /// unchanged reference position nothing is generated and the
    /// registries are untouched.  A chunk whose coordinate leaves the
    /// window is deliberately not unloaded: it stays loaded with its mesh
    /// and entity, and is torn down and rebuilt only when its coordinate
    /// re-enters the window -- that is what makes a revisited chunk's
    /// teardown branch reachable at all.
    #[verifier::rlimit(80)]
    pub fn generate_around(
        &mut self,
        registry: &Registry<VoxelGrid>,
        position: (i32, i32, i32),
        meshes: &mut Registry<Mesh>,
        entities: &mut Registry<Entity>,
    )
        requires
            old(self).wf(),
            old(self).assets_ok(registry@),
            -crate::window::MAX_CENTER <= position.0 <= crate::window::MAX_CENTER,
            -crate::window::MAX_CENTER <= position.1 <= crate::window::MAX_CENTER,
            -crate::window::MAX_CENTER <= position.2 <= crate::window::MAX_CENTER,
            old(self).registries_ok(old(meshes)@, old(entities)@),
        ensures
            final(self).wf(),
            final(self).spec_chunk_size() == old(self).spec_chunk_size(),
            final(self).assets_view() == old(self).assets_view(),
            final(self).overlay_map() == old(self).overlay_map(),
            final(self).window().spec_radius() == old(self).window().spec_radius(),
            final(self).window().spec_center() == Some(position),
            forall|k: (i32, i32, i32)|
                !(in_window(position, old(self).window().spec_radius(), k)
                    && !old(self).window().in_previous(k))
                    ==> #[trigger] final(self).window().loaded_map().contains_key(k)
                            == old(self).window().loaded_map().contains_key(k)
                        && (old(self).window().loaded_map().contains_key(k)
                            ==> final(self).window().loaded_map()[k]
                                == clear_flag(old(self).window().loaded_map()[k])),
            forall|k: (i32, i32, i32)|
                in_window(position, old(self).window().spec_radius(), k)
                    && !old(self).window().in_previous(k)
                    ==> #[trigger] final(self).window().loaded_map().contains_key(k)
                        && ((final(self).window().loaded_map()[k] is Some)
                            <==> old(self).chunk_has_voxel(registry@, k))
                        && (final(self).window().loaded_map()[k] is Some
                            ==> final(self).window().loaded_map()[k]->0.just_added),
            old(self).window().spec_center() == Some(position)
                ==> final(meshes)@ == old(meshes)@ && final(entities)@ == old(entities)@,
            final(self).registries_ok(final(meshes)@, final(entities)@),
            forall|k: (i32, i32, i32)|
                #![trigger old(self).window().loaded_map()[k]]
                !(in_window(position, old(self).window().spec_radius(), k)
                    && !old(self).window().in_previous(k))
                    && old(self).window().loaded_map().contains_key(k)
                    && old(self).window().loaded_map()[k] is Some
                    ==> {
                        let c = old(self).window().loaded_map()[k]->0;
                        &&& final(entities)@[c.entity.id as int]
                            == old(entities)@[c.entity.id as int]
                        &&& final(meshes)@[old(entities)@[c.entity.id as int]->0.mesh_handle.id as int]
                            == old(meshes)@[old(entities)@[c.entity.id as int]->0.mesh_handle.id as int]
                    },
    {
        self.chunks.clear_just_added();
        let added = self.chunks.recenter(position);
        let ghost rad = old(self).window().spec_radius();
        proof {
            assert(self.storage_inv());
            assert(1 <= self.spec_chunk_size() <= 256);
            assert(forall|i: int| 0 <= i < self.assets_view().len()
                ==> Self::asset_entry_wf(#[trigger] self.assets_view()[i]));
            assert(self.overlay_map() == old(self).overlay_map());
            assert forall|k2: (i32, i32, i32)| #[trigger] self.overlay_map().contains_key(k2)
                implies self.record_wf(self.overlay_map()[k2]) by {
                assert(old(self).overlay_map().contains_key(k2));
                assert(old(self).record_wf(old(self).overlay_map()[k2]));
            }
            assert(self.wf());
            assert forall|k: (i32, i32, i32)|
                #![trigger self.window().loaded_map()[k]]
                self.window().loaded_map().contains_key(k)
                    && self.window().loaded_map()[k] is Some
                    implies {
                        let c = self.window().loaded_map()[k]->0;
                        &&& c.entity.id < entities@.len()
                        &&& entities@[c.entity.id as int] is Some
                        &&& entities@[c.entity.id as int]->0.mesh_handle.id < meshes@.len()
                        &&& meshes@[entities@[c.entity.id as int]->0.mesh_handle.id as int] is Some
                    } by {
                assert(old(self).window().loaded_map().contains_key(k));
                assert(self.window().loaded_map()[k]
                    == clear_flag(old(self).window().loaded_map()[k]));
                assert(old(self).window().loaded_map()[k] is Some);
            }
            assert forall|k1: (i32, i32, i32), k2: (i32, i32, i32)|
                #![trigger self.window().loaded_map()[k1], self.window().loaded_map()[k2]]
                k1 != k2
                    && self.window().loaded_map().contains_key(k1)
                    && self.window().loaded_map()[k1] is Some
                    && self.window().loaded_map().contains_key(k2)
                    && self.window().loaded_map()[k2] is Some
                    implies self.window().loaded_map()[k1]->0.entity.id
                            != self.window().loaded_map()[k2]->0.entity.id
                        && entities@[self.window().loaded_map()[k1]->0.entity.id as int]->0.mesh_handle.id
                            != entities@[self.window().loaded_map()[k2]->0.entity.id as int]->0.mesh_handle.id by {
                assert(old(self).window().loaded_map().contains_key(k1));
                assert(old(self).window().loaded_map().contains_key(k2));
                assert(self.window().loaded_map()[k1]
                    == clear_flag(old(self).window().loaded_map()[k1]));
                assert(self.window().loaded_map()[k2]
                    == clear_flag(old(self).window().loaded_map()[k2]));
            }
            assert(self.registries_ok(meshes@, entities@));
        }
        let n = added.len();
        let mut i: usize = 0;
        while i < n
            invariant
                self.wf(),
                self.assets_ok(registry@),
                self.spec_chunk_size() == old(self).spec_chunk_size(),
                self.assets_view() == old(self).assets_view(),
                self.overlay_map() == old(self).overlay_map(),
                self.window().spec_radius() == rad,
                rad == old(self).window().spec_radius(),
                self.window().spec_center() == Some(position),
                n == added@.len(),
                i <= n,
                forall|j: int| 0 <= j < n
                    ==> in_window(position, rad, #[trigger] added@[j])
                        && !old(self).window().in_previous(added@[j]),
                forall|j1: int, j2: int| 0 <= j1 < j2 < n ==> added@[j1] != added@[j2],
                forall|k: (i32, i32, i32)| !added@.contains(k)
                    ==> #[trigger] self.window().loaded_map().contains_key(k)
                            == old(self).window().loaded_map().contains_key(k)
                        && (old(self).window().loaded_map().contains_key(k)
                            ==> self.window().loaded_map()[k]
                                == clear_flag(old(self).window().loaded_map()[k])),
                forall|j: int| 0 <= j < i
                    ==> #[trigger] self.window().loaded_map().contains_key(added@[j])
                        && ((self.window().loaded_map()[added@[j]] is Some)
                            <==> old(self).chunk_has_voxel(registry@, added@[j]))
                        && (self.window().loaded_map()[added@[j]] is Some
                            ==> self.window().loaded_map()[added@[j]]->0.just_added),
                forall|j: int| i <= j < n
                    ==> #[trigger] self.window().loaded_map().contains_key(added@[j])
                            == old(self).window().loaded_map().contains_key(added@[j])
                        && (old(self).window().loaded_map().contains_key(added@[j])
                            ==> self.window().loaded_map()[added@[j]]
                                == clear_flag(old(self).window().loaded_map()[added@[j]])),
                added@.len() == 0 ==> meshes@ == old(meshes)@ && entities@ == old(entities)@,
                self.registries_ok(meshes@, entities@),
                forall|k2: (i32, i32, i32)|
                    #![trigger old(self).window().loaded_map()[k2]]
                    !added@.contains(k2)
                        && old(self).window().loaded_map().contains_key(k2)
                        && old(self).window().loaded_map()[k2] is Some
                        ==> {
                            let c = old(self).window().loaded_map()[k2]->0;
                            &&& entities@[c.entity.id as int]
                                == old(entities)@[c.entity.id as int]
                            &&& meshes@[old(entities)@[c.entity.id as int]->0.mesh_handle.id as int]
                                == old(meshes)@[old(entities)@[c.entity.id as int]->0.mesh_handle.id as int]
                        },
            decreases n - i,
        {
            let k = added[i];
            let ghost pre_w = *self;
            let ghost pre_m = meshes@;
            let ghost pre_e = entities@;
            proof {
                assert(added@.contains(k));
                self.lemma_same_composite(*old(self), registry@, k);
            }
            self.regenerate_at(registry, k, meshes, entities);
            i = i + 1;
            proof {
                assert forall|k2: (i32, i32, i32)|
                    #![trigger old(self).window().loaded_map()[k2]]
                    !added@.contains(k2)
                        && old(self).window().loaded_map().contains_key(k2)
                        && old(self).window().loaded_map()[k2] is Some
                        implies {
                            let c = old(self).window().loaded_map()[k2]->0;
                            &&& entities@[c.entity.id as int]
                                == old(entities)@[c.entity.id as int]
                            &&& meshes@[old(entities)@[c.entity.id as int]->0.mesh_handle.id as int]
                                == old(meshes)@[old(entities)@[c.entity.id as int]->0.mesh_handle.id as int]
                        } by {
                    assert(k2 != k);
                    let c = old(self).window().loaded_map()[k2]->0;
                    assert(pre_w.window().loaded_map().contains_key(k2));
                    assert(pre_w.window().loaded_map()[k2]
                        == clear_flag(old(self).window().loaded_map()[k2]));
                    assert(pre_w.window().loaded_map()[k2] is Some);
                    assert(pre_w.window().loaded_map()[k2]->0.entity == c.entity);
                    assert(pre_e[c.entity.id as int] == old(entities)@[c.entity.id as int]);
                    assert(entities@[c.entity.id as int] == pre_e[c.entity.id as int]);
                    assert(pre_m[pre_e[c.entity.id as int]->0.mesh_handle.id as int]
                        == old(meshes)@[old(entities)@[c.entity.id as int]->0.mesh_handle.id as int]);
                    assert(meshes@[pre_e[c.entity.id as int]->0.mesh_handle.id as int]
                        == pre_m[pre_e[c.entity.id as int]->0.mesh_handle.id as int]);
                }
            }
            proof {
                assert forall|j: int| 0 <= j < i
                    implies #[trigger] self.window().loaded_map().contains_key(added@[j])
                        && ((self.window().loaded_map()[added@[j]] is Some)
                            <==> old(self).chunk_has_voxel(registry@, added@[j]))
                        && (self.window().loaded_map()[added@[j]] is Some
                            ==> self.window().loaded_map()[added@[j]]->0.just_added) by {
                    if j < i - 1 {
                        assert(added@[j] != k);
                        assert(pre_w.window().loaded_map().contains_key(added@[j]));
                        assert((pre_w.window().loaded_map()[added@[j]] is Some)
                            <==> old(self).chunk_has_voxel(registry@, added@[j]));
                        assert(self.window().loaded_map().contains_key(added@[j]));
                        assert(self.window().loaded_map()[added@[j]]
                            == pre_w.window().loaded_map()[added@[j]]);
                    } else {
                        assert(added@[j] == k);
                        assert(self.window().loaded_map().contains_key(k));
                        assert((self.window().loaded_map()[k] is Some)
                            <==> pre_w.chunk_has_voxel(registry@, k));
                        assert(pre_w.chunk_has_voxel(registry@, k)
                            == old(self).chunk_has_voxel(registry@, k));
                        assert(self.window().loaded_map()[k] is Some
                            ==> self.window().loaded_map()[k]->0.just_added);
                    }
                }
            }
        }
        proof {
            assert forall|k: (i32, i32, i32)|
                in_window(position, rad, k) && !old(self).window().in_previous(k)
                    implies #[trigger] self.window().loaded_map().contains_key(k)
                        && ((self.window().loaded_map()[k] is Some)
                            <==> old(self).chunk_has_voxel(registry@, k))
                        && (self.window().loaded_map()[k] is Some
                            ==> self.window().loaded_map()[k]->0.just_added) by {
                assert(added@.contains(k));
                let j = choose|j: int| 0 <= j < added@.len() && added@[j] == k;
                assert(self.window().loaded_map().contains_key(added@[j]));
                assert((self.window().loaded_map()[added@[j]] is Some)
                    <==> old(self).chunk_has_voxel(registry@, added@[j]));
            }
        }
    }

    /// Regenerates the chunk at one window coordinate: frees the stale
    /// mesh and entity of a previously loaded chunk, composites and
    /// meshes the coordinate anew, and stores the result, marked just
    /// added (or an empty slot for an empty chunk).  Other coordinates'
    /// slots are untouched.
    fn regenerate_at(
        &mut self,
        registry: &Registry<VoxelGrid>,
        k: (i32, i32, i32),
        meshes: &mut Registry<Mesh>,
        entities: &mut Registry<Entity>,
    )
        requires
            old(self).wf(),
            old(self).assets_ok(registry@),
            -0x10_1000 <= k.0 <= 0x10_1000,
            -0x10_1000 <= k.1 <= 0x10_1000,
            -0x10_1000 <= k.2 <= 0x10_1000,
            old(self).window().loaded_map().contains_key(k)
                && old(self).window().loaded_map()[k] is Some
                ==> !old(self).window().loaded_map()[k]->0.just_added,
            old(self).registries_ok(old(meshes)@, old(entities)@),
        ensures
            final(self).wf(),
            final(self).spec_chunk_size() == old(self).spec_chunk_size(),
            final(self).assets_view() == old(self).assets_view(),
            final(self).overlay_map() == old(self).overlay_map(),
            final(self).window().spec_radius() == old(self).window().spec_radius(),
            final(self).window().spec_center() == old(self).window().spec_center(),
            final(self).window().loaded_map().contains_key(k),
            (final(self).window().loaded_map()[k] is Some)
                <==> old(self).chunk_has_voxel(registry@, k),
            final(self).window().loaded_map()[k] is Some
                ==> final(self).window().loaded_map()[k]->0.just_added,
            forall|k2: (i32, i32, i32)| k2 != k
                ==> #[trigger] final(self).window().loaded_map().contains_key(k2)
                        == old(self).window().loaded_map().contains_key(k2)
                    && (old(self).window().loaded_map().contains_key(k2)
                        ==> final(self).window().loaded_map()[k2]
                            == old(self).window().loaded_map()[k2]),
            final(self).registries_ok(final(meshes)@, final(entities)@),
            forall|k2: (i32, i32, i32)|
                #![trigger old(self).window().loaded_map()[k2]]
                k2 != k && old(self).window().loaded_map().contains_key(k2)
                    && old(self).window().loaded_map()[k2] is Some
                    ==> {
                        let c = old(self).window().loaded_map()[k2]->0;
                        &&& final(entities)@[c.entity.id as int]
                            == old(entities)@[c.entity.id as int]
                        &&& final(meshes)@[old(entities)@[c.entity.id as int]->0.mesh_handle.id as int]
                            == old(meshes)@[old(entities)@[c.entity.id as int]->0.mesh_handle.id as int]
                    },
    {
        let prev_opt: Option<Chunk> = match self.chunks.get_chunk(k) {
            Some(c) => Some(*c),
            None => None,
        };
        match prev_opt {
            Some(prev) => {
                if !prev.just_added {
                    match entities.get(&prev.entity) {
                        Some(prev_entity) => {
                            let mh = prev_entity.mesh_handle;
                            meshes.remove(mh);
                            entities.remove(prev.entity);
                        },
                        None => {},
                    }
                    let chunk = self.generate_chunk(registry, k, meshes, entities);
                    self.chunks.set_chunk(k, chunk);
                }
            },
            None => {
                let chunk = self.generate_chunk(registry, k, meshes, entities);
                self.chunks.set_chunk(k, chunk);
            },
        }
    }

    /// Two worlds with the same chunk size, assets and overlay table
    /// composite every chunk identically.
    proof fn lemma_same_composite(
        self, other: World, reg: Seq<Option<VoxelGrid>>, chunk: (i32, i32, i32),
    )
        requires
            self.spec_chunk_size() == other.spec_chunk_size(),
            self.assets_view() == other.assets_view(),
            self.overlay_map() == other.overlay_map(),
        ensures
            forall|x: int, y: int, z: int|
                self.composite_cell(reg, chunk, x, y, z)
                    == other.composite_cell(reg, chunk, x, y, z),
            self.chunk_has_voxel(reg, chunk) == other.chunk_has_voxel(reg, chunk),
    {
        assert forall|x: int, y: int, z: int|
            self.composite_cell(reg, chunk, x, y, z)
                == other.composite_cell(reg, chunk, x, y, z) by {
        }
        if self.chunk_has_voxel(reg, chunk) {
            let (x, y, z) = choose|x: int, y: int, z: int|
                0 <= x < self.spec_chunk_size() && 0 <= y < self.spec_chunk_size()
                    && 0 <= z < self.spec_chunk_size()
                    && #[trigger] self.composite_cell(reg, chunk, x, y, z) is Some;
            assert(other.composite_cell(reg, chunk, x, y, z) is Some);
        }
        if other.chunk_has_voxel(reg, chunk) {
            let (x, y, z) = choose|x: int, y: int, z: int|
                0 <= x < other.spec_chunk_size() && 0 <= y < other.spec_chunk_size()
                    && 0 <= z < other.spec_chunk_size()
                    && #[trigger] other.composite_cell(reg, chunk, x, y, z) is Some;
            assert(self.composite_cell(reg, chunk, x, y, z) is Some);
        }
    }
}

/// Whether the overlaid asset supplies the voxel of a chunk-local cell:
/// the cell lies in the record's target box and the corresponding asset
/// cell is non-empty.
pub open spec fn overlay_patch(rec: OverlayRecord, asset: VoxelGrid, x: int, y: int, z: int) -> Option<u8> {
    if rec.target_offset.0 <= x < rec.target_offset.0 + rec.extent.0
        && rec.target_offset.1 <= y < rec.target_offset.1 + rec.extent.1
        && rec.target_offset.2 <= z < rec.target_offset.2 + rec.extent.2
        && asset.cell(
            rec.source_offset.0 + (x - rec.target_offset.0),
            rec.source_offset.1 + (y - rec.target_offset.1),
            rec.source_offset.2 + (z - rec.target_offset.2),
        ) is Some {
        asset.cell(
            rec.source_offset.0 + (x - rec.target_offset.0),
            rec.source_offset.1 + (y - rec.target_offset.1),
            rec.source_offset.2 + (z - rec.target_offset.2),
        )
    } else {
        None
    }
}

/// Fills a fresh cubic grid from the terrain function, cell by cell.
fn fill_terrain(grid: &mut VoxelGrid, chunk: (i32, i32, i32))
    requires
        old(grid).wf(),
        old(grid).sx() == old(grid).sy() && old(grid).sy() == old(grid).sz(),
        forall|x: int, y: int, z: int| old(grid).in_bounds(x, y, z)
            ==> #[trigger] old(grid).cell(x, y, z) is None,
        -0x10_1000 <= chunk.0 <= 0x10_1000,
        -0x10_1000 <= chunk.1 <= 0x10_1000,
        -0x10_1000 <= chunk.2 <= 0x10_1000,
    ensures
        final(grid).wf(),
        final(grid).sx() == old(grid).sx(),
        final(grid).sy() == old(grid).sy(),
        final(grid).sz() == old(grid).sz(),
        forall|x: int, y: int, z: int| final(grid).in_bounds(x, y, z)
            ==> #[trigger] final(grid).cell(x, y, z) == spec_terrain(
                chunk.0 * final(grid).sx() + x,
                chunk.1 * final(grid).sx() + y,
                chunk.2 * final(grid).sx() + z,
            ),
{
    let cs = grid.x_size();
    proof {
        assert(-0x1100_0000 <= chunk.0 * cs <= 0x1100_0000) by (nonlinear_arith)
            requires
                -0x10_1000 <= chunk.0 <= 0x10_1000,
                1 <= cs <= 256,
        ;
        assert(-0x1100_0000 <= chunk.1 * cs <= 0x1100_0000) by (nonlinear_arith)
            requires
                -0x10_1000 <= chunk.1 <= 0x10_1000,
                1 <= cs <= 256,
        ;
        assert(-0x1100_0000 <= chunk.2 * cs <= 0x1100_0000) by (nonlinear_arith)
            requires
                -0x10_1000 <= chunk.2 <= 0x10_1000,
                1 <= cs <= 256,
        ;
    }
    let base_x: i64 = chunk.0 as i64 * cs as i64;
    let base_y: i64 = chunk.1 as i64 * cs as i64;
    let base_z: i64 = chunk.2 as i64 * cs as i64;
    let mut z: usize = 0;
    while z < cs
        invariant
            grid.wf(),
            grid.sx() == old(grid).sx(),
            grid.sy() == old(grid).sy(),
            grid.sz() == old(grid).sz(),
            cs == grid.sx() && cs == grid.sy() && cs == grid.sz(),
            z <= cs,
            base_x == chunk.0 * cs && base_y == chunk.1 * cs && base_z == chunk.2 * cs,
            -0x1100_0000 <= base_x <= 0x1100_0000,
            -0x1100_0000 <= base_y <= 0x1100_0000,
            -0x1100_0000 <= base_z <= 0x1100_0000,
            forall|i: int, j: int, k: int| grid.in_bounds(i, j, k) && k < z
                ==> #[trigger] grid.cell(i, j, k)
                    == spec_terrain(base_x + i, base_y + j, base_z + k),
            forall|i: int, j: int, k: int| grid.in_bounds(i, j, k) && k >= z
                ==> #[trigger] grid.cell(i, j, k) is None,
        decreases cs - z,
    {
        let mut y: usize = 0;
        while y < cs
            invariant
                grid.wf(),
                grid.sx() == old(grid).sx(),
                grid.sy() == old(grid).sy(),
                grid.sz() == old(grid).sz(),
                cs == grid.sx() && cs == grid.sy() && cs == grid.sz(),
                z < cs,
                y <= cs,
                base_x == chunk.0 * cs && base_y == chunk.1 * cs && base_z == chunk.2 * cs,
                -0x1100_0000 <= base_x <= 0x1100_0000,
                -0x1100_0000 <= base_y <= 0x1100_0000,
                -0x1100_0000 <= base_z <= 0x1100_0000,
                forall|i: int, j: int, k: int| grid.in_bounds(i, j, k) && k < z
                    ==> #[trigger] grid.cell(i, j, k)
                        == spec_terrain(base_x + i, base_y + j, base_z + k),
                forall|i: int, j: int| grid.in_bounds(i, j, z as int) && j < y
                    ==> #[trigger] grid.cell(i, j, z as int)
                        == spec_terrain(base_x + i, base_y + j, base_z + z),
                forall|i: int, j: int, k: int| grid.in_bounds(i, j, k) && k > z
                    ==> #[trigger] grid.cell(i, j, k) is None,
                forall|i: int, j: int| grid.in_bounds(i, j, z as int) && j >= y
                    ==> #[trigger] grid.cell(i, j, z as int) is None,
            decreases cs - y,
        {
            let mut x: usize = 0;
            while x < cs
                invariant
                    grid.wf(),
                    grid.sx() == old(grid).sx(),
                    grid.sy() == old(grid).sy(),
                    grid.sz() == old(grid).sz(),
                    cs == grid.sx() && cs == grid.sy() && cs == grid.sz(),
                    z < cs,
                    y < cs,
                    x <= cs,
                    base_x == chunk.0 * cs && base_y == chunk.1 * cs && base_z == chunk.2 * cs,
                    -0x1100_0000 <= base_x <= 0x1100_0000,
                    -0x1100_0000 <= base_y <= 0x1100_0000,
                    -0x1100_0000 <= base_z <= 0x1100_0000,
                    forall|i: int, j: int, k: int| grid.in_bounds(i, j, k) && k < z
                        ==> #[trigger] grid.cell(i, j, k)
                            == spec_terrain(base_x + i, base_y + j, base_z + k),
                    forall|i: int, j: int| grid.in_bounds(i, j, z as int) && j < y
                        ==> #[trigger] grid.cell(i, j, z as int)
                            == spec_terrain(base_x + i, base_y + j, base_z + z),
                    forall|i: int| grid.in_bounds(i, y as int, z as int) && i < x
                        ==> #[trigger] grid.cell(i, y as int, z as int)
                            == spec_terrain(base_x + i, base_y + y, base_z + z),
                    forall|i: int, j: int, k: int| grid.in_bounds(i, j, k) && k > z
                        ==> #[trigger] grid.cell(i, j, k) is None,
                    forall|i: int, j: int| grid.in_bounds(i, j, z as int) && j > y
                        ==> #[trigger] grid.cell(i, j, z as int) is None,
                    forall|i: int| grid.in_bounds(i, y as int, z as int) && i >= x
                        ==> #[trigger] grid.cell(i, y as int, z as int) is None,
                decreases cs - x,
            {
                let wx: i64 = base_x + x as i64;
                let wy: i64 = base_y + y as i64;
                let wz: i64 = base_z + z as i64;
                match terrain_voxel(wx, wy, wz) {
                    Some(c) => {
                        grid.set(x, y, z, c);
                    },
                    None => {},
                }
                x = x + 1;
            }
            y = y + 1;
        }
        z = z + 1;
    }
}

/// Copies the non-empty cells of an asset's sub-box into a chunk grid;
/// empty asset cells leave the grid's cells as they were.
fn apply_overlay(grid: &mut VoxelGrid, rec: OverlayRecord, asset: &VoxelGrid)
    requires
        old(grid).wf(),
        asset.wf(),
        rec.target_offset.0 + rec.extent.0 <= old(grid).sx(),
        rec.target_offset.1 + rec.extent.1 <= old(grid).sy(),
        rec.target_offset.2 + rec.extent.2 <= old(grid).sz(),
        rec.source_offset.0 + rec.extent.0 <= asset.sx(),
        rec.source_offset.1 + rec.extent.1 <= asset.sy(),
        rec.source_offset.2 + rec.extent.2 <= asset.sz(),
    ensures
        final(grid).wf(),
        final(grid).sx() == old(grid).sx(),
        final(grid).sy() == old(grid).sy(),
        final(grid).sz() == old(grid).sz(),
        forall|x: int, y: int, z: int| final(grid).in_bounds(x, y, z)
            ==> #[trigger] final(grid).cell(x, y, z) == (
                if overlay_patch(rec, *asset, x, y, z) is Some {
                    overlay_patch(rec, *asset, x, y, z)
                } else {
                    old(grid).cell(x, y, z)
                }),
{
    let (tx, ty, tz) = rec.target_offset;
    let (sx, sy, sz) = rec.source_offset;
    let (ex, ey, ez) = rec.extent;
    let mut dz: usize = 0;
    while dz < ez
        invariant
            grid.wf(),
            asset.wf(),
            grid.sx() == old(grid).sx(),
            grid.sy() == old(grid).sy(),
            grid.sz() == old(grid).sz(),
            tx == rec.target_offset.0 && ty == rec.target_offset.1 && tz == rec.target_offset.2,
            sx == rec.source_offset.0 && sy == rec.source_offset.1 && sz == rec.source_offset.2,
            ex == rec.extent.0 && ey == rec.extent.1 && ez == rec.extent.2,
            tx + ex <= grid.sx() && ty + ey <= grid.sy() && tz + ez <= grid.sz(),
            sx + ex <= asset.sx() && sy + ey <= asset.sy() && sz + ez <= asset.sz(),
            dz <= ez,
            forall|x: int, y: int, z: int| grid.in_bounds(x, y, z) && z < tz + dz
                ==> #[trigger] grid.cell(x, y, z) == (
                    if overlay_patch(rec, *asset, x, y, z) is Some {
                        overlay_patch(rec, *asset, x, y, z)
                    } else {
                        old(grid).cell(x, y, z)
                    }),
            forall|x: int, y: int, z: int| grid.in_bounds(x, y, z) && z >= tz + dz
                ==> #[trigger] grid.cell(x, y, z) == old(grid).cell(x, y, z),
        decreases ez - dz,
    {
        let mut dy: usize = 0;
        while dy < ey
            invariant
                grid.wf(),
                asset.wf(),
                grid.sx() == old(grid).sx(),
                grid.sy() == old(grid).sy(),
                grid.sz() == old(grid).sz(),
                tx == rec.target_offset.0 && ty == rec.target_offset.1 && tz == rec.target_offset.2,
                sx == rec.source_offset.0 && sy == rec.source_offset.1 && sz == rec.source_offset.2,
                ex == rec.extent.0 && ey == rec.extent.1 && ez == rec.extent.2,
                tx + ex <= grid.sx() && ty + ey <= grid.sy() && tz + ez <= grid.sz(),
                sx + ex <= asset.sx() && sy + ey <= asset.sy() && sz + ez <= asset.sz(),
                dz < ez,
                dy <= ey,
                forall|x: int, y: int, z: int| grid.in_bounds(x, y, z) && z < tz + dz
                    ==> #[trigger] grid.cell(x, y, z) == (
                        if overlay_patch(rec, *asset, x, y, z) is Some {
                            overlay_patch(rec, *asset, x, y, z)
                        } else {
                            old(grid).cell(x, y, z)
                        }),
                forall|x: int, y: int| grid.in_bounds(x, y, (tz + dz) as int) && y < ty + dy
                    ==> #[trigger] grid.cell(x, y, (tz + dz) as int) == (
                        if overlay_patch(rec, *asset, x, y, (tz + dz) as int) is Some {
                            overlay_patch(rec, *asset, x, y, (tz + dz) as int)
                        } else {
                            old(grid).cell(x, y, (tz + dz) as int)
                        }),
                forall|x: int, y: int, z: int| grid.in_bounds(x, y, z) && z > tz + dz
                    ==> #[trigger] grid.cell(x, y, z) == old(grid).cell(x, y, z),
                forall|x: int, y: int| grid.in_bounds(x, y, (tz + dz) as int) && y >= ty + dy
                    ==> #[trigger] grid.cell(x, y, (tz + dz) as int)
                        == old(grid).cell(x, y, (tz + dz) as int),
            decreases ey - dy,
        {
            let mut dx: usize = 0;
            while dx < ex
                invariant
                    grid.wf(),
                    asset.wf(),
                    grid.sx() == old(grid).sx(),
                    grid.sy() == old(grid).sy(),
                    grid.sz() == old(grid).sz(),
                    tx == rec.target_offset.0 && ty == rec.target_offset.1 && tz == rec.target_offset.2,
                    sx == rec.source_offset.0 && sy == rec.source_offset.1 && sz == rec.source_offset.2,
                    ex == rec.extent.0 && ey == rec.extent.1 && ez == rec.extent.2,
                    tx + ex <= grid.sx() && ty + ey <= grid.sy() && tz + ez <= grid.sz(),
                    sx + ex <= asset.sx() && sy + ey <= asset.sy() && sz + ez <= asset.sz(),
                    dz < ez,
                    dy < ey,
                    dx <= ex,
                    forall|x: int, y: int, z: int| grid.in_bounds(x, y, z) && z < tz + dz
                        ==> #[trigger] grid.cell(x, y, z) == (
                            if overlay_patch(rec, *asset, x, y, z) is Some {
                                overlay_patch(rec, *asset, x, y, z)
                            } else {
                                old(grid).cell(x, y, z)
                            }),
                    forall|x: int, y: int| grid.in_bounds(x, y, (tz + dz) as int) && y < ty + dy
                        ==> #[trigger] grid.cell(x, y, (tz + dz) as int) == (
                            if overlay_patch(rec, *asset, x, y, (tz + dz) as int) is Some {
                                overlay_patch(rec, *asset, x, y, (tz + dz) as int)
                            } else {
                                old(grid).cell(x, y, (tz + dz) as int)
                            }),
                    forall|x: int| grid.in_bounds(x, (ty + dy) as int, (tz + dz) as int) && x < tx + dx
                        ==> #[trigger] grid.cell(x, (ty + dy) as int, (tz + dz) as int) == (
                            if overlay_patch(rec, *asset, x, (ty + dy) as int, (tz + dz) as int) is Some {
                                overlay_patch(rec, *asset, x, (ty + dy) as int, (tz + dz) as int)
                            } else {
                                old(grid).cell(x, (ty + dy) as int, (tz + dz) as int)
                            }),
                    forall|x: int, y: int, z: int| grid.in_bounds(x, y, z) && z > tz + dz
                        ==> #[trigger] grid.cell(x, y, z) == old(grid).cell(x, y, z),
                    forall|x: int, y: int| grid.in_bounds(x, y, (tz + dz) as int) && y > ty + dy
                        ==> #[trigger] grid.cell(x, y, (tz + dz) as int)
                            == old(grid).cell(x, y, (tz + dz) as int),
                    forall|x: int| grid.in_bounds(x, (ty + dy) as int, (tz + dz) as int) && x >= tx + dx
                        ==> #[trigger] grid.cell(x, (ty + dy) as int, (tz + dz) as int)
                            == old(grid).cell(x, (ty + dy) as int, (tz + dz) as int),
                decreases ex - dx,
            {
                match asset.get(sx + dx, sy + dy, sz + dz) {
                    Some(c) => {
                        grid.set(tx + dx, ty + dy, tz + dz, c);
                    },
                    None => {},
                }
                dx = dx + 1;
            }
            dy = dy + 1;
        }
        dz = dz + 1;
    }
}

/// Whether some segment of a per-axis walk lands in chunk index `c`.
pub open spec fn covers(s: Seq<AxisSegment>, c: int) -> bool {
    s.len() > 0 && 0 <= c - s[0].chunk < s.len()
}

/// The walk segment that lands in chunk index `c`.
pub open spec fn seg_for(s: Seq<AxisSegment>, c: int) -> AxisSegment {
    s[c - s[0].chunk]
}

/// The overlay record that the cross product of three per-axis walks
/// prescribes for chunk coordinate `k`.
pub open spec fn record_for(
    asset_index: usize,
    xs: Seq<AxisSegment>,
    ys: Seq<AxisSegment>,
    zs: Seq<AxisSegment>,
    k: (i32, i32, i32),
) -> OverlayRecord {
    OverlayRecord {
        asset_index,
        source_offset: (seg_for(xs, k.0 as int).source, seg_for(ys, k.1 as int).source,
            seg_for(zs, k.2 as int).source),
        target_offset: (seg_for(xs, k.0 as int).target, seg_for(ys, k.1 as int).target,
            seg_for(zs, k.2 as int).target),
        extent: (seg_for(xs, k.0 as int).len, seg_for(ys, k.1 as int).len,
            seg_for(zs, k.2 as int).len),
    }
}

/// Inserts one overlay record for every chunk coordinate in the cross
/// product of three per-axis walks; records at other coordinates stay.
#[verifier::rlimit(100)]
fn insert_overlay_block(
    table: &mut CoordMap<OverlayRecord>,
    asset_index: usize,
    segs_x: &Vec<AxisSegment>,
    segs_y: &Vec<AxisSegment>,
    segs_z: &Vec<AxisSegment>,
)
    requires
        old(table).wf(),
        forall|i: int| 0 <= i < segs_x@.len()
            ==> (#[trigger] segs_x@[i]).chunk == segs_x@[0].chunk + i,
        forall|i: int| 0 <= i < segs_y@.len()
            ==> (#[trigger] segs_y@[i]).chunk == segs_y@[0].chunk + i,
        forall|i: int| 0 <= i < segs_z@.len()
            ==> (#[trigger] segs_z@[i]).chunk == segs_z@[0].chunk + i,
    ensures
        final(table).wf(),
        forall|k: (i32, i32, i32)|
            covers(segs_x@, k.0 as int) && covers(segs_y@, k.1 as int)
                && covers(segs_z@, k.2 as int)
                ==> #[trigger] final(table)@.contains_key(k)
                    && final(table)@[k] == record_for(asset_index, segs_x@, segs_y@, segs_z@, k),
        forall|k: (i32, i32, i32)|
            !(covers(segs_x@, k.0 as int) && covers(segs_y@, k.1 as int)
                && covers(segs_z@, k.2 as int))
                ==> #[trigger] final(table)@.contains_key(k) == old(table)@.contains_key(k)
                    && (old(table)@.contains_key(k) ==> final(table)@[k] == old(table)@[k]),
{
    let nx = segs_x.len();
    let ny = segs_y.len();
    let nz = segs_z.len();
    let ghost xs = segs_x@;
    let ghost ys = segs_y@;
    let ghost zs = segs_z@;
    let mut iz: usize = 0;
    while iz < nz
        invariant
            table.wf(),
            nx == xs.len() && ny == ys.len() && nz == zs.len(),
            xs == segs_x@ && ys == segs_y@ && zs == segs_z@,
            forall|i: int| 0 <= i < xs.len() ==> (#[trigger] xs[i]).chunk == xs[0].chunk + i,
            forall|i: int| 0 <= i < ys.len() ==> (#[trigger] ys[i]).chunk == ys[0].chunk + i,
            forall|i: int| 0 <= i < zs.len() ==> (#[trigger] zs[i]).chunk == zs[0].chunk + i,
            iz <= nz,
            forall|k: (i32, i32, i32)|
                covers(xs, k.0 as int) && covers(ys, k.1 as int)
                    && zs.len() > 0 && 0 <= k.2 - zs[0].chunk < iz
                    ==> #[trigger] table@.contains_key(k)
                        && table@[k] == record_for(asset_index, xs, ys, zs, k),
            forall|k: (i32, i32, i32)|
                !(covers(xs, k.0 as int) && covers(ys, k.1 as int)
                    && zs.len() > 0 && 0 <= k.2 - zs[0].chunk < iz)
                    ==> #[trigger] table@.contains_key(k) == old(table)@.contains_key(k)
                        && (old(table)@.contains_key(k) ==> table@[k] == old(table)@[k]),
        decreases nz - iz,
    {
        let sz = segs_z[iz];
        let mut iy: usize = 0;
        while iy < ny
            invariant
                table.wf(),
                nx == xs.len() && ny == ys.len() && nz == zs.len(),
                xs == segs_x@ && ys == segs_y@ && zs == segs_z@,
                forall|i: int| 0 <= i < xs.len() ==> (#[trigger] xs[i]).chunk == xs[0].chunk + i,
                forall|i: int| 0 <= i < ys.len() ==> (#[trigger] ys[i]).chunk == ys[0].chunk + i,
                forall|i: int| 0 <= i < zs.len() ==> (#[trigger] zs[i]).chunk == zs[0].chunk + i,
                iz < nz,
                iy <= ny,
                sz == zs[iz as int],
                forall|k: (i32, i32, i32)|
                    covers(xs, k.0 as int) && covers(ys, k.1 as int)
                        && 0 <= k.2 - zs[0].chunk < iz
                        ==> #[trigger] table@.contains_key(k)
                            && table@[k] == record_for(asset_index, xs, ys, zs, k),
                forall|k: (i32, i32, i32)|
                    covers(xs, k.0 as int) && k.2 == sz.chunk
                        && ys.len() > 0 && 0 <= k.1 - ys[0].chunk < iy
                        ==> #[trigger] table@.contains_key(k)
                            && table@[k] == record_for(asset_index, xs, ys, zs, k),
                forall|k: (i32, i32, i32)|
                    !(covers(xs, k.0 as int) && covers(ys, k.1 as int)
                        && 0 <= k.2 - zs[0].chunk < iz)
                        && !(covers(xs, k.0 as int) && k.2 == sz.chunk
                            && ys.len() > 0 && 0 <= k.1 - ys[0].chunk < iy)
                        ==> #[trigger] table@.contains_key(k) == old(table)@.contains_key(k)
                            && (old(table)@.contains_key(k) ==> table@[k] == old(table)@[k]),
            decreases ny - iy,
        {
            let sy = segs_y[iy];
            let mut ix: usize = 0;
            while ix < nx
                invariant
                    table.wf(),
                    nx == xs.len() && ny == ys.len() && nz == zs.len(),
                    xs == segs_x@ && ys == segs_y@ && zs == segs_z@,
                    forall|i: int| 0 <= i < xs.len() ==> (#[trigger] xs[i]).chunk == xs[0].chunk + i,
                    forall|i: int| 0 <= i < ys.len() ==> (#[trigger] ys[i]).chunk == ys[0].chunk + i,
                    forall|i: int| 0 <= i < zs.len() ==> (#[trigger] zs[i]).chunk == zs[0].chunk + i,
                    iz < nz,
                    iy < ny,
                    ix <= nx,
                    sz == zs[iz as int],
                    sy == ys[iy as int],
                    forall|k: (i32, i32, i32)|
                        covers(xs, k.0 as int) && covers(ys, k.1 as int)
                            && 0 <= k.2 - zs[0].chunk < iz
                            ==> #[trigger] table@.contains_key(k)
                                && table@[k] == record_for(asset_index, xs, ys, zs, k),
                    forall|k: (i32, i32, i32)|
                        covers(xs, k.0 as int) && k.2 == sz.chunk
                            && 0 <= k.1 - ys[0].chunk < iy
                            ==> #[trigger] table@.contains_key(k)
                                && table@[k] == record_for(asset_index, xs, ys, zs, k),
                    forall|k: (i32, i32, i32)|
                        k.2 == sz.chunk && k.1 == sy.chunk
                            && xs.len() > 0 && 0 <= k.0 - xs[0].chunk < ix
                            ==> #[trigger] table@.contains_key(k)
                                && table@[k] == record_for(asset_index, xs, ys, zs, k),
                    forall|k: (i32, i32, i32)|
                        !(covers(xs, k.0 as int) && covers(ys, k.1 as int)
                            && 0 <= k.2 - zs[0].chunk < iz)
                            && !(covers(xs, k.0 as int) && k.2 == sz.chunk
                                && 0 <= k.1 - ys[0].chunk < iy)
                            && !(k.2 == sz.chunk && k.1 == sy.chunk
                                && xs.len() > 0 && 0 <= k.0 - xs[0].chunk < ix)
                            ==> #[trigger] table@.contains_key(k) == old(table)@.contains_key(k)
                                && (old(table)@.contains_key(k) ==> table@[k] == old(table)@[k]),
                decreases nx - ix,
            {
                let sx = segs_x[ix];
                let rec = OverlayRecord {
                    asset_index,
                    source_offset: (sx.source, sy.source, sz.source),
                    target_offset: (sx.target, sy.target, sz.target),
                    extent: (sx.len, sy.len, sz.len),
                };
                let key = (sx.chunk, sy.chunk, sz.chunk);
                let ghost pre = table@;
                table.insert(key, rec);
                proof {
                    assert(xs[ix as int].chunk == xs[0].chunk + ix);
                    assert(ys[iy as int].chunk == ys[0].chunk + iy);
                    assert(zs[iz as int].chunk == zs[0].chunk + iz);
                    assert forall|k: (i32, i32, i32)|
                        covers(xs, k.0 as int) && covers(ys, k.1 as int)
                            && 0 <= k.2 - zs[0].chunk < iz
                            implies #[trigger] table@.contains_key(k)
                                && table@[k] == record_for(asset_index, xs, ys, zs, k) by {
                        if k != key {
                            assert(pre.contains_key(k));
                            assert(pre[k] == record_for(asset_index, xs, ys, zs, k));
                        }
                    }
                    assert forall|k: (i32, i32, i32)|
                        covers(xs, k.0 as int) && k.2 == sz.chunk
                            && 0 <= k.1 - ys[0].chunk < iy
                            implies #[trigger] table@.contains_key(k)
                                && table@[k] == record_for(asset_index, xs, ys, zs, k) by {
                        if k != key {
                            assert(pre.contains_key(k));
                            assert(pre[k] == record_for(asset_index, xs, ys, zs, k));
                        }
                    }
                    assert forall|k: (i32, i32, i32)|
                        k.2 == sz.chunk && k.1 == sy.chunk
                            && xs.len() > 0 && 0 <= k.0 - xs[0].chunk < ix + 1
                            implies #[trigger] table@.contains_key(k)
                                && table@[k] == record_for(asset_index, xs, ys, zs, k) by {
                        if k != key {
                            assert(k.0 - xs[0].chunk < ix);
                            assert(pre.contains_key(k));
                            assert(pre[k] == record_for(asset_index, xs, ys, zs, k));
                        } else {
                            assert(seg_for(xs, k.0 as int) == sx);
                            assert(seg_for(ys, k.1 as int) == sy);
                            assert(seg_for(zs, k.2 as int) == sz);
                        }
                    }
                    assert forall|k: (i32, i32, i32)|
                        !(covers(xs, k.0 as int) && covers(ys, k.1 as int)
                            && 0 <= k.2 - zs[0].chunk < iz)
                            && !(covers(xs, k.0 as int) && k.2 == sz.chunk
                                && 0 <= k.1 - ys[0].chunk < iy)
                            && !(k.2 == sz.chunk && k.1 == sy.chunk
                                && xs.len() > 0 && 0 <= k.0 - xs[0].chunk < ix + 1)
                            implies #[trigger] table@.contains_key(k)
                                    == old(table)@.contains_key(k)
                                && (old(table)@.contains_key(k)
                                    ==> table@[k] == old(table)@[k]) by {
                        assert(k != key);
                        assert(pre.contains_key(k) == old(table)@.contains_key(k));
                        assert(old(table)@.contains_key(k) ==> pre[k] == old(table)@[k]);
                    }
                }
                ix = ix + 1;
            }
            iy = iy + 1;
        }
        iz = iz + 1;
    }
}

} // verus!
