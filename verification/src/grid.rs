//! A dense cubic voxel grid of optional color indices, plus a `touched`
//! flag that records whether any cell was ever written.

use vstd::prelude::*;

verus! {

/// Largest edge length a grid may have.  Keeps every index computation and
/// every vertex coordinate produced by the mesher comfortably inside the
/// machine integer ranges.
pub const MAX_GRID_SIZE: usize = 256;

/// Dense 3D array of `Option<u8>` color indices.  `None` is empty space.
/// `touched` is true exactly when some cell is non-empty: cells are only
/// ever written non-empty, so one write sets it for good.
pub struct VoxelGrid {
    data: Vec<Option<u8>>,
    x_size: usize,
    y_size: usize,
    z_size: usize,
    touched: bool,
}

/// Flat index of cell `(x, y, z)` in a grid with edge sizes `sx`, `sy`.
pub open spec fn cell_index(x: int, y: int, z: int, sx: int, sy: int) -> int {
    (z * sy + y) * sx + x
}

pub proof fn lemma_cell_index_bound(x: int, y: int, z: int, sx: int, sy: int, sz: int)
    by (nonlinear_arith)
    requires
        0 <= x < sx,
        0 <= y < sy,
        0 <= z < sz,
    ensures
        0 <= cell_index(x, y, z, sx, sy) < sx * sy * sz,
{
}

pub proof fn lemma_cell_index_injective(
    x1: int, y1: int, z1: int,
    x2: int, y2: int, z2: int,
    sx: int, sy: int,
)
    by (nonlinear_arith)
    requires
        0 <= x1 < sx,
        0 <= y1 < sy,
        0 <= x2 < sx,
        0 <= y2 < sy,
        0 <= z1,
        0 <= z2,
        cell_index(x1, y1, z1, sx, sy) == cell_index(x2, y2, z2, sx, sy),
    ensures
        x1 == x2 && y1 == y2 && z1 == z2,
{
}

impl VoxelGrid {
    pub closed spec fn sx(self) -> int {
        self.x_size as int
    }

    pub closed spec fn sy(self) -> int {
        self.y_size as int
    }

    pub closed spec fn sz(self) -> int {
        self.z_size as int
    }

    pub closed spec fn spec_touched(self) -> bool {
        self.touched
    }

    /// The color of cell `(x, y, z)`; meaningful only in bounds.
    pub closed spec fn cell(self, x: int, y: int, z: int) -> Option<u8> {
        self.data@[cell_index(x, y, z, self.sx(), self.sy())]
    }

    pub open spec fn in_bounds(self, x: int, y: int, z: int) -> bool {
        0 <= x < self.sx() && 0 <= y < self.sy() && 0 <= z < self.sz()
    }

    /// The backing vector matches the dimensions.
    pub closed spec fn storage_inv(self) -> bool {
        self.data@.len() == self.sx() * self.sy() * self.sz()
    }

    /// Some cell of the grid is non-empty.
    pub open spec fn has_voxel(self) -> bool {
        exists|x: int, y: int, z: int|
            self.in_bounds(x, y, z) && #[trigger] self.cell(x, y, z) is Some
    }

    /// Well-formedness: the backing vector matches the dimensions, the
    /// dimensions are modest, and `touched` is true exactly when some cell
    /// is non-empty.
    pub open spec fn wf(self) -> bool {
        &&& self.storage_inv()
        &&& 0 < self.sx() <= MAX_GRID_SIZE as int
        &&& 0 < self.sy() <= MAX_GRID_SIZE as int
        &&& 0 < self.sz() <= MAX_GRID_SIZE as int
        &&& (self.spec_touched() <==> self.has_voxel())
    }

    /// An untouched, all-empty grid of the given dimensions.
    pub fn new(x_size: usize, y_size: usize, z_size: usize) -> (g: Self)
        requires
            0 < x_size <= MAX_GRID_SIZE,
            0 < y_size <= MAX_GRID_SIZE,
            0 < z_size <= MAX_GRID_SIZE,
        ensures
            g.wf(),
            g.sx() == x_size,
            g.sy() == y_size,
            g.sz() == z_size,
            !g.spec_touched(),
            forall|x: int, y: int, z: int| g.in_bounds(x, y, z) ==> #[trigger] g.cell(x, y, z) is None,
    {
        proof {
            assert(x_size * y_size <= 0x10000 && x_size * y_size * z_size <= 0x1000000)
                by (nonlinear_arith)
                requires
                    0 < x_size <= 256,
                    0 < y_size <= 256,
                    0 < z_size <= 256,
            ;
        }
        let total: usize = x_size * y_size * z_size;
        let mut data: Vec<Option<u8>> = Vec::new();
        let mut i: usize = 0;
        while i < total
            invariant
                data@.len() == i,
                i <= total,
                forall|k: int| 0 <= k < i ==> data@[k] is None,
            decreases total - i,
        {
            data.push(None);
            i = i + 1;
        }
        let g = VoxelGrid { data, x_size, y_size, z_size, touched: false };
        proof {
            assert forall|x: int, y: int, z: int| g.in_bounds(x, y, z)
                implies #[trigger] g.cell(x, y, z) is None by {
                lemma_cell_index_bound(x, y, z, g.sx(), g.sy(), g.sz());
            }
        }
        g
    }

    pub fn x_size(&self) -> (n: usize)
        ensures
            n == self.sx(),
    {
        self.x_size
    }

    pub fn y_size(&self) -> (n: usize)
        ensures
            n == self.sy(),
    {
        self.y_size
    }

    pub fn z_size(&self) -> (n: usize)
        ensures
            n == self.sz(),
    {
        self.z_size
    }

    pub fn touched(&self) -> (t: bool)
        ensures
            t == self.spec_touched(),
    {
        self.touched
    }

    /// Flat index of an in-bounds cell, proved to land inside the backing
    /// vector.
    fn flat_index(&self, x: usize, y: usize, z: usize) -> (idx: usize)
        requires
            self.wf(),
            self.in_bounds(x as int, y as int, z as int),
        ensures
            idx == cell_index(x as int, y as int, z as int, self.sx(), self.sy()),
            idx < self.data@.len(),
    {
        proof {
            lemma_cell_index_bound(x as int, y as int, z as int, self.sx(), self.sy(), self.sz());
            assert(z * self.y_size <= 0xFF00) by (nonlinear_arith)
                requires
                    z < self.z_size,
                    self.z_size <= 256,
                    self.y_size <= 256,
            ;
            assert((z * self.y_size + y) * self.x_size <= 0x10000 * 256) by (nonlinear_arith)
                requires
                    z * self.y_size + y <= 0x10000,
                    self.x_size <= 256,
            ;
        }
        (z * self.y_size + y) * self.x_size + x
    }

    /// Reads one cell.
    pub fn get(&self, x: usize, y: usize, z: usize) -> (r: Option<u8>)
        requires
            self.wf(),
            self.in_bounds(x as int, y as int, z as int),
        ensures
            r == self.cell(x as int, y as int, z as int),
    {
        let idx: usize = self.flat_index(x, y, z);
        self.data[idx]
    }

    /// Writes one cell non-empty and marks the grid touched.
    pub fn set(&mut self, x: usize, y: usize, z: usize, color: u8)
        requires
            old(self).wf(),
            old(self).in_bounds(x as int, y as int, z as int),
        ensures
            final(self).wf(),
            final(self).sx() == old(self).sx(),
            final(self).sy() == old(self).sy(),
            final(self).sz() == old(self).sz(),
            final(self).spec_touched(),
            final(self).cell(x as int, y as int, z as int) == Some(color),
            forall|i: int, j: int, k: int|
                old(self).in_bounds(i, j, k) && (i != x || j != y || k != z)
                    ==> #[trigger] final(self).cell(i, j, k) == old(self).cell(i, j, k),
    {
        let idx: usize = self.flat_index(x, y, z);
        self.data.set(idx, Some(color));
        self.touched = true;
        proof {
            let g = *self;
            let o = *old(self);
            assert forall|i: int, j: int, k: int|
                o.in_bounds(i, j, k) && (i != x || j != y || k != z)
                    implies #[trigger] g.cell(i, j, k) == o.cell(i, j, k) by {
                lemma_cell_index_bound(i, j, k, o.sx(), o.sy(), o.sz());
                if cell_index(i, j, k, o.sx(), o.sy()) == idx {
                    lemma_cell_index_injective(
                        i, j, k, x as int, y as int, z as int, o.sx(), o.sy(),
                    );
                }
            }
            assert(g.cell(x as int, y as int, z as int) is Some);
        }
    }
}

} // verus!
