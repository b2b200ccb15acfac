//! Greedy surface meshing: turns a composited voxel grid into a quad mesh
//! holding only visible faces, merging neighboring same-color faces into
//! maximal rectangles.
//!
//! The six face orientations are plain-data descriptors consumed by one
//! scanning routine: for each slice along the scan axis a 2D mask of
//! visible face colors is built, then greedily merged into rectangles,
//! each emitted as four vertices and two triangles.

use vstd::prelude::*;
use crate::grid::VoxelGrid;

verus! {

/// One face orientation: `u` is the scan axis, `v` and `w` span the
/// slice plane, `step` is the scan direction along `u`, `normal` the unit
/// step along `u` in that direction, and `q` the corner offset applied
/// along `u` when placing quads.
#[derive(Clone, Copy, PartialEq, Eq, Debug)]
pub struct Descriptor {
    pub u: usize,
    pub v: usize,
    pub w: usize,
    pub step: i32,
    pub normal: (i32, i32, i32),
    pub q: (i32, i32, i32),
}

impl Descriptor {
    /// A valid face descriptor: the three axes are a permutation of the
    /// world axes, the step is one of the two directions, the normal is
    /// the step taken along `u`, and the corner offset is one cell along
    /// `u` exactly for the negative direction.
    pub open spec fn wf(self) -> bool {
        &&& self.u < 3 && self.v < 3 && self.w < 3
        &&& self.u != self.v && self.u != self.w && self.v != self.w
        &&& (self.step == 1 || self.step == -1)
        &&& self.normal.0 == if self.u == 0 { self.step as int } else { 0 }
        &&& self.normal.1 == if self.u == 1 { self.step as int } else { 0 }
        &&& self.normal.2 == if self.u == 2 { self.step as int } else { 0 }
        &&& self.q.0 == if self.step == 1 { 0int } else { 1 }
        &&& self.q.1 == 0 && self.q.2 == 0
    }

    pub fn new(u: usize, v: usize, w: usize, step: i32, normal: (i32, i32, i32), q: (i32, i32, i32))
        -> (d: Self)
        ensures
            d == (Descriptor { u, v, w, step, normal, q }),
    {
        Self { u, v, w, step, normal, q }
    }
}

/// The grid's edge length along a world axis.
pub open spec fn g_size(g: VoxelGrid, axis: int) -> int {
    if axis == 0 {
        g.sx()
    } else if axis == 1 {
        g.sy()
    } else {
        g.sz()
    }
}

fn axis_size(g: &VoxelGrid, axis: usize) -> (n: usize)
    requires
        axis < 3,
    ensures
        n == g_size(*g, axis as int),
{
    if axis == 0 {
        g.x_size()
    } else if axis == 1 {
        g.y_size()
    } else {
        g.z_size()
    }
}

/// World-axis component of the cell a slice scan visits: `slice` on the
/// scan axis, the two in-plane coordinates on the others.
pub open spec fn coord_at(d: Descriptor, slice: int, cv: int, cw: int, axis: int) -> int {
    if axis == d.u {
        slice
    } else if axis == d.v {
        cv
    } else {
        cw
    }
}

fn coord_at_exec(d: &Descriptor, slice: usize, cv: usize, cw: usize, axis: usize) -> (r: usize)
    requires
        axis < 3,
    ensures
        r == coord_at(*d, slice as int, cv as int, cw as int, axis as int),
{
    if axis == d.u {
        slice
    } else if axis == d.v {
        cv
    } else {
        cw
    }
}

/// The face color a mask cell holds: the voxel's color if the voxel is
/// non-empty and not occluded by a same-colored neighbor one step
/// backward along the scan direction; `None` otherwise.  A differently
/// colored neighbor does not occlude.
pub open spec fn visible_cell(g: VoxelGrid, d: Descriptor, x: int, y: int, z: int) -> Option<u8> {
    let cur = g.cell(x, y, z);
    let bx = x - d.normal.0;
    let by = y - d.normal.1;
    let bz = z - d.normal.2;
    if cur is None {
        None
    } else if g.in_bounds(bx, by, bz) && g.cell(bx, by, bz) == cur {
        None
    } else {
        cur
    }
}

/// The mask value at in-plane position `(cv, cw)` of a slice.
pub open spec fn mask_spec(g: VoxelGrid, d: Descriptor, slice: int, cv: int, cw: int) -> Option<u8> {
    visible_cell(
        g, d,
        coord_at(d, slice, cv, cw, 0),
        coord_at(d, slice, cv, cw, 1),
        coord_at(d, slice, cv, cw, 2),
    )
}

/// 2D mask of `Option<u8>` face colors for one slice.
pub struct Mask {
    data: Vec<Option<u8>>,
    size_x: usize,
    size_y: usize,
}

impl Mask {
    pub closed spec fn sx(self) -> int {
        self.size_x as int
    }

    pub closed spec fn sy(self) -> int {
        self.size_y as int
    }

    pub closed spec fn at(self, x: int, y: int) -> Option<u8> {
        self.data@[y * self.sx() + x]
    }

    pub closed spec fn wf(self) -> bool {
        &&& self.data@.len() == self.sx() * self.sy()
        &&& 0 < self.size_x <= 256
        &&& 0 < self.size_y <= 256
    }

    pub fn new(size_x: usize, size_y: usize) -> (m: Self)
        requires
            0 < size_x <= 256,
            0 < size_y <= 256,
        ensures
            m.wf(),
            m.sx() == size_x,
            m.sy() == size_y,
            forall|x: int, y: int| 0 <= x < size_x && 0 <= y < size_y ==> #[trigger] m.at(x, y) is None,
    {
        proof {
            assert(size_x * size_y <= 0x10000) by (nonlinear_arith)
                requires
                    size_x <= 256,
                    size_y <= 256,
            ;
        }
        let total: usize = size_x * size_y;
        let mut data: Vec<Option<u8>> = Vec::new();
        let mut i: usize = 0;
        while i < total
            invariant
                data@.len() == i,
                i <= total,
                forall|k: int| 0 <= k < i ==> data@[k] is None,
            decreases total - i,
        {
            data.push(None);
            i = i + 1;
        }
        let m = Mask { data, size_x, size_y };
        proof {
            assert forall|x: int, y: int| 0 <= x < size_x && 0 <= y < size_y
                implies #[trigger] m.at(x, y) is None by {
                lemma_mask_index(x, y, m.sx(), m.sy());
            }
        }
        m
    }

    fn index_of(&self, x: usize, y: usize) -> (idx: usize)
        requires
            self.wf(),
            x < self.sx(),
            y < self.sy(),
        ensures
            idx == y * self.sx() + x,
            idx < self.data@.len(),
    {
        proof {
            lemma_mask_index(x as int, y as int, self.sx(), self.sy());
            assert(y * self.size_x <= 0xFF00) by (nonlinear_arith)
                requires
                    y < self.size_y,
                    self.size_y <= 256,
                    self.size_x <= 256,
            ;
        }
        y * self.size_x + x
    }

    /// Writes one mask cell.
    pub fn set(&mut self, x: usize, y: usize, color_id: Option<u8>)
        requires
            old(self).wf(),
            x < old(self).sx(),
            y < old(self).sy(),
        ensures
            final(self).wf(),
            final(self).sx() == old(self).sx(),
            final(self).sy() == old(self).sy(),
            final(self).at(x as int, y as int) == color_id,
            forall|i: int, j: int|
                0 <= i < old(self).sx() && 0 <= j < old(self).sy() && (i != x || j != y)
                    ==> #[trigger] final(self).at(i, j) == old(self).at(i, j),
    {
        let idx = self.index_of(x, y);
        self.data.set(idx, color_id);
        proof {
            assert forall|i: int, j: int|
                0 <= i < old(self).sx() && 0 <= j < old(self).sy() && (i != x || j != y)
                    implies #[trigger] self.at(i, j) == old(self).at(i, j) by {
                lemma_mask_index(i, j, old(self).sx(), old(self).sy());
                if j * old(self).sx() + i == idx {
                    lemma_mask_index_injective(i, j, x as int, y as int, old(self).sx());
                }
            }
        }
    }

    /// Reads one mask cell.
    pub fn get(&self, x: usize, y: usize) -> (r: Option<u8>)
        requires
            self.wf(),
            x < self.sx(),
            y < self.sy(),
        ensures
            r == self.at(x as int, y as int),
    {
        let idx = self.index_of(x, y);
        self.data[idx]
    }
}

proof fn lemma_mask_index(x: int, y: int, sx: int, sy: int)
    by (nonlinear_arith)
    requires
        0 <= x < sx,
        0 <= y < sy,
    ensures
        0 <= y * sx + x < sx * sy,
{
}

proof fn lemma_mask_index_injective(x1: int, y1: int, x2: int, y2: int, sx: int)
    by (nonlinear_arith)
    requires
        0 <= x1 < sx,
        0 <= x2 < sx,
        0 <= y1,
        0 <= y2,
        y1 * sx + x1 == y2 * sx + x2,
    ensures
        x1 == x2 && y1 == y2,
{
}

/// One mesh vertex: a lattice corner position, an outward unit normal,
/// and a color index.  World-space scaling is the renderer's business.
#[derive(Clone, Copy, PartialEq, Eq, Debug)]
pub struct Vertex {
    pub position: (i32, i32, i32),
    pub normal: (i32, i32, i32),
    pub color: u8,
}

/// A chunk surface mesh: quads stored as four vertices and six indices
/// each.
pub struct Mesh {
    pub vertices: Vec<Vertex>,
    pub indices: Vec<u32>,
    pub just_loaded: bool,
}

/// Triangle indices of quad `q` for the positive scan direction.
pub open spec fn quad_pattern_pos(is: Seq<u32>, q: int) -> bool {
    let c = 4 * q;
    &&& is[6 * q] == c
    &&& is[6 * q + 1] == c + 1
    &&& is[6 * q + 2] == c + 2
    &&& is[6 * q + 3] == c
    &&& is[6 * q + 4] == c + 3
    &&& is[6 * q + 5] == c + 1
}

/// Triangle indices of quad `q` for the negative scan direction (opposite
/// winding).
pub open spec fn quad_pattern_neg(is: Seq<u32>, q: int) -> bool {
    let c = 4 * q;
    &&& is[6 * q] == c
    &&& is[6 * q + 1] == c + 2
    &&& is[6 * q + 2] == c + 1
    &&& is[6 * q + 3] == c
    &&& is[6 * q + 4] == c + 1
    &&& is[6 * q + 5] == c + 3
}

/// The normal is one of the six outward axis units.
pub open spec fn unit_normal(n: (i32, i32, i32)) -> bool {
    ||| (n.0 == 1 && n.1 == 0 && n.2 == 0)
    ||| (n.0 == -1 && n.1 == 0 && n.2 == 0)
    ||| (n.0 == 0 && n.1 == 1 && n.2 == 0)
    ||| (n.0 == 0 && n.1 == -1 && n.2 == 0)
    ||| (n.0 == 0 && n.1 == 0 && n.2 == 1)
    ||| (n.0 == 0 && n.1 == 0 && n.2 == -1)
}

pub open spec fn vertex_in_bounds(v: Vertex, sx: int, sy: int, sz: int) -> bool {
    &&& 0 <= v.position.0 <= sx
    &&& 0 <= v.position.1 <= sy
    &&& 0 <= v.position.2 <= sz
}

/// The four vertices of quad `q` share one outward unit normal and one
/// color, lie on lattice corners inside the grid's bounding box, and form
/// a parallelogram (`p2 + p3 == p0 + p1`, componentwise).
pub open spec fn quad_vertices_wf(vs: Seq<Vertex>, q: int, sx: int, sy: int, sz: int) -> bool {
    let a = vs[4 * q];
    let b = vs[4 * q + 1];
    let c = vs[4 * q + 2];
    let d = vs[4 * q + 3];
    &&& a.normal == b.normal && a.normal == c.normal && a.normal == d.normal
    &&& a.color == b.color && a.color == c.color && a.color == d.color
    &&& unit_normal(a.normal)
    &&& vertex_in_bounds(a, sx, sy, sz)
    &&& vertex_in_bounds(b, sx, sy, sz)
    &&& vertex_in_bounds(c, sx, sy, sz)
    &&& vertex_in_bounds(d, sx, sy, sz)
    &&& c.position.0 + d.position.0 == a.position.0 + b.position.0
    &&& c.position.1 + d.position.1 == a.position.1 + b.position.1
    &&& c.position.2 + d.position.2 == a.position.2 + b.position.2
}

/// The vertex and index buffers hold a whole number of quads: four
/// vertices and six indices each, indices following one of the two
/// winding patterns, vertices well-formed for the grid's dimensions.
pub open spec fn buffers_wf(vs: Seq<Vertex>, is: Seq<u32>, sx: int, sy: int, sz: int) -> bool {
    &&& vs.len() % 4 == 0
    &&& is.len() == 6 * (vs.len() / 4)
    &&& forall|q: int| 0 <= q < vs.len() / 4
        ==> #[trigger] quad_pattern_pos(is, q) || quad_pattern_neg(is, q)
    &&& forall|q: int| 0 <= q < vs.len() / 4 ==> #[trigger] quad_vertices_wf(vs, q, sx, sy, sz)
}

/// A well-formed mesh for a grid of the given dimensions.
pub open spec fn mesh_wf(m: Mesh, sx: int, sy: int, sz: int) -> bool {
    buffers_wf(m.vertices@, m.indices@, sx, sy, sz)
}

/// Component of a lattice position along a world axis.
pub open spec fn axis_of(p: (i32, i32, i32), axis: int) -> int {
    if axis == 0 {
        p.0 as int
    } else if axis == 1 {
        p.1 as int
    } else {
        p.2 as int
    }
}

/// Whether quad `q` covers the in-plane cell `(cv, cw)`: the quad's
/// rectangle spans `[p0.v, p1.v) x [p0.w, p1.w)` in the slice plane.
pub open spec fn quad_rect_covers(vs: Seq<Vertex>, q: int, d: Descriptor, cv: int, cw: int) -> bool {
    &&& axis_of(vs[4 * q].position, d.v as int) <= cv < axis_of(vs[4 * q + 1].position, d.v as int)
    &&& axis_of(vs[4 * q].position, d.w as int) <= cw < axis_of(vs[4 * q + 1].position, d.w as int)
}

/// Whether quad `q` is a face of direction `d` at slice `slice`: its
/// outward normal opposes the scan direction and its scan-axis position
/// is the slice corner for that direction.
pub open spec fn quad_in_slice(vs: Seq<Vertex>, q: int, d: Descriptor, slice: int) -> bool {
    &&& vs[4 * q].normal.0 == -d.normal.0
    &&& vs[4 * q].normal.1 == -d.normal.1
    &&& vs[4 * q].normal.2 == -d.normal.2
    &&& axis_of(vs[4 * q].position, d.u as int) == slice + d.q.0
}

/// Whether one of the quads `q_lo ..= q_hi - 1` covers the cell.
pub open spec fn slice_covered(vs: Seq<Vertex>, q_lo: int, q_hi: int, d: Descriptor, cv: int, cw: int) -> bool {
    exists|q: int| #![trigger quad_rect_covers(vs, q, d, cv, cw)]
        q_lo <= q < q_hi && quad_rect_covers(vs, q, d, cv, cw)
}

/// Quads `q_lo ..= q_hi - 1` all lie in slice `slice` of direction `d`,
/// span non-empty in-plane rectangles inside the plane bounds, and are
/// wound for the direction's step.
pub open spec fn slice_quads_wf(
    vs: Seq<Vertex>, is: Seq<u32>, d: Descriptor, slice: int,
    q_lo: int, q_hi: int, sv: int, sw: int,
) -> bool {
    forall|q: int| #![trigger vs[4 * q]]
        q_lo <= q < q_hi
            ==> quad_in_slice(vs, q, d, slice)
                && 0 <= axis_of(vs[4 * q].position, d.v as int)
                && axis_of(vs[4 * q].position, d.v as int)
                    < axis_of(vs[4 * q + 1].position, d.v as int)
                && axis_of(vs[4 * q + 1].position, d.v as int) <= sv
                && 0 <= axis_of(vs[4 * q].position, d.w as int)
                && axis_of(vs[4 * q].position, d.w as int)
                    < axis_of(vs[4 * q + 1].position, d.w as int)
                && axis_of(vs[4 * q + 1].position, d.w as int) <= sw
                && (d.step == 1 ==> quad_pattern_pos(is, q))
                && (d.step == -1 ==> quad_pattern_neg(is, q))
}

/// Quads `q_lo ..= q_hi - 1` cover only cells the slice's entry mask
/// held in exactly the quad's own color.
pub open spec fn slice_quads_sound(
    vs: Seq<Vertex>, d: Descriptor, q_lo: int, q_hi: int, msk0: Mask,
) -> bool {
    forall|q: int, cv: int, cw: int| #![trigger quad_rect_covers(vs, q, d, cv, cw)]
        q_lo <= q < q_hi && quad_rect_covers(vs, q, d, cv, cw)
            ==> msk0.at(cv, cw) == Some(vs[4 * q].color)
}

/// No in-plane cell is covered by two of the quads `q_lo ..= q_hi - 1`.
pub open spec fn slice_quads_disjoint(vs: Seq<Vertex>, d: Descriptor, q_lo: int, q_hi: int) -> bool {
    forall|q1: int, q2: int, cv: int, cw: int|
        #![trigger quad_rect_covers(vs, q1, d, cv, cw), quad_rect_covers(vs, q2, d, cv, cw)]
        q_lo <= q1 < q_hi && q_lo <= q2 < q_hi && q1 != q2
            && quad_rect_covers(vs, q1, d, cv, cw)
            && quad_rect_covers(vs, q2, d, cv, cw)
            ==> false
}

/// The working mask holds `None` on exactly the cells some quad
/// `q_lo ..= q_hi - 1` covers, and the entry mask's value elsewhere.
pub open spec fn mask_tracks(
    mask: Mask, vs: Seq<Vertex>, d: Descriptor, q_lo: int, q_hi: int,
    msk0: Mask, sv: int, sw: int,
) -> bool {
    forall|i: int, j: int| #![trigger mask.at(i, j)]
        0 <= i < sv && 0 <= j < sw
            ==> mask.at(i, j) == (
                if slice_covered(vs, q_lo, q_hi, d, i, j) {
                    None::<u8>
                } else {
                    msk0.at(i, j)
                })
}

/// Quads `q_lo ..= q_hi - 1` are greedily maximal: a quad's rectangle
/// could not be one column wider, nor one full row taller, without
/// running off the plane or covering a cell whose entry color differs or
/// that an earlier quad had already consumed.
pub open spec fn slice_quads_maximal(
    vs: Seq<Vertex>, d: Descriptor, q_lo: int, q_hi: int, msk0: Mask, sv: int, sw: int,
) -> bool {
    forall|q: int| #![trigger vs[4 * q]]
        q_lo <= q < q_hi
            ==> {
                let v0 = axis_of(vs[4 * q].position, d.v as int);
                let v1 = axis_of(vs[4 * q + 1].position, d.v as int);
                let w0 = axis_of(vs[4 * q].position, d.w as int);
                let w1 = axis_of(vs[4 * q + 1].position, d.w as int);
                &&& (v1 == sv || msk0.at(v1, w0) != Some(vs[4 * q].color)
                    || slice_covered(vs, q_lo, q, d, v1, w0))
                &&& (w1 == sw || exists|k: int|
                    #![trigger msk0.at(k, w1)]
                    v0 <= k < v1 && (msk0.at(k, w1) != Some(vs[4 * q].color)
                        || slice_covered(vs, q_lo, q, d, k, w1)))
            }
}

/// Every `Some` cell of the slice's entry mask is covered by one of the
/// quads `q_lo ..= q_hi - 1`.
pub open spec fn mask_all_covered(
    msk0: Mask, vs: Seq<Vertex>, d: Descriptor, q_lo: int, q_hi: int, sv: int, sw: int,
) -> bool {
    forall|cv: int, cw: int| #![trigger msk0.at(cv, cw)]
        0 <= cv < sv && 0 <= cw < sw && msk0.at(cv, cw) is Some
            ==> slice_covered(vs, q_lo, q_hi, d, cv, cw)
}

/// The six face directions, in scan order: two per world axis, opposite
/// step directions.
pub open spec fn face_descriptor(di: int) -> Descriptor {
    if di == 0 {
        Descriptor { u: 0, v: 1, w: 2, step: 1i32, normal: (1i32, 0i32, 0i32), q: (0i32, 0i32, 0i32) }
    } else if di == 1 {
        Descriptor { u: 0, v: 1, w: 2, step: -1i32, normal: (-1i32, 0i32, 0i32), q: (1i32, 0i32, 0i32) }
    } else if di == 2 {
        Descriptor { u: 1, v: 2, w: 0, step: 1i32, normal: (0i32, 1i32, 0i32), q: (0i32, 0i32, 0i32) }
    } else if di == 3 {
        Descriptor { u: 1, v: 2, w: 0, step: -1i32, normal: (0i32, -1i32, 0i32), q: (1i32, 0i32, 0i32) }
    } else if di == 4 {
        Descriptor { u: 2, v: 0, w: 1, step: 1i32, normal: (0i32, 0i32, 1i32), q: (0i32, 0i32, 0i32) }
    } else {
        Descriptor { u: 2, v: 0, w: 1, step: -1i32, normal: (0i32, 0i32, -1i32), q: (1i32, 0i32, 0i32) }
    }
}

/// Quad `q` is an exact face quad of the grid: it belongs to one of the
/// six directions, lies on a slice inside the grid, spans a non-empty
/// in-plane rectangle, covers only cells whose visible face color
/// (`mask_spec`) is exactly the quad's color, and is wound for its scan
/// direction.
pub open spec fn quad_face_exact(vs: Seq<Vertex>, is: Seq<u32>, q: int, g: VoxelGrid) -> bool {
    exists|di: int|
        #![trigger face_descriptor(di)]
        0 <= di < 6 && {
            let d = face_descriptor(di);
            let s = axis_of(vs[4 * q].position, d.u as int) - d.q.0;
            &&& quad_in_slice(vs, q, d, s)
            &&& 0 <= s < g_size(g, d.u as int)
            &&& 0 <= axis_of(vs[4 * q].position, d.v as int)
            &&& axis_of(vs[4 * q].position, d.v as int) < axis_of(vs[4 * q + 1].position, d.v as int)
            &&& axis_of(vs[4 * q + 1].position, d.v as int) <= g_size(g, d.v as int)
            &&& 0 <= axis_of(vs[4 * q].position, d.w as int)
            &&& axis_of(vs[4 * q].position, d.w as int) < axis_of(vs[4 * q + 1].position, d.w as int)
            &&& axis_of(vs[4 * q + 1].position, d.w as int) <= g_size(g, d.w as int)
            &&& (forall|cv: int, cw: int| #![trigger quad_rect_covers(vs, q, d, cv, cw)]
                quad_rect_covers(vs, q, d, cv, cw)
                    ==> mask_spec(g, d, s, cv, cw) == Some(vs[4 * q].color))
            &&& (d.step == 1 ==> quad_pattern_pos(is, q))
            &&& (d.step == -1 ==> quad_pattern_neg(is, q))
        }
}

/// The direction a quad belongs to, read off its outward normal.
pub open spec fn quad_dir(n: (i32, i32, i32)) -> int {
    if n.0 == -1 && n.1 == 0 && n.2 == 0 {
        0
    } else if n.0 == 1 && n.1 == 0 && n.2 == 0 {
        1
    } else if n.0 == 0 && n.1 == -1 && n.2 == 0 {
        2
    } else if n.0 == 0 && n.1 == 1 && n.2 == 0 {
        3
    } else if n.0 == 0 && n.1 == 0 && n.2 == -1 {
        4
    } else {
        5
    }
}

/// Every quad below `q_hi` is an exact face quad.
pub open spec fn quads_face_exact_upto(vs: Seq<Vertex>, is: Seq<u32>, g: VoxelGrid, q_hi: int) -> bool {
    forall|q: int| #![trigger vs[4 * q]] 0 <= q < q_hi ==> quad_face_exact(vs, is, q, g)
}

/// Every quad below `q_hi` belongs to a direction below `di_hi`.
pub open spec fn quads_before_dir(vs: Seq<Vertex>, q_hi: int, di_hi: int) -> bool {
    forall|q: int| #![trigger vs[4 * q]] 0 <= q < q_hi ==> 0 <= quad_dir(vs[4 * q].normal) < di_hi
}

/// For every direction below `di_hi` and every slice, every visible cell
/// is covered by a quad of that direction and slice below `q_hi`.
pub open spec fn dirs_covered_upto(vs: Seq<Vertex>, g: VoxelGrid, q_hi: int, di_hi: int) -> bool {
    forall|di: int, s: int, cv: int, cw: int|
        #![trigger mask_spec(g, face_descriptor(di), s, cv, cw)]
        0 <= di < di_hi && 0 <= s < g_size(g, face_descriptor(di).u as int)
            && 0 <= cv < g_size(g, face_descriptor(di).v as int)
            && 0 <= cw < g_size(g, face_descriptor(di).w as int)
            && mask_spec(g, face_descriptor(di), s, cv, cw) is Some
            ==> exists|q: int|
                #![trigger quad_rect_covers(vs, q, face_descriptor(di), cv, cw)]
                0 <= q < q_hi && quad_in_slice(vs, q, face_descriptor(di), s)
                    && quad_rect_covers(vs, q, face_descriptor(di), cv, cw)
}

/// No in-plane cell of any direction and slice is covered by two quads
/// below `q_hi`.
pub open spec fn quads_dir_disjoint_upto(vs: Seq<Vertex>, q_hi: int) -> bool {
    forall|q1: int, q2: int, di: int, s: int, cv: int, cw: int|
        #![trigger quad_in_slice(vs, q1, face_descriptor(di), s),
            quad_in_slice(vs, q2, face_descriptor(di), s),
            quad_rect_covers(vs, q1, face_descriptor(di), cv, cw),
            quad_rect_covers(vs, q2, face_descriptor(di), cv, cw)]
        0 <= q1 < q_hi && 0 <= q2 < q_hi && q1 != q2 && 0 <= di < 6
            && quad_in_slice(vs, q1, face_descriptor(di), s)
            && quad_in_slice(vs, q2, face_descriptor(di), s)
            && quad_rect_covers(vs, q1, face_descriptor(di), cv, cw)
            && quad_rect_covers(vs, q2, face_descriptor(di), cv, cw)
            ==> false
}

/// Whether a quad before `q` in the same direction and slice covers the
/// cell.
pub open spec fn covered_before(
    vs: Seq<Vertex>, q: int, d: Descriptor, s: int, cv: int, cw: int,
) -> bool {
    exists|q2: int| #![trigger quad_rect_covers(vs, q2, d, cv, cw)]
        0 <= q2 < q && quad_in_slice(vs, q2, d, s)
            && quad_rect_covers(vs, q2, d, cv, cw)
}

/// Every quad below `q_hi` is greedily maximal within its direction and
/// slice: it could not be one column wider, nor one full row taller,
/// without leaving the plane or covering a cell that is not visible in
/// the quad's color or that an earlier quad had already consumed.
pub open spec fn quads_maximal_upto(vs: Seq<Vertex>, g: VoxelGrid, q_hi: int) -> bool {
    forall|q: int, di: int, s: int|
        #![trigger quad_in_slice(vs, q, face_descriptor(di), s)]
        0 <= q < q_hi && 0 <= di < 6
            && quad_in_slice(vs, q, face_descriptor(di), s)
            ==> {
                let d = face_descriptor(di);
                let v0 = axis_of(vs[4 * q].position, d.v as int);
                let v1 = axis_of(vs[4 * q + 1].position, d.v as int);
                let w0 = axis_of(vs[4 * q].position, d.w as int);
                let w1 = axis_of(vs[4 * q + 1].position, d.w as int);
                &&& (v1 == g_size(g, d.v as int)
                    || mask_spec(g, d, s, v1, w0) != Some(vs[4 * q].color)
                    || covered_before(vs, q, d, s, v1, w0))
                &&& (w1 == g_size(g, d.w as int) || exists|k: int|
                    #![trigger mask_spec(g, d, s, k, w1)]
                    v0 <= k < v1 && (mask_spec(g, d, s, k, w1) != Some(vs[4 * q].color)
                        || covered_before(vs, q, d, s, k, w1)))
            }
}

/// Quads `q_lo ..= q_hi - 1` were laid down in scan order: every visible
/// entry cell lying before a quad's base corner in the row-major scan of
/// the plane is covered by an earlier quad.
pub open spec fn slice_quads_base_first(
    vs: Seq<Vertex>, d: Descriptor, q_lo: int, q_hi: int, msk0: Mask, sv: int, sw: int,
) -> bool {
    forall|q: int, i: int, j: int|
        #![trigger vs[4 * q], msk0.at(i, j)]
        q_lo <= q < q_hi && 0 <= i < sv && 0 <= j < sw
            && (j < axis_of(vs[4 * q].position, d.w as int)
                || (j == axis_of(vs[4 * q].position, d.w as int)
                    && i < axis_of(vs[4 * q].position, d.v as int)))
            && msk0.at(i, j) is Some
            ==> slice_covered(vs, q_lo, q, d, i, j)
}

/// Every quad below `q_hi` sits at the first still-visible cell of its
/// slice's row-major scan: any visible cell before its base corner is
/// covered by an earlier quad of the same direction and slice.
pub open spec fn quads_base_first_upto(vs: Seq<Vertex>, g: VoxelGrid, q_hi: int) -> bool {
    forall|q: int, di: int, s: int, i: int, j: int|
        #![trigger quad_in_slice(vs, q, face_descriptor(di), s), mask_spec(g, face_descriptor(di), s, i, j)]
        0 <= q < q_hi && 0 <= di < 6
            && quad_in_slice(vs, q, face_descriptor(di), s)
            && 0 <= i < g_size(g, face_descriptor(di).v as int)
            && 0 <= j < g_size(g, face_descriptor(di).w as int)
            && (j < axis_of(vs[4 * q].position, face_descriptor(di).w as int)
                || (j == axis_of(vs[4 * q].position, face_descriptor(di).w as int)
                    && i < axis_of(vs[4 * q].position, face_descriptor(di).v as int)))
            && mask_spec(g, face_descriptor(di), s, i, j) is Some
            ==> covered_before(vs, q, face_descriptor(di), s, i, j)
}

/// Whether slice `s` of a direction has already been scanned after
/// `slice_i` steps: the positive direction walks slices upward, the
/// negative direction downward.
pub open spec fn processed_slice(d: Descriptor, size_u: int, slice_i: int, s: int) -> bool {
    if d.step == 1 {
        0 <= s < slice_i
    } else {
        size_u - slice_i <= s < size_u
    }
}

/// Quads `dq0 ..= q_hi - 1` of the current direction all lie in already
/// scanned slices.
pub open spec fn dir_quads_in_processed(
    vs: Seq<Vertex>, d: Descriptor, dq0: int, q_hi: int, size_u: int, slice_i: int,
) -> bool {
    forall|q: int| #![trigger vs[4 * q]]
        dq0 <= q < q_hi
            ==> quad_in_slice(vs, q, d, axis_of(vs[4 * q].position, d.u as int) - d.q.0)
                && processed_slice(d, size_u, slice_i,
                    axis_of(vs[4 * q].position, d.u as int) - d.q.0)
}

/// Every visible cell of an already scanned slice of the current
/// direction is covered by a quad below `q_hi`.
pub open spec fn dir_slices_covered(
    vs: Seq<Vertex>, g: VoxelGrid, d: Descriptor, q_hi: int, size_u: int, slice_i: int,
) -> bool {
    forall|s: int, cv: int, cw: int| #![trigger mask_spec(g, d, s, cv, cw)]
        processed_slice(d, size_u, slice_i, s)
            && 0 <= cv < g_size(g, d.v as int) && 0 <= cw < g_size(g, d.w as int)
            && mask_spec(g, d, s, cv, cw) is Some
            ==> exists|q: int| #![trigger quad_rect_covers(vs, q, d, cv, cw)]
                0 <= q < q_hi && quad_in_slice(vs, q, d, s)
                    && quad_rect_covers(vs, q, d, cv, cw)
}

/// The mesh holds exactly the grid's visible faces: every quad is an
/// exact face quad; for every direction and slice, every visible cell is
/// covered by a quad of that direction and slice; and no cell is covered
/// by two quads of the same direction and slice.
pub open spec fn mesh_faces_exact(m: Mesh, g: VoxelGrid) -> bool {
    let quads = m.vertices@.len() as int / 4;
    &&& quads_face_exact_upto(m.vertices@, m.indices@, g, quads)
    &&& dirs_covered_upto(m.vertices@, g, quads, 6)
    &&& quads_dir_disjoint_upto(m.vertices@, quads)
    &&& quads_maximal_upto(m.vertices@, g, quads)
    &&& quads_base_first_upto(m.vertices@, g, quads)
}

fn opt_eq(a: Option<u8>, b: Option<u8>) -> (r: bool)
    ensures
        r == (a == b),
{
    match (a, b) {
        (None, None) => true,
        (Some(x), Some(y)) => x == y,
        _ => false,
    }
}

/// Builds the visibility mask of one slice.
fn build_mask(vox: &VoxelGrid, d: &Descriptor, slice: usize) -> (m: Mask)
    requires
        vox.wf(),
        d.wf(),
        slice < g_size(*vox, d.u as int),
    ensures
        m.wf(),
        m.sx() == g_size(*vox, d.v as int),
        m.sy() == g_size(*vox, d.w as int),
        forall|cv: int, cw: int| 0 <= cv < m.sx() && 0 <= cw < m.sy()
            ==> #[trigger] m.at(cv, cw) == mask_spec(*vox, *d, slice as int, cv, cw),
{
    let size_v = axis_size(vox, d.v);
    let size_w = axis_size(vox, d.w);
    let size_u = axis_size(vox, d.u);
    let mut mask = Mask::new(size_v, size_w);
    let no_voxel_back = (slice == 0 && d.step == 1) || (slice == size_u - 1 && d.step != 1);
    for cw in 0..size_w
        invariant
            vox.wf(),
            d.wf(),
            slice < g_size(*vox, d.u as int),
            size_v == g_size(*vox, d.v as int),
            size_w == g_size(*vox, d.w as int),
            size_u == g_size(*vox, d.u as int),
            no_voxel_back == ((slice == 0 && d.step == 1) || (slice == size_u - 1 && d.step != 1)),
            mask.wf(),
            mask.sx() == size_v,
            mask.sy() == size_w,
            forall|i: int, j: int| 0 <= i < size_v && 0 <= j < cw
                ==> #[trigger] mask.at(i, j) == mask_spec(*vox, *d, slice as int, i, j),
    {
        for cv in 0..size_v
            invariant
                vox.wf(),
                d.wf(),
                slice < g_size(*vox, d.u as int),
                size_v == g_size(*vox, d.v as int),
                size_w == g_size(*vox, d.w as int),
                size_u == g_size(*vox, d.u as int),
                no_voxel_back == ((slice == 0 && d.step == 1) || (slice == size_u - 1 && d.step != 1)),
                cw < size_w,
                mask.wf(),
                mask.sx() == size_v,
                mask.sy() == size_w,
                forall|i: int, j: int| 0 <= i < size_v && 0 <= j < cw
                    ==> #[trigger] mask.at(i, j) == mask_spec(*vox, *d, slice as int, i, j),
                forall|i: int| 0 <= i < cv
                    ==> #[trigger] mask.at(i, cw as int) == mask_spec(*vox, *d, slice as int, i, cw as int),
        {
            let cx = coord_at_exec(d, slice, cv, cw, 0);
            let cy = coord_at_exec(d, slice, cv, cw, 1);
            let cz = coord_at_exec(d, slice, cv, cw, 2);
            let voxel = vox.get(cx, cy, cz);
            let voxel_back: Option<u8> = if !no_voxel_back {
                let back_slice = if d.step == 1 {
                    slice - 1
                } else {
                    slice + 1
                };
                let bx = coord_at_exec(d, back_slice, cv, cw, 0);
                let by = coord_at_exec(d, back_slice, cv, cw, 1);
                let bz = coord_at_exec(d, back_slice, cv, cw, 2);
                vox.get(bx, by, bz)
            } else {
                None
            };
            let occluded = match (voxel_back, voxel) {
                (Some(a), Some(b)) => a == b,
                _ => false,
            };
            let color_id = if occluded {
                None
            } else {
                voxel
            };
            mask.set(cv, cw, color_id);
        }
    }
    mask
}

/// Appends one quad covering the in-plane rectangle
/// `[x, x + width) x [y, y + height)` of the current slice, and consumes
/// exactly those mask cells.
#[verifier::rlimit(60)]
fn emit_quad(
    mask: &mut Mask,
    vox: &VoxelGrid,
    d: &Descriptor,
    slice: usize,
    x: usize,
    y: usize,
    width: usize,
    height: usize,
    m: u8,
    vertices: &mut Vec<Vertex>,
    indices: &mut Vec<u32>,
)
    requires
        vox.wf(),
        d.wf(),
        old(mask).wf(),
        old(mask).sx() == g_size(*vox, d.v as int),
        old(mask).sy() == g_size(*vox, d.w as int),
        slice < g_size(*vox, d.u as int),
        1 <= width,
        1 <= height,
        x + width <= old(mask).sx(),
        y + height <= old(mask).sy(),
        buffers_wf(old(vertices)@, old(indices)@, vox.sx(), vox.sy(), vox.sz()),
        old(vertices)@.len() <= 0x1900_0000,
    ensures
        final(mask).wf(),
        final(mask).sx() == old(mask).sx(),
        final(mask).sy() == old(mask).sy(),
        forall|i: int, j: int|
            0 <= i < old(mask).sx() && 0 <= j < old(mask).sy()
                ==> #[trigger] final(mask).at(i, j) == (
                    if x <= i < x + width && y <= j < y + height {
                        None::<u8>
                    } else {
                        old(mask).at(i, j)
                    }),
        final(vertices)@.len() == old(vertices)@.len() + 4,
        final(indices)@.len() == old(indices)@.len() + 6,
        forall|i: int| 0 <= i < old(vertices)@.len()
            ==> #[trigger] final(vertices)@[i] == old(vertices)@[i],
        forall|i: int| 0 <= i < old(indices)@.len()
            ==> #[trigger] final(indices)@[i] == old(indices)@[i],
        buffers_wf(final(vertices)@, final(indices)@, vox.sx(), vox.sy(), vox.sz()),
        ({
            let nq = old(vertices)@.len() as int / 4;
            let vs = final(vertices)@;
            &&& quad_in_slice(vs, nq, *d, slice as int)
            &&& axis_of(vs[4 * nq].position, d.v as int) == x
            &&& axis_of(vs[4 * nq + 1].position, d.v as int) == x + width
            &&& axis_of(vs[4 * nq].position, d.w as int) == y
            &&& axis_of(vs[4 * nq + 1].position, d.w as int) == y + height
            &&& vs[4 * nq].color == m
            &&& (d.step == 1 ==> quad_pattern_pos(final(indices)@, nq))
            &&& (d.step == -1 ==> quad_pattern_neg(final(indices)@, nq))
        }),
{
    let base_u: usize = if d.step == 1 {
        slice
    } else {
        slice + 1
    };
    let normal_out = (0i32 - d.normal.0, 0i32 - d.normal.1, 0i32 - d.normal.2);
    let p0 = make_position(d, base_u, x, y);
    let p1 = make_position(d, base_u, x + width, y + height);
    let p2 = make_position(d, base_u, x + width, y);
    let p3 = make_position(d, base_u, x, y + height);
    let ghost vs_pre = vertices@;
    let ghost is_pre = indices@;
    let count: u32 = vertices.len() as u32;
    vertices.push(Vertex { position: p0, normal: normal_out, color: m });
    vertices.push(Vertex { position: p1, normal: normal_out, color: m });
    vertices.push(Vertex { position: p2, normal: normal_out, color: m });
    vertices.push(Vertex { position: p3, normal: normal_out, color: m });
    if d.step == 1 {
        indices.push(count);
        indices.push(count + 1);
        indices.push(count + 2);
        indices.push(count);
        indices.push(count + 3);
        indices.push(count + 1);
    } else {
        indices.push(count);
        indices.push(count + 2);
        indices.push(count + 1);
        indices.push(count);
        indices.push(count + 1);
        indices.push(count + 3);
    }
    proof {
        lemma_quad_append(vs_pre, is_pre, vertices@, indices@, vox.sx(), vox.sy(), vox.sz());
    }
    let mut yy: usize = y;
    while yy < y + height
        invariant
            mask.wf(),
            mask.sx() == old(mask).sx(),
            mask.sy() == old(mask).sy(),
            x + width <= mask.sx(),
            y + height <= mask.sy(),
            y <= yy <= y + height,
            forall|i: int, j: int|
                0 <= i < old(mask).sx() && 0 <= j < old(mask).sy()
                    ==> #[trigger] mask.at(i, j) == (
                        if x <= i < x + width && y <= j < yy {
                            None::<u8>
                        } else {
                            old(mask).at(i, j)
                        }),
        decreases y + height - yy,
    {
        let mut xx: usize = x;
        while xx < x + width
            invariant
                mask.wf(),
                mask.sx() == old(mask).sx(),
                mask.sy() == old(mask).sy(),
                x + width <= mask.sx(),
                y + height <= mask.sy(),
                y <= yy < y + height,
                x <= xx <= x + width,
                forall|i: int, j: int|
                    0 <= i < old(mask).sx() && 0 <= j < old(mask).sy()
                        ==> #[trigger] mask.at(i, j) == (
                            if (x <= i < x + width && y <= j < yy)
                                || (j == yy && x <= i < xx) {
                                None::<u8>
                            } else {
                                old(mask).at(i, j)
                            }),
            decreases x + width - xx,
        {
            mask.set(xx, yy, None);
            xx = xx + 1;
        }
        yy = yy + 1;
    }
}

/// Appending the new quad keeps every slice quad in-slice, in bounds
/// and correctly wound.
#[verifier::rlimit(100)]
#[verifier::spinoff_prover]
proof fn lemma_emit_quads_wf(
    vs_pre: Seq<Vertex>, is_pre: Seq<u32>, vs: Seq<Vertex>, is: Seq<u32>,
    d: Descriptor, slice: int, vq0: int,
    x: int, y: int, width: int, height: int,
    size_v: int, size_w: int,
)
    requires
        0 <= x && x + width <= size_v,
        0 <= y && y + height <= size_w,
        width >= 1 && height >= 1,
        vs_pre.len() % 4 == 0,
        vs.len() == vs_pre.len() + 4,
        0 <= vq0 && 4 * vq0 <= vs_pre.len(),
        forall|i: int| 0 <= i < vs_pre.len() ==> #[trigger] vs[i] == vs_pre[i],
        axis_of(vs[vs_pre.len() as int].position, d.v as int) == x,
        axis_of(vs[vs_pre.len() as int + 1].position, d.v as int) == x + width,
        axis_of(vs[vs_pre.len() as int].position, d.w as int) == y,
        axis_of(vs[vs_pre.len() as int + 1].position, d.w as int) == y + height,
        d.step == 1 || d.step == -1,
        is_pre.len() == 6 * (vs_pre.len() as int / 4),
        is.len() == is_pre.len() + 6,
        forall|i: int| 0 <= i < is_pre.len() ==> #[trigger] is[i] == is_pre[i],
        quad_in_slice(vs, vs_pre.len() as int / 4, d, slice),
        d.step == 1 ==> quad_pattern_pos(is, vs_pre.len() as int / 4),
        d.step == -1 ==> quad_pattern_neg(is, vs_pre.len() as int / 4),
        slice_quads_wf(vs_pre, is_pre, d, slice, vq0, vs_pre.len() as int / 4, size_v, size_w),
    ensures
        slice_quads_wf(vs, is, d, slice, vq0, vs.len() as int / 4, size_v, size_w),
{
    let nq = vs_pre.len() as int / 4;
    assert(4 * nq == vs_pre.len());
    assert forall|q: int| #![trigger vs[4 * q]]
        vq0 <= q < vs.len() as int / 4
        implies quad_in_slice(vs, q, d, slice)
            && 0 <= axis_of(vs[4 * q].position, d.v as int)
            && axis_of(vs[4 * q].position, d.v as int)
                < axis_of(vs[4 * q + 1].position, d.v as int)
            && axis_of(vs[4 * q + 1].position, d.v as int) <= size_v
            && 0 <= axis_of(vs[4 * q].position, d.w as int)
            && axis_of(vs[4 * q].position, d.w as int)
                < axis_of(vs[4 * q + 1].position, d.w as int)
            && axis_of(vs[4 * q + 1].position, d.w as int) <= size_w
            && (d.step == 1 ==> quad_pattern_pos(is, q))
            && (d.step == -1 ==> quad_pattern_neg(is, q)) by {
        if q < nq {
            assert(quad_in_slice(vs_pre, q, d, slice));
            assert(vs[4 * q] == vs_pre[4 * q]);
            assert(vs[4 * q + 1] == vs_pre[4 * q + 1]);
            if d.step == 1 {
                assert(quad_pattern_pos(is_pre, q));
                assert(is[6 * q] == is_pre[6 * q]);
                assert(is[6 * q + 1] == is_pre[6 * q + 1]);
                assert(is[6 * q + 2] == is_pre[6 * q + 2]);
                assert(is[6 * q + 3] == is_pre[6 * q + 3]);
                assert(is[6 * q + 4] == is_pre[6 * q + 4]);
                assert(is[6 * q + 5] == is_pre[6 * q + 5]);
            } else {
                assert(quad_pattern_neg(is_pre, q));
                assert(is[6 * q] == is_pre[6 * q]);
                assert(is[6 * q + 1] == is_pre[6 * q + 1]);
                assert(is[6 * q + 2] == is_pre[6 * q + 2]);
                assert(is[6 * q + 3] == is_pre[6 * q + 3]);
                assert(is[6 * q + 4] == is_pre[6 * q + 4]);
                assert(is[6 * q + 5] == is_pre[6 * q + 5]);
            }
        } else {
            assert(q == nq);
            assert(4 * q == vs_pre.len());
        }
    }
    assert(slice_quads_wf(vs, is, d, slice, vq0, vs.len() as int / 4, size_v, size_w));
}

/// Appending the new quad keeps every slice quad covering only cells the
/// slice's entry mask held in the quad's own color.
#[verifier::rlimit(100)]
#[verifier::spinoff_prover]
proof fn lemma_emit_sound(
    vs_pre: Seq<Vertex>, vs: Seq<Vertex>,
    d: Descriptor, vq0: int,
    msk0: Mask, mask_pre: Mask,
    x: int, y: int, width: int, height: int, m: u8,
    size_v: int, size_w: int,
)
    requires
        0 <= x && x + width <= size_v,
        0 <= y && y + height <= size_w,
        width >= 1 && height >= 1,
        vs_pre.len() % 4 == 0,
        vs.len() == vs_pre.len() + 4,
        0 <= vq0 && 4 * vq0 <= vs_pre.len(),
        forall|i: int| 0 <= i < vs_pre.len() ==> #[trigger] vs[i] == vs_pre[i],
        axis_of(vs[vs_pre.len() as int].position, d.v as int) == x,
        axis_of(vs[vs_pre.len() as int + 1].position, d.v as int) == x + width,
        axis_of(vs[vs_pre.len() as int].position, d.w as int) == y,
        axis_of(vs[vs_pre.len() as int + 1].position, d.w as int) == y + height,
        vs[vs_pre.len() as int].color == m,
        forall|i: int, j: int| x <= i < x + width && y <= j < y + height
            ==> #[trigger] mask_pre.at(i, j) == Some(m),
        slice_quads_sound(vs_pre, d, vq0, vs_pre.len() as int / 4, msk0),
        mask_tracks(mask_pre, vs_pre, d, vq0, vs_pre.len() as int / 4, msk0, size_v, size_w),
    ensures
        slice_quads_sound(vs, d, vq0, vs.len() as int / 4, msk0),
{
    let nq = vs_pre.len() as int / 4;
    assert(4 * nq == vs_pre.len());
    assert forall|q: int, cv: int, cw: int| #![trigger quad_rect_covers(vs, q, d, cv, cw)]
        vq0 <= q < vs.len() as int / 4
            && quad_rect_covers(vs, q, d, cv, cw)
            implies msk0.at(cv, cw) == Some(vs[4 * q].color) by {
        if q < nq {
            assert(vs[4 * q] == vs_pre[4 * q]);
            assert(vs[4 * q + 1] == vs_pre[4 * q + 1]);
            assert(quad_rect_covers(vs_pre, q, d, cv, cw));
        } else {
            assert(q == nq && 4 * q == vs_pre.len());
            assert(x <= cv < x + width && y <= cw < y + height);
            assert(mask_pre.at(cv, cw) == Some(m));
            assert(!slice_covered(vs_pre, vq0, nq, d, cv, cw));
            assert(msk0.at(cv, cw) == Some(m));
        }
    }
}

/// Appending the new quad keeps the slice quads pairwise disjoint: the
/// new rectangle was made only of cells no earlier quad had consumed.
#[verifier::rlimit(100)]
#[verifier::spinoff_prover]
proof fn lemma_emit_disjoint(
    vs_pre: Seq<Vertex>, vs: Seq<Vertex>,
    d: Descriptor, vq0: int,
    msk0: Mask, mask_pre: Mask,
    x: int, y: int, width: int, height: int, m: u8,
    size_v: int, size_w: int,
)
    requires
        0 <= x && x + width <= size_v,
        0 <= y && y + height <= size_w,
        width >= 1 && height >= 1,
        vs_pre.len() % 4 == 0,
        vs.len() == vs_pre.len() + 4,
        0 <= vq0 && 4 * vq0 <= vs_pre.len(),
        forall|i: int| 0 <= i < vs_pre.len() ==> #[trigger] vs[i] == vs_pre[i],
        axis_of(vs[vs_pre.len() as int].position, d.v as int) == x,
        axis_of(vs[vs_pre.len() as int + 1].position, d.v as int) == x + width,
        axis_of(vs[vs_pre.len() as int].position, d.w as int) == y,
        axis_of(vs[vs_pre.len() as int + 1].position, d.w as int) == y + height,
        forall|i: int, j: int| x <= i < x + width && y <= j < y + height
            ==> #[trigger] mask_pre.at(i, j) == Some(m),
        slice_quads_disjoint(vs_pre, d, vq0, vs_pre.len() as int / 4),
        mask_tracks(mask_pre, vs_pre, d, vq0, vs_pre.len() as int / 4, msk0, size_v, size_w),
    ensures
        slice_quads_disjoint(vs, d, vq0, vs.len() as int / 4),
{
    let nq = vs_pre.len() as int / 4;
    assert(4 * nq == vs_pre.len());
    assert forall|q1: int, q2: int, cv: int, cw: int|
        #![trigger quad_rect_covers(vs, q1, d, cv, cw), quad_rect_covers(vs, q2, d, cv, cw)]
        vq0 <= q1 < vs.len() as int / 4 && vq0 <= q2 < vs.len() as int / 4
            && q1 != q2
            && quad_rect_covers(vs, q1, d, cv, cw)
            && quad_rect_covers(vs, q2, d, cv, cw)
            implies false by {
        if q1 < nq && q2 < nq {
            assert(vs[4 * q1] == vs_pre[4 * q1]);
            assert(vs[4 * q1 + 1] == vs_pre[4 * q1 + 1]);
            assert(vs[4 * q2] == vs_pre[4 * q2]);
            assert(vs[4 * q2 + 1] == vs_pre[4 * q2 + 1]);
            assert(quad_rect_covers(vs_pre, q1, d, cv, cw));
            assert(quad_rect_covers(vs_pre, q2, d, cv, cw));
        } else {
            let qo = if q1 < nq { q1 } else { q2 };
            assert(quad_rect_covers(vs, nq, d, cv, cw));
            assert(x <= cv < x + width && y <= cw < y + height);
            assert(mask_pre.at(cv, cw) == Some(m));
            assert(qo < nq);
            assert(vs[4 * qo] == vs_pre[4 * qo]);
            assert(vs[4 * qo + 1] == vs_pre[4 * qo + 1]);
            assert(quad_rect_covers(vs_pre, qo, d, cv, cw));
            assert(slice_covered(vs_pre, vq0, nq, d, cv, cw));
            assert(mask_pre.at(cv, cw) is None);
        }
    }
}

/// After consuming the new quad's rectangle, the mask holds `None` on
/// exactly the cells some slice quad covers.
#[verifier::rlimit(100)]
#[verifier::spinoff_prover]
proof fn lemma_emit_mask(
    vs_pre: Seq<Vertex>, vs: Seq<Vertex>,
    d: Descriptor, vq0: int,
    msk0: Mask, mask_pre: Mask, mask_now: Mask,
    x: int, y: int, width: int, height: int,
    size_v: int, size_w: int,
)
    requires
        0 <= x && x + width <= size_v,
        0 <= y && y + height <= size_w,
        width >= 1 && height >= 1,
        vs_pre.len() % 4 == 0,
        vs.len() == vs_pre.len() + 4,
        0 <= vq0 && 4 * vq0 <= vs_pre.len(),
        forall|i: int| 0 <= i < vs_pre.len() ==> #[trigger] vs[i] == vs_pre[i],
        axis_of(vs[vs_pre.len() as int].position, d.v as int) == x,
        axis_of(vs[vs_pre.len() as int + 1].position, d.v as int) == x + width,
        axis_of(vs[vs_pre.len() as int].position, d.w as int) == y,
        axis_of(vs[vs_pre.len() as int + 1].position, d.w as int) == y + height,
        mask_tracks(mask_pre, vs_pre, d, vq0, vs_pre.len() as int / 4, msk0, size_v, size_w),
        forall|i: int, j: int|
            0 <= i < size_v && 0 <= j < size_w
                ==> #[trigger] mask_now.at(i, j) == (
                    if x <= i < x + width && y <= j < y + height {
                        None::<u8>
                    } else {
                        mask_pre.at(i, j)
                    }),
    ensures
        mask_tracks(mask_now, vs, d, vq0, vs.len() as int / 4, msk0, size_v, size_w),
{
    let nq = vs_pre.len() as int / 4;
    let qn = vs.len() as int / 4;
    assert(4 * nq == vs_pre.len());
    assert(qn == nq + 1);
    assert forall|i: int, j: int| #![trigger mask_now.at(i, j)]
        0 <= i < size_v && 0 <= j < size_w
            implies mask_now.at(i, j) == (
                if slice_covered(vs, vq0, qn, d, i, j) {
                    None::<u8>
                } else {
                    msk0.at(i, j)
                }) by {
        if x <= i < x + width && y <= j < y + height {
            assert(quad_rect_covers(vs, nq, d, i, j));
            assert(slice_covered(vs, vq0, qn, d, i, j));
        } else {
            assert(mask_now.at(i, j) == mask_pre.at(i, j));
            if slice_covered(vs, vq0, qn, d, i, j) {
                let q = choose|q: int|
                    vq0 <= q < qn && #[trigger] quad_rect_covers(vs, q, d, i, j);
                assert(q != nq);
                assert(vs[4 * q] == vs_pre[4 * q]);
                assert(vs[4 * q + 1] == vs_pre[4 * q + 1]);
                assert(quad_rect_covers(vs_pre, q, d, i, j));
                assert(slice_covered(vs_pre, vq0, nq, d, i, j));
            } else if slice_covered(vs_pre, vq0, nq, d, i, j) {
                let q = choose|q: int|
                    vq0 <= q < nq && #[trigger] quad_rect_covers(vs_pre, q, d, i, j);
                assert(vs[4 * q] == vs_pre[4 * q]);
                assert(vs[4 * q + 1] == vs_pre[4 * q + 1]);
                assert(quad_rect_covers(vs, q, d, i, j));
                assert(slice_covered(vs, vq0, qn, d, i, j));
            }
        }
    }
}

/// The freshly emitted rectangle is greedily maximal: its width scan
/// stopped at the plane edge or at a cell that no longer matched, and its
/// height scan stopped at the plane edge or at a row with such a cell.
#[verifier::rlimit(100)]
#[verifier::spinoff_prover]
proof fn lemma_emit_maximal(
    vs_pre: Seq<Vertex>, vs: Seq<Vertex>,
    d: Descriptor, vq0: int,
    msk0: Mask, mask_pre: Mask,
    x: int, y: int, width: int, height: int, m: u8,
    size_v: int, size_w: int,
)
    requires
        0 <= x && x + width <= size_v,
        0 <= y && y + height <= size_w,
        width >= 1 && height >= 1,
        vs_pre.len() % 4 == 0,
        vs.len() == vs_pre.len() + 4,
        0 <= vq0 && 4 * vq0 <= vs_pre.len(),
        forall|i: int| 0 <= i < vs_pre.len() ==> #[trigger] vs[i] == vs_pre[i],
        axis_of(vs[vs_pre.len() as int].position, d.v as int) == x,
        axis_of(vs[vs_pre.len() as int + 1].position, d.v as int) == x + width,
        axis_of(vs[vs_pre.len() as int].position, d.w as int) == y,
        axis_of(vs[vs_pre.len() as int + 1].position, d.w as int) == y + height,
        vs[vs_pre.len() as int].color == m,
        mask_tracks(mask_pre, vs_pre, d, vq0, vs_pre.len() as int / 4, msk0, size_v, size_w),
        slice_quads_maximal(vs_pre, d, vq0, vs_pre.len() as int / 4, msk0, size_v, size_w),
        x + width == size_v || mask_pre.at(x + width, y) != Some(m),
        y + height == size_w || exists|k: int| #![trigger mask_pre.at(k, y + height)]
            x <= k < x + width && mask_pre.at(k, y + height) != Some(m),
    ensures
        slice_quads_maximal(vs, d, vq0, vs.len() as int / 4, msk0, size_v, size_w),
{
    let nq = vs_pre.len() as int / 4;
    let qn = vs.len() as int / 4;
    assert(4 * nq == vs_pre.len());
    assert forall|q: int| #![trigger vs[4 * q]]
        vq0 <= q < qn
            implies {
                let v0 = axis_of(vs[4 * q].position, d.v as int);
                let v1 = axis_of(vs[4 * q + 1].position, d.v as int);
                let w0 = axis_of(vs[4 * q].position, d.w as int);
                let w1 = axis_of(vs[4 * q + 1].position, d.w as int);
                &&& (v1 == size_v || msk0.at(v1, w0) != Some(vs[4 * q].color)
                    || slice_covered(vs, vq0, q, d, v1, w0))
                &&& (w1 == size_w || exists|k: int|
                    #![trigger msk0.at(k, w1)]
                    v0 <= k < v1 && (msk0.at(k, w1) != Some(vs[4 * q].color)
                        || slice_covered(vs, vq0, q, d, k, w1)))
            } by {
        if q < nq {
            assert(vs[4 * q] == vs_pre[4 * q]);
            assert(vs[4 * q + 1] == vs_pre[4 * q + 1]);
            let v0 = axis_of(vs_pre[4 * q].position, d.v as int);
            let v1 = axis_of(vs_pre[4 * q + 1].position, d.v as int);
            let w0 = axis_of(vs_pre[4 * q].position, d.w as int);
            let w1 = axis_of(vs_pre[4 * q + 1].position, d.w as int);
            if v1 != size_v && msk0.at(v1, w0) == Some(vs_pre[4 * q].color) {
                assert(slice_covered(vs_pre, vq0, q, d, v1, w0));
                let q2 = choose|q2: int| #![trigger quad_rect_covers(vs_pre, q2, d, v1, w0)]
                    vq0 <= q2 < q && quad_rect_covers(vs_pre, q2, d, v1, w0);
                assert(vs[4 * q2] == vs_pre[4 * q2]);
                assert(vs[4 * q2 + 1] == vs_pre[4 * q2 + 1]);
                assert(quad_rect_covers(vs, q2, d, v1, w0));
                assert(slice_covered(vs, vq0, q, d, v1, w0));
            }
            if w1 != size_w {
                let k = choose|k: int| #![trigger msk0.at(k, w1)]
                    v0 <= k < v1 && (msk0.at(k, w1) != Some(vs_pre[4 * q].color)
                        || slice_covered(vs_pre, vq0, q, d, k, w1));
                if msk0.at(k, w1) == Some(vs_pre[4 * q].color) {
                    let q2 = choose|q2: int| #![trigger quad_rect_covers(vs_pre, q2, d, k, w1)]
                        vq0 <= q2 < q && quad_rect_covers(vs_pre, q2, d, k, w1);
                    assert(vs[4 * q2] == vs_pre[4 * q2]);
                    assert(vs[4 * q2 + 1] == vs_pre[4 * q2 + 1]);
                    assert(quad_rect_covers(vs, q2, d, k, w1));
                    assert(slice_covered(vs, vq0, q, d, k, w1));
                }
                assert(v0 <= k < v1 && (msk0.at(k, w1) != Some(vs[4 * q].color)
                    || slice_covered(vs, vq0, q, d, k, w1)));
            }
        } else {
            assert(q == nq && 4 * q == vs_pre.len());
            if x + width != size_v {
                assert(mask_pre.at(x + width, y) != Some(m));
                if msk0.at(x + width, y) == Some(m) {
                    assert(mask_pre.at(x + width, y)
                        == if slice_covered(vs_pre, vq0, nq, d, x + width, y) {
                            None::<u8>
                        } else {
                            msk0.at(x + width, y)
                        });
                    assert(slice_covered(vs_pre, vq0, nq, d, x + width, y));
                    let q2 = choose|q2: int|
                        #![trigger quad_rect_covers(vs_pre, q2, d, x + width, y)]
                        vq0 <= q2 < nq && quad_rect_covers(vs_pre, q2, d, x + width, y);
                    assert(vs[4 * q2] == vs_pre[4 * q2]);
                    assert(vs[4 * q2 + 1] == vs_pre[4 * q2 + 1]);
                    assert(quad_rect_covers(vs, q2, d, x + width, y));
                    assert(slice_covered(vs, vq0, nq, d, x + width, y));
                }
            }
            if y + height != size_w {
                let k = choose|k: int| #![trigger mask_pre.at(k, y + height)]
                    x <= k < x + width && mask_pre.at(k, y + height) != Some(m);
                if msk0.at(k, y + height) == Some(m) {
                    assert(slice_covered(vs_pre, vq0, nq, d, k, y + height));
                    let q2 = choose|q2: int|
                        #![trigger quad_rect_covers(vs_pre, q2, d, k, y + height)]
                        vq0 <= q2 < nq && quad_rect_covers(vs_pre, q2, d, k, y + height);
                    assert(vs[4 * q2] == vs_pre[4 * q2]);
                    assert(vs[4 * q2 + 1] == vs_pre[4 * q2 + 1]);
                    assert(quad_rect_covers(vs, q2, d, k, y + height));
                    assert(slice_covered(vs, vq0, nq, d, k, y + height));
                }
                assert(x <= k < x + width && (msk0.at(k, y + height) != Some(vs[4 * q].color)
                    || slice_covered(vs, vq0, q, d, k, y + height)));
            }
        }
    }
}

/// The freshly emitted quad sits at the first still-visible cell of the
/// row-major scan: every cell before its base corner is already consumed
/// or was never visible.
#[verifier::rlimit(100)]
#[verifier::spinoff_prover]
proof fn lemma_emit_base_first(
    vs_pre: Seq<Vertex>, vs: Seq<Vertex>,
    d: Descriptor, vq0: int,
    msk0: Mask, mask_pre: Mask,
    x: int, y: int, width: int, height: int,
    size_v: int, size_w: int,
)
    requires
        0 <= x && x + width <= size_v,
        0 <= y && y + height <= size_w,
        width >= 1 && height >= 1,
        vs_pre.len() % 4 == 0,
        vs.len() == vs_pre.len() + 4,
        0 <= vq0 && 4 * vq0 <= vs_pre.len(),
        forall|i: int| 0 <= i < vs_pre.len() ==> #[trigger] vs[i] == vs_pre[i],
        axis_of(vs[vs_pre.len() as int].position, d.v as int) == x,
        axis_of(vs[vs_pre.len() as int].position, d.w as int) == y,
        mask_tracks(mask_pre, vs_pre, d, vq0, vs_pre.len() as int / 4, msk0, size_v, size_w),
        slice_quads_base_first(vs_pre, d, vq0, vs_pre.len() as int / 4, msk0, size_v, size_w),
        forall|i: int, j: int| 0 <= i < size_v && 0 <= j < y
            ==> #[trigger] mask_pre.at(i, j) is None,
        forall|i: int| 0 <= i < x ==> #[trigger] mask_pre.at(i, y) is None,
    ensures
        slice_quads_base_first(vs, d, vq0, vs.len() as int / 4, msk0, size_v, size_w),
{
    let nq = vs_pre.len() as int / 4;
    assert(4 * nq == vs_pre.len());
    assert forall|q: int, i: int, j: int|
        #![trigger vs[4 * q], msk0.at(i, j)]
        vq0 <= q < vs.len() as int / 4 && 0 <= i < size_v && 0 <= j < size_w
            && (j < axis_of(vs[4 * q].position, d.w as int)
                || (j == axis_of(vs[4 * q].position, d.w as int)
                    && i < axis_of(vs[4 * q].position, d.v as int)))
            && msk0.at(i, j) is Some
            implies slice_covered(vs, vq0, q, d, i, j) by {
        if q < nq {
            assert(vs[4 * q] == vs_pre[4 * q]);
            assert(slice_covered(vs_pre, vq0, q, d, i, j));
            let q2 = choose|q2: int| #![trigger quad_rect_covers(vs_pre, q2, d, i, j)]
                vq0 <= q2 < q && quad_rect_covers(vs_pre, q2, d, i, j);
            assert(vs[4 * q2] == vs_pre[4 * q2]);
            assert(vs[4 * q2 + 1] == vs_pre[4 * q2 + 1]);
            assert(quad_rect_covers(vs, q2, d, i, j));
        } else {
            assert(q == nq && 4 * q == vs_pre.len());
            assert(j < y || (j == y && i < x));
            assert(mask_pre.at(i, j) is None);
            assert(slice_covered(vs_pre, vq0, nq, d, i, j));
            let q2 = choose|q2: int| #![trigger quad_rect_covers(vs_pre, q2, d, i, j)]
                vq0 <= q2 < nq && quad_rect_covers(vs_pre, q2, d, i, j);
            assert(vs[4 * q2] == vs_pre[4 * q2]);
            assert(vs[4 * q2 + 1] == vs_pre[4 * q2 + 1]);
            assert(quad_rect_covers(vs, q2, d, i, j));
        }
    }
}

/// Scans one mask row, merging each unconsumed run into a maximal
/// rectangle and emitting it as a quad; the slice-level bookkeeping
/// (`msk0`, `vq0`) ties the quads emitted so far to the mask the slice
/// started with.
#[verifier::rlimit(100)]
fn merge_row(
    mask: &mut Mask,
    vox: &VoxelGrid,
    d: &Descriptor,
    slice: usize,
    y: usize,
    vertices: &mut Vec<Vertex>,
    indices: &mut Vec<u32>,
    Ghost(msk0): Ghost<Mask>,
    Ghost(vq0): Ghost<int>,
)
    requires
        vox.wf(),
        d.wf(),
        old(mask).wf(),
        old(mask).sx() == g_size(*vox, d.v as int),
        old(mask).sy() == g_size(*vox, d.w as int),
        msk0.sx() == old(mask).sx(),
        msk0.sy() == old(mask).sy(),
        slice < g_size(*vox, d.u as int),
        y < old(mask).sy(),
        buffers_wf(old(vertices)@, old(indices)@, vox.sx(), vox.sy(), vox.sz()),
        old(vertices)@.len() <= 0x1840_0000,
        0 <= vq0,
        4 * vq0 <= old(vertices)@.len(),
        mask_tracks(*old(mask), old(vertices)@, *d, vq0,
            old(vertices)@.len() as int / 4, msk0, old(mask).sx(), old(mask).sy()),
        forall|i: int, j: int| 0 <= i < old(mask).sx() && 0 <= j < y
            ==> #[trigger] old(mask).at(i, j) is None,
        slice_quads_wf(old(vertices)@, old(indices)@, *d, slice as int, vq0,
            old(vertices)@.len() as int / 4, old(mask).sx(), old(mask).sy()),
        slice_quads_sound(old(vertices)@, *d, vq0, old(vertices)@.len() as int / 4, msk0),
        slice_quads_disjoint(old(vertices)@, *d, vq0, old(vertices)@.len() as int / 4),
        slice_quads_maximal(old(vertices)@, *d, vq0, old(vertices)@.len() as int / 4,
            msk0, old(mask).sx(), old(mask).sy()),
        slice_quads_base_first(old(vertices)@, *d, vq0, old(vertices)@.len() as int / 4,
            msk0, old(mask).sx(), old(mask).sy()),
    ensures
        final(mask).wf(),
        final(mask).sx() == old(mask).sx(),
        final(mask).sy() == old(mask).sy(),
        buffers_wf(final(vertices)@, final(indices)@, vox.sx(), vox.sy(), vox.sz()),
        old(vertices)@.len() <= final(vertices)@.len(),
        final(vertices)@.len() <= old(vertices)@.len() + 4 * old(mask).sx(),
        forall|i: int| 0 <= i < old(vertices)@.len()
            ==> #[trigger] final(vertices)@[i] == old(vertices)@[i],
        forall|i: int| 0 <= i < old(indices)@.len()
            ==> #[trigger] final(indices)@[i] == old(indices)@[i],
        mask_tracks(*final(mask), final(vertices)@, *d, vq0,
            final(vertices)@.len() as int / 4, msk0, old(mask).sx(), old(mask).sy()),
        forall|i: int, j: int| 0 <= i < old(mask).sx() && 0 <= j < y + 1
            ==> #[trigger] final(mask).at(i, j) is None,
        slice_quads_wf(final(vertices)@, final(indices)@, *d, slice as int, vq0,
            final(vertices)@.len() as int / 4, old(mask).sx(), old(mask).sy()),
        slice_quads_sound(final(vertices)@, *d, vq0, final(vertices)@.len() as int / 4, msk0),
        slice_quads_disjoint(final(vertices)@, *d, vq0, final(vertices)@.len() as int / 4),
        slice_quads_maximal(final(vertices)@, *d, vq0, final(vertices)@.len() as int / 4,
            msk0, old(mask).sx(), old(mask).sy()),
        slice_quads_base_first(final(vertices)@, *d, vq0, final(vertices)@.len() as int / 4,
            msk0, old(mask).sx(), old(mask).sy()),
{
    let size_v = axis_size(vox, d.v);
    let size_w = axis_size(vox, d.w);
    let ghost len0 = vertices@.len() as int;
    let ghost islen0 = indices@.len() as int;
    for x in 0..size_v
        invariant
            vox.wf(),
            d.wf(),
            mask.wf(),
            mask.sx() == size_v,
            mask.sy() == size_w,
            msk0.sx() == size_v,
            msk0.sy() == size_w,
            size_v == g_size(*vox, d.v as int),
            size_w == g_size(*vox, d.w as int),
            slice < g_size(*vox, d.u as int),
            y < size_w,
            buffers_wf(vertices@, indices@, vox.sx(), vox.sy(), vox.sz()),
            len0 == old(vertices)@.len(),
            islen0 == old(indices)@.len(),
            len0 <= vertices@.len() <= len0 + 4 * x,
            islen0 <= indices@.len(),
            len0 <= 0x1840_0000,
            0 <= vq0,
            4 * vq0 <= len0,
            forall|i: int| 0 <= i < len0 ==> #[trigger] vertices@[i] == old(vertices)@[i],
            forall|i: int| 0 <= i < islen0 ==> #[trigger] indices@[i] == old(indices)@[i],
            mask_tracks(*mask, vertices@, *d, vq0,
                vertices@.len() as int / 4, msk0, size_v as int, size_w as int),
            forall|i: int, j: int| 0 <= i < size_v && 0 <= j < y
                ==> #[trigger] mask.at(i, j) is None,
            forall|i: int| 0 <= i < x ==> #[trigger] mask.at(i, y as int) is None,
            slice_quads_wf(vertices@, indices@, *d, slice as int, vq0,
                vertices@.len() as int / 4, size_v as int, size_w as int),
            slice_quads_sound(vertices@, *d, vq0, vertices@.len() as int / 4, msk0),
            slice_quads_disjoint(vertices@, *d, vq0, vertices@.len() as int / 4),
            slice_quads_maximal(vertices@, *d, vq0, vertices@.len() as int / 4,
                msk0, size_v as int, size_w as int),
            slice_quads_base_first(vertices@, *d, vq0, vertices@.len() as int / 4,
                msk0, size_v as int, size_w as int),
    {
        let color_id = mask.get(x, y);
        match color_id {
            Some(m) => {
                let mut width: usize = 1;
                while x + width < size_v && opt_eq(mask.get(x + width, y), color_id)
                    invariant
                        mask.wf(),
                        mask.sx() == size_v,
                        mask.sy() == size_w,
                        x < size_v,
                        y < size_w,
                        1 <= width,
                        x + width <= size_v,
                        color_id == Some(m),
                        forall|k: int| 0 <= k < width
                            ==> #[trigger] mask.at(x + k, y as int) == Some(m),
                    decreases size_v - width,
                {
                    width = width + 1;
                }
                let mut height: usize = 1;
                let mut done = false;
                let ghost mut bad_k: int = 0;
                while y + height < size_w && !done
                    invariant
                        mask.wf(),
                        mask.sx() == size_v,
                        mask.sy() == size_w,
                        x < size_v,
                        y < size_w,
                        x + width <= size_v,
                        1 <= height,
                        y + height <= size_w,
                        color_id == Some(m),
                        forall|k: int, jj: int| 0 <= k < width && 0 <= jj < height
                            ==> #[trigger] mask.at(x + k, y + jj) == Some(m),
                        done ==> x <= bad_k < x + width && y + height < size_w
                            && mask.at(bad_k, (y + height) as int) != Some(m),
                    decreases size_w - height + (if done { 0int } else { 1 }),
                {
                    let mut k: usize = 0;
                    while k < width && !done
                        invariant
                            mask.wf(),
                            mask.sx() == size_v,
                            mask.sy() == size_w,
                            x < size_v,
                            x + width <= size_v,
                            y + height < size_w,
                            k <= width,
                            color_id == Some(m),
                            !done ==> forall|kk: int| 0 <= kk < k
                                ==> #[trigger] mask.at(x + kk, (y + height) as int) == Some(m),
                            done ==> x <= bad_k < x + width
                                && mask.at(bad_k, (y + height) as int) != Some(m),
                        decreases width - k + (if done { 0int } else { 1 }),
                    {
                        if opt_eq(mask.get(x + k, y + height), color_id) {
                            k = k + 1;
                        } else {
                            done = true;
                            proof {
                                bad_k = x + k;
                            }
                        }
                    }
                    if !done {
                        height = height + 1;
                    }
                }
                proof {
                    assert(x + width == size_v
                        || mask.at((x + width) as int, y as int) != Some(m));
                    assert(y + height == size_w
                        || (x <= bad_k < x + width
                            && mask.at(bad_k, (y + height) as int) != Some(m)));
                }
                let ghost vs_pre = vertices@;
                let ghost is_pre = indices@;
                let ghost mask_pre = *mask;
                let ghost nq = vs_pre.len() as int / 4;
                emit_quad(mask, vox, d, slice, x, y, width, height, m, vertices, indices);
                proof {
                    assert(4 * nq == vs_pre.len());
                    assert forall|i: int, j: int|
                        x <= i < x + width && y <= j < y + height
                            implies #[trigger] mask_pre.at(i, j) == Some(m) by {
                        assert(mask_pre.at(x + (i - x), y + (j - y)) == Some(m));
                    }
                    lemma_emit_quads_wf(
                        vs_pre, is_pre, vertices@, indices@,
                        *d, slice as int, vq0,
                        x as int, y as int, width as int, height as int,
                        size_v as int, size_w as int,
                    );
                    lemma_emit_sound(
                        vs_pre, vertices@, *d, vq0, msk0, mask_pre,
                        x as int, y as int, width as int, height as int, m,
                        size_v as int, size_w as int,
                    );
                    lemma_emit_disjoint(
                        vs_pre, vertices@, *d, vq0, msk0, mask_pre,
                        x as int, y as int, width as int, height as int, m,
                        size_v as int, size_w as int,
                    );
                    lemma_emit_mask(
                        vs_pre, vertices@, *d, vq0, msk0, mask_pre, *mask,
                        x as int, y as int, width as int, height as int,
                        size_v as int, size_w as int,
                    );
                    if y + height != size_w {
                        assert(mask_pre.at(bad_k, (y + height) as int) != Some(m));
                    }
                    lemma_emit_maximal(
                        vs_pre, vertices@, *d, vq0, msk0, mask_pre,
                        x as int, y as int, width as int, height as int, m,
                        size_v as int, size_w as int,
                    );
                    lemma_emit_base_first(
                        vs_pre, vertices@, *d, vq0, msk0, mask_pre,
                        x as int, y as int, width as int, height as int,
                        size_v as int, size_w as int,
                    );
                    assert forall|i: int, j: int| 0 <= i < size_v && 0 <= j < y
                        implies #[trigger] mask.at(i, j) is None by {
                        assert(mask.at(i, j) == mask_pre.at(i, j));
                    }
                    assert forall|i: int| 0 <= i < x + 1
                        implies #[trigger] mask.at(i, y as int) is None by {
                        if i < x {
                            assert(mask.at(i, y as int) == mask_pre.at(i, y as int));
                        }
                    }
                    assert forall|i: int| 0 <= i < len0
                        implies #[trigger] vertices@[i] == old(vertices)@[i] by {
                        assert(vertices@[i] == vs_pre[i]);
                    }
                    assert forall|i: int| 0 <= i < islen0
                        implies #[trigger] indices@[i] == old(indices)@[i] by {
                        assert(indices@[i] == is_pre[i]);
                    }
                }
            },
            None => {
            },
        }
    }
    proof {
        assert forall|i: int, j: int| 0 <= i < size_v && 0 <= j < y + 1
            implies #[trigger] mask.at(i, j) is None by {
            if j == y {
                assert(mask.at(i, y as int) is None);
            }
        }
    }
}

/// Greedily merges one slice's mask into maximal rectangles and appends
/// each as a quad.  On return the emitted quads of this call stand
/// exactly for the `Some` cells the mask held on entry: each quad lies in
/// this slice, covers only entry cells of its own color, every entry
/// `Some` cell is covered, and no cell is covered twice.
#[verifier::rlimit(100)]
fn merge_slice(
    mask: &mut Mask,
    vox: &VoxelGrid,
    d: &Descriptor,
    slice: usize,
    vertices: &mut Vec<Vertex>,
    indices: &mut Vec<u32>,
)
    requires
        vox.wf(),
        d.wf(),
        old(mask).wf(),
        old(mask).sx() == g_size(*vox, d.v as int),
        old(mask).sy() == g_size(*vox, d.w as int),
        slice < g_size(*vox, d.u as int),
        buffers_wf(old(vertices)@, old(indices)@, vox.sx(), vox.sy(), vox.sz()),
        old(vertices)@.len() <= 0x1800_0000,
    ensures
        buffers_wf(final(vertices)@, final(indices)@, vox.sx(), vox.sy(), vox.sz()),
        old(vertices)@.len() <= final(vertices)@.len(),
        final(vertices)@.len() <= old(vertices)@.len() + 4 * (old(mask).sx() * old(mask).sy()),
        forall|i: int| 0 <= i < old(vertices)@.len()
            ==> #[trigger] final(vertices)@[i] == old(vertices)@[i],
        forall|i: int| 0 <= i < old(indices)@.len()
            ==> #[trigger] final(indices)@[i] == old(indices)@[i],
        slice_quads_wf(final(vertices)@, final(indices)@, *d, slice as int,
            old(vertices)@.len() as int / 4, final(vertices)@.len() as int / 4,
            old(mask).sx(), old(mask).sy()),
        slice_quads_sound(final(vertices)@, *d,
            old(vertices)@.len() as int / 4, final(vertices)@.len() as int / 4, *old(mask)),
        slice_quads_disjoint(final(vertices)@, *d,
            old(vertices)@.len() as int / 4, final(vertices)@.len() as int / 4),
        mask_all_covered(*old(mask), final(vertices)@, *d,
            old(vertices)@.len() as int / 4, final(vertices)@.len() as int / 4,
            old(mask).sx(), old(mask).sy()),
        slice_quads_maximal(final(vertices)@, *d, old(vertices)@.len() as int / 4,
            final(vertices)@.len() as int / 4, *old(mask), old(mask).sx(), old(mask).sy()),
        slice_quads_base_first(final(vertices)@, *d, old(vertices)@.len() as int / 4,
            final(vertices)@.len() as int / 4, *old(mask), old(mask).sx(), old(mask).sy()),
{
    let size_v = axis_size(vox, d.v);
    let size_w = axis_size(vox, d.w);
    let ghost msk0 = *mask;
    let ghost len0 = vertices@.len() as int;
    let ghost islen0 = indices@.len() as int;
    let ghost vq0 = len0 / 4;
    proof {
        assert(4 * vq0 == len0);
    }
    for y in 0..size_w
        invariant
            vox.wf(),
            d.wf(),
            mask.wf(),
            mask.sx() == size_v,
            mask.sy() == size_w,
            msk0.sx() == size_v,
            msk0.sy() == size_w,
            msk0 == *old(mask),
            size_v == g_size(*vox, d.v as int),
            size_w == g_size(*vox, d.w as int),
            slice < g_size(*vox, d.u as int),
            buffers_wf(vertices@, indices@, vox.sx(), vox.sy(), vox.sz()),
            len0 == old(vertices)@.len(),
            islen0 == old(indices)@.len(),
            len0 <= vertices@.len() <= len0 + 4 * (y * size_v),
            islen0 <= indices@.len(),
            len0 <= 0x1800_0000,
            0 <= vq0,
            4 * vq0 == len0,
            forall|i: int| 0 <= i < len0 ==> #[trigger] vertices@[i] == old(vertices)@[i],
            forall|i: int| 0 <= i < islen0 ==> #[trigger] indices@[i] == old(indices)@[i],
            mask_tracks(*mask, vertices@, *d, vq0,
                vertices@.len() as int / 4, msk0, size_v as int, size_w as int),
            forall|i: int, j: int| 0 <= i < size_v && 0 <= j < y
                ==> #[trigger] mask.at(i, j) is None,
            slice_quads_wf(vertices@, indices@, *d, slice as int, vq0,
                vertices@.len() as int / 4, size_v as int, size_w as int),
            slice_quads_sound(vertices@, *d, vq0, vertices@.len() as int / 4, msk0),
            slice_quads_disjoint(vertices@, *d, vq0, vertices@.len() as int / 4),
            slice_quads_maximal(vertices@, *d, vq0, vertices@.len() as int / 4,
                msk0, size_v as int, size_w as int),
            slice_quads_base_first(vertices@, *d, vq0, vertices@.len() as int / 4,
                msk0, size_v as int, size_w as int),
    {
        proof {
            assert(y * size_v + size_v == (y + 1) * size_v) by (nonlinear_arith);
            assert(y * size_v <= 0x10000) by (nonlinear_arith)
                requires
                    0 <= y < size_w <= 256,
                    0 < size_v <= 256,
            ;
        }
        let ghost row_vs = vertices@;
        let ghost row_is = indices@;
        merge_row(mask, vox, d, slice, y, vertices, indices, Ghost(msk0), Ghost(vq0));
        proof {
            assert forall|i: int| 0 <= i < len0
                implies #[trigger] vertices@[i] == old(vertices)@[i] by {
                assert(i < row_vs.len());
                assert(vertices@[i] == row_vs[i]);
            }
            assert forall|i: int| 0 <= i < islen0
                implies #[trigger] indices@[i] == old(indices)@[i] by {
                assert(i < row_is.len());
                assert(indices@[i] == row_is[i]);
            }
        }
    }
    proof {
        assert(vertices@.len() <= len0 + 4 * (size_w as int * size_v as int));
        let a = old(mask).sx();
        let b = old(mask).sy();
        assert(size_w as int * size_v as int == b * a);
        assert(b * a == a * b) by (nonlinear_arith);
        let vs = vertices@;
        let qn = vs.len() as int / 4;
        assert forall|cv: int, cw: int|
            0 <= cv < old(mask).sx() && 0 <= cw < old(mask).sy()
                && (#[trigger] msk0.at(cv, cw)) is Some
                implies slice_covered(vs, vq0, qn, *d, cv, cw) by {
            assert(mask.at(cv, cw) is None);
        }
    }
}

/// Lattice position of a quad corner: `au` along the scan axis, `av` and
/// `aw` along the two in-plane axes.
fn make_position(d: &Descriptor, au: usize, av: usize, aw: usize) -> (p: (i32, i32, i32))
    requires
        d.wf(),
        au <= 0x200,
        av <= 0x200,
        aw <= 0x200,
    ensures
        p.0 == coord_at(*d, au as int, av as int, aw as int, 0),
        p.1 == coord_at(*d, au as int, av as int, aw as int, 1),
        p.2 == coord_at(*d, au as int, av as int, aw as int, 2),
        0 <= p.0 && 0 <= p.1 && 0 <= p.2,
{
    (
        coord_at_exec(d, au, av, aw, 0) as i32,
        coord_at_exec(d, au, av, aw, 1) as i32,
        coord_at_exec(d, au, av, aw, 2) as i32,
    )
}

/// Appending one quad's four vertices and six indices keeps the buffers
/// well-formed, provided the new quad itself is.
proof fn lemma_quad_append(
    vs_pre: Seq<Vertex>, is_pre: Seq<u32>, vs: Seq<Vertex>, is: Seq<u32>,
    sx: int, sy: int, sz: int,
)
    requires
        buffers_wf(vs_pre, is_pre, sx, sy, sz),
        vs.len() == vs_pre.len() + 4,
        is.len() == is_pre.len() + 6,
        forall|i: int| 0 <= i < vs_pre.len() ==> vs[i] == vs_pre[i],
        forall|i: int| 0 <= i < is_pre.len() ==> is[i] == is_pre[i],
        quad_pattern_pos(is, vs_pre.len() as int / 4) || quad_pattern_neg(is, vs_pre.len() as int / 4),
        quad_vertices_wf(vs, vs_pre.len() as int / 4, sx, sy, sz),
    ensures
        buffers_wf(vs, is, sx, sy, sz),
{
    let q0 = vs_pre.len() as int / 4;
    assert(vs.len() / 4 == q0 + 1);
    assert forall|q: int| 0 <= q < vs.len() / 4
        implies #[trigger] quad_pattern_pos(is, q) || quad_pattern_neg(is, q) by {
        if q < q0 {
            assert(quad_pattern_pos(is_pre, q) || quad_pattern_neg(is_pre, q));
        }
    }
    assert forall|q: int| 0 <= q < vs.len() / 4
        implies #[trigger] quad_vertices_wf(vs, q, sx, sy, sz) by {
        if q < q0 {
            assert(quad_vertices_wf(vs_pre, q, sx, sy, sz));
        }
    }
}

/// One slice of one direction, merged: folds the slice's fresh quads and
/// the slice's visibility mask into the direction- and mesh-level books.
#[verifier::rlimit(100)]
#[verifier::spinoff_prover]
proof fn lemma_slice_aggregate(
    pre_vs: Seq<Vertex>, pre_is: Seq<u32>, vs: Seq<Vertex>, is: Seq<u32>,
    g: VoxelGrid, d: Descriptor, di: int, dq0: int,
    msk0: Mask, slice: int, size_u: int, slice_i: int,
)
    requires
        g.wf(),
        d.wf(),
        0 <= di < 6,
        d == face_descriptor(di),
        size_u == g_size(g, d.u as int),
        0 <= slice_i < size_u,
        slice == if d.step == 1 { slice_i } else { size_u - (slice_i + 1) },
        msk0.sx() == g_size(g, d.v as int),
        msk0.sy() == g_size(g, d.w as int),
        forall|cv: int, cw: int|
            0 <= cv < msk0.sx() && 0 <= cw < msk0.sy()
                ==> #[trigger] msk0.at(cv, cw) == mask_spec(g, d, slice, cv, cw),
        buffers_wf(pre_vs, pre_is, g.sx(), g.sy(), g.sz()),
        buffers_wf(vs, is, g.sx(), g.sy(), g.sz()),
        pre_vs.len() <= vs.len(),
        forall|i: int| 0 <= i < pre_vs.len() ==> #[trigger] vs[i] == pre_vs[i],
        forall|i: int| 0 <= i < pre_is.len() ==> #[trigger] is[i] == pre_is[i],
        0 <= dq0,
        4 * dq0 <= pre_vs.len(),
        slice_quads_wf(vs, is, d, slice, pre_vs.len() as int / 4, vs.len() as int / 4,
            msk0.sx(), msk0.sy()),
        slice_quads_sound(vs, d, pre_vs.len() as int / 4, vs.len() as int / 4, msk0),
        slice_quads_disjoint(vs, d, pre_vs.len() as int / 4, vs.len() as int / 4),
        mask_all_covered(msk0, vs, d, pre_vs.len() as int / 4, vs.len() as int / 4,
            msk0.sx(), msk0.sy()),
        slice_quads_maximal(vs, d, pre_vs.len() as int / 4, vs.len() as int / 4,
            msk0, msk0.sx(), msk0.sy()),
        slice_quads_base_first(vs, d, pre_vs.len() as int / 4, vs.len() as int / 4,
            msk0, msk0.sx(), msk0.sy()),
        quads_face_exact_upto(pre_vs, pre_is, g, pre_vs.len() as int / 4),
        quads_before_dir(pre_vs, dq0, di),
        dirs_covered_upto(pre_vs, g, pre_vs.len() as int / 4, di),
        quads_dir_disjoint_upto(pre_vs, pre_vs.len() as int / 4),
        quads_maximal_upto(pre_vs, g, pre_vs.len() as int / 4),
        quads_base_first_upto(pre_vs, g, pre_vs.len() as int / 4),
        dir_quads_in_processed(pre_vs, d, dq0, pre_vs.len() as int / 4, size_u, slice_i),
        dir_slices_covered(pre_vs, g, d, pre_vs.len() as int / 4, size_u, slice_i),
    ensures
        quads_face_exact_upto(vs, is, g, vs.len() as int / 4),
        quads_before_dir(vs, dq0, di),
        dirs_covered_upto(vs, g, vs.len() as int / 4, di),
        quads_dir_disjoint_upto(vs, vs.len() as int / 4),
        quads_maximal_upto(vs, g, vs.len() as int / 4),
        quads_base_first_upto(vs, g, vs.len() as int / 4),
        dir_quads_in_processed(vs, d, dq0, vs.len() as int / 4, size_u, slice_i + 1),
        dir_slices_covered(vs, g, d, vs.len() as int / 4, size_u, slice_i + 1),
{
    let sq0 = pre_vs.len() as int / 4;
    let qn = vs.len() as int / 4;
    assert(4 * sq0 == pre_vs.len());
    assert(pre_is.len() == 6 * sq0);
    assert(4 * qn == vs.len());
    let sv = msk0.sx();
    let sw = msk0.sy();
    assert forall|q: int| #![trigger vs[4 * q]] 0 <= q < qn
        implies quad_face_exact(vs, is, q, g) by {
        if q < sq0 {
            assert(quad_face_exact(pre_vs, pre_is, q, g));
            let di2 = choose|di2: int| #![trigger face_descriptor(di2)]
                0 <= di2 < 6 && {
                    let dd = face_descriptor(di2);
                    let s = axis_of(pre_vs[4 * q].position, dd.u as int) - dd.q.0;
                    &&& quad_in_slice(pre_vs, q, dd, s)
                    &&& 0 <= s < g_size(g, dd.u as int)
                    &&& 0 <= axis_of(pre_vs[4 * q].position, dd.v as int)
                    &&& axis_of(pre_vs[4 * q].position, dd.v as int)
                        < axis_of(pre_vs[4 * q + 1].position, dd.v as int)
                    &&& axis_of(pre_vs[4 * q + 1].position, dd.v as int) <= g_size(g, dd.v as int)
                    &&& 0 <= axis_of(pre_vs[4 * q].position, dd.w as int)
                    &&& axis_of(pre_vs[4 * q].position, dd.w as int)
                        < axis_of(pre_vs[4 * q + 1].position, dd.w as int)
                    &&& axis_of(pre_vs[4 * q + 1].position, dd.w as int) <= g_size(g, dd.w as int)
                    &&& (forall|cv: int, cw: int| #![trigger quad_rect_covers(pre_vs, q, dd, cv, cw)]
                        quad_rect_covers(pre_vs, q, dd, cv, cw)
                            ==> mask_spec(g, dd, s, cv, cw) == Some(pre_vs[4 * q].color))
                    &&& (dd.step == 1 ==> quad_pattern_pos(pre_is, q))
                    &&& (dd.step == -1 ==> quad_pattern_neg(pre_is, q))
                };
            let dd = face_descriptor(di2);
            assert(vs[4 * q] == pre_vs[4 * q]);
            assert(vs[4 * q + 1] == pre_vs[4 * q + 1]);
            assert(is[6 * q] == pre_is[6 * q]);
            assert(is[6 * q + 1] == pre_is[6 * q + 1]);
            assert(is[6 * q + 2] == pre_is[6 * q + 2]);
            assert(is[6 * q + 3] == pre_is[6 * q + 3]);
            assert(is[6 * q + 4] == pre_is[6 * q + 4]);
            assert(is[6 * q + 5] == pre_is[6 * q + 5]);
            assert forall|cv: int, cw: int| #![trigger quad_rect_covers(vs, q, dd, cv, cw)]
                quad_rect_covers(vs, q, dd, cv, cw)
                    implies mask_spec(g, dd,
                        axis_of(vs[4 * q].position, dd.u as int) - dd.q.0, cv, cw)
                        == Some(vs[4 * q].color) by {
                assert(quad_rect_covers(pre_vs, q, dd, cv, cw));
            }
            assert(quad_face_exact(vs, is, q, g));
        } else {
            assert(quad_in_slice(vs, q, d, slice));
            assert(axis_of(vs[4 * q].position, d.u as int) == slice + d.q.0);
            assert forall|cv: int, cw: int| #![trigger quad_rect_covers(vs, q, d, cv, cw)]
                quad_rect_covers(vs, q, d, cv, cw)
                    implies mask_spec(g, d, slice, cv, cw) == Some(vs[4 * q].color) by {
                assert(msk0.at(cv, cw) == Some(vs[4 * q].color));
                assert(0 <= cv < sv && 0 <= cw < sw);
            }
            assert(face_descriptor(di) == d);
            assert(quad_face_exact(vs, is, q, g));
        }
    }
    assert forall|q: int| #![trigger vs[4 * q]] 0 <= q < dq0
        implies 0 <= quad_dir(vs[4 * q].normal) < di by {
        assert(vs[4 * q] == pre_vs[4 * q]);
    }
    assert forall|di2: int, s: int, cv: int, cw: int|
        #![trigger mask_spec(g, face_descriptor(di2), s, cv, cw)]
        0 <= di2 < di && 0 <= s < g_size(g, face_descriptor(di2).u as int)
            && 0 <= cv < g_size(g, face_descriptor(di2).v as int)
            && 0 <= cw < g_size(g, face_descriptor(di2).w as int)
            && mask_spec(g, face_descriptor(di2), s, cv, cw) is Some
            implies exists|q: int|
                #![trigger quad_rect_covers(vs, q, face_descriptor(di2), cv, cw)]
                0 <= q < qn && quad_in_slice(vs, q, face_descriptor(di2), s)
                    && quad_rect_covers(vs, q, face_descriptor(di2), cv, cw) by {
        let dd = face_descriptor(di2);
        let q = choose|q: int| #![trigger quad_rect_covers(pre_vs, q, dd, cv, cw)]
            0 <= q < sq0 && quad_in_slice(pre_vs, q, dd, s)
                && quad_rect_covers(pre_vs, q, dd, cv, cw);
        assert(vs[4 * q] == pre_vs[4 * q]);
        assert(vs[4 * q + 1] == pre_vs[4 * q + 1]);
        assert(quad_rect_covers(vs, q, dd, cv, cw));
        assert(quad_in_slice(vs, q, dd, s));
    }
    assert forall|q: int| #![trigger vs[4 * q]]
        dq0 <= q < qn
            implies quad_in_slice(vs, q, d, axis_of(vs[4 * q].position, d.u as int) - d.q.0)
                && processed_slice(d, size_u, slice_i + 1,
                    axis_of(vs[4 * q].position, d.u as int) - d.q.0) by {
        if q < sq0 {
            assert(vs[4 * q] == pre_vs[4 * q]);
            assert(quad_in_slice(pre_vs, q, d,
                axis_of(pre_vs[4 * q].position, d.u as int) - d.q.0));
        } else {
            assert(quad_in_slice(vs, q, d, slice));
            assert(axis_of(vs[4 * q].position, d.u as int) == slice + d.q.0);
        }
    }
    assert forall|s: int, cv: int, cw: int| #![trigger mask_spec(g, d, s, cv, cw)]
        processed_slice(d, size_u, slice_i + 1, s)
            && 0 <= cv < g_size(g, d.v as int) && 0 <= cw < g_size(g, d.w as int)
            && mask_spec(g, d, s, cv, cw) is Some
            implies exists|q: int| #![trigger quad_rect_covers(vs, q, d, cv, cw)]
                0 <= q < qn && quad_in_slice(vs, q, d, s)
                    && quad_rect_covers(vs, q, d, cv, cw) by {
        if processed_slice(d, size_u, slice_i, s) {
            let q = choose|q: int| #![trigger quad_rect_covers(pre_vs, q, d, cv, cw)]
                0 <= q < sq0 && quad_in_slice(pre_vs, q, d, s)
                    && quad_rect_covers(pre_vs, q, d, cv, cw);
            assert(vs[4 * q] == pre_vs[4 * q]);
            assert(vs[4 * q + 1] == pre_vs[4 * q + 1]);
            assert(quad_rect_covers(vs, q, d, cv, cw));
            assert(quad_in_slice(vs, q, d, s));
        } else {
            assert(s == slice);
            assert(msk0.at(cv, cw) is Some);
            assert(slice_covered(vs, sq0, qn, d, cv, cw));
            let q = choose|q: int| #![trigger quad_rect_covers(vs, q, d, cv, cw)]
                sq0 <= q < qn && quad_rect_covers(vs, q, d, cv, cw);
            assert(quad_in_slice(vs, q, d, slice));
        }
    }
    assert forall|q1: int, q2: int, di2: int, s: int, cv: int, cw: int|
        #![trigger quad_in_slice(vs, q1, face_descriptor(di2), s),
            quad_in_slice(vs, q2, face_descriptor(di2), s),
            quad_rect_covers(vs, q1, face_descriptor(di2), cv, cw),
            quad_rect_covers(vs, q2, face_descriptor(di2), cv, cw)]
        0 <= q1 < qn && 0 <= q2 < qn && q1 != q2 && 0 <= di2 < 6
            && quad_in_slice(vs, q1, face_descriptor(di2), s)
            && quad_in_slice(vs, q2, face_descriptor(di2), s)
            && quad_rect_covers(vs, q1, face_descriptor(di2), cv, cw)
            && quad_rect_covers(vs, q2, face_descriptor(di2), cv, cw)
            implies false by {
        let dd = face_descriptor(di2);
        if q1 < sq0 && q2 < sq0 {
            assert(vs[4 * q1] == pre_vs[4 * q1]);
            assert(vs[4 * q1 + 1] == pre_vs[4 * q1 + 1]);
            assert(vs[4 * q2] == pre_vs[4 * q2]);
            assert(vs[4 * q2 + 1] == pre_vs[4 * q2 + 1]);
            assert(quad_in_slice(pre_vs, q1, dd, s));
            assert(quad_in_slice(pre_vs, q2, dd, s));
            assert(quad_rect_covers(pre_vs, q1, dd, cv, cw));
            assert(quad_rect_covers(pre_vs, q2, dd, cv, cw));
        } else if q1 >= sq0 && q2 >= sq0 {
            assert(quad_in_slice(vs, q1, d, slice));
            assert(di2 == quad_dir(vs[4 * q1].normal));
            assert(dd == d);
            assert(quad_rect_covers(vs, q1, d, cv, cw));
            assert(quad_rect_covers(vs, q2, d, cv, cw));
        } else {
            let qo = if q1 < sq0 { q1 } else { q2 };
            let qf = if q1 < sq0 { q2 } else { q1 };
            assert(qf >= sq0 && qo < sq0);
            assert(quad_in_slice(vs, qf, d, slice));
            assert(di2 == quad_dir(vs[4 * qf].normal));
            assert(dd == d);
            assert(s + dd.q.0 == axis_of(vs[4 * qf].position, dd.u as int));
            assert(s == slice);
            if qo < dq0 {
                assert(vs[4 * qo] == pre_vs[4 * qo]);
                assert(0 <= quad_dir(pre_vs[4 * qo].normal) < di);
                assert(quad_dir(vs[4 * qo].normal) == di2);
            } else {
                assert(vs[4 * qo] == pre_vs[4 * qo]);
                assert(quad_in_slice(pre_vs, qo, d,
                    axis_of(pre_vs[4 * qo].position, d.u as int) - d.q.0));
                assert(processed_slice(d, size_u, slice_i,
                    axis_of(pre_vs[4 * qo].position, d.u as int) - d.q.0));
                assert(axis_of(vs[4 * qo].position, d.u as int) == s + d.q.0);
                assert(!processed_slice(d, size_u, slice_i, slice));
            }
        }
    }
    assert forall|q: int, di2: int, s: int|
        #![trigger quad_in_slice(vs, q, face_descriptor(di2), s)]
        0 <= q < qn && 0 <= di2 < 6
            && quad_in_slice(vs, q, face_descriptor(di2), s)
            implies {
                let dd = face_descriptor(di2);
                let v0 = axis_of(vs[4 * q].position, dd.v as int);
                let v1 = axis_of(vs[4 * q + 1].position, dd.v as int);
                let w0 = axis_of(vs[4 * q].position, dd.w as int);
                let w1 = axis_of(vs[4 * q + 1].position, dd.w as int);
                &&& (v1 == g_size(g, dd.v as int)
                    || mask_spec(g, dd, s, v1, w0) != Some(vs[4 * q].color)
                    || covered_before(vs, q, dd, s, v1, w0))
                &&& (w1 == g_size(g, dd.w as int) || exists|k: int|
                    #![trigger mask_spec(g, dd, s, k, w1)]
                    v0 <= k < v1 && (mask_spec(g, dd, s, k, w1) != Some(vs[4 * q].color)
                        || covered_before(vs, q, dd, s, k, w1)))
            } by {
        let dd = face_descriptor(di2);
        let v0 = axis_of(vs[4 * q].position, dd.v as int);
        let v1 = axis_of(vs[4 * q + 1].position, dd.v as int);
        let w0 = axis_of(vs[4 * q].position, dd.w as int);
        let w1 = axis_of(vs[4 * q + 1].position, dd.w as int);
        if q < sq0 {
            assert(vs[4 * q] == pre_vs[4 * q]);
            assert(vs[4 * q + 1] == pre_vs[4 * q + 1]);
            assert(quad_in_slice(pre_vs, q, dd, s));
            if v1 != g_size(g, dd.v as int)
                && mask_spec(g, dd, s, v1, w0) == Some(vs[4 * q].color) {
                assert(covered_before(pre_vs, q, dd, s, v1, w0));
                let q2 = choose|q2: int| #![trigger quad_rect_covers(pre_vs, q2, dd, v1, w0)]
                    0 <= q2 < q && quad_in_slice(pre_vs, q2, dd, s)
                        && quad_rect_covers(pre_vs, q2, dd, v1, w0);
                assert(vs[4 * q2] == pre_vs[4 * q2]);
                assert(vs[4 * q2 + 1] == pre_vs[4 * q2 + 1]);
                assert(quad_rect_covers(vs, q2, dd, v1, w0));
                assert(quad_in_slice(vs, q2, dd, s));
                assert(covered_before(vs, q, dd, s, v1, w0));
            }
            if w1 != g_size(g, dd.w as int) {
                let k = choose|k: int| #![trigger mask_spec(g, dd, s, k, w1)]
                    v0 <= k < v1 && (mask_spec(g, dd, s, k, w1) != Some(pre_vs[4 * q].color)
                        || covered_before(pre_vs, q, dd, s, k, w1));
                if mask_spec(g, dd, s, k, w1) == Some(vs[4 * q].color) {
                    assert(covered_before(pre_vs, q, dd, s, k, w1));
                    let q2 = choose|q2: int| #![trigger quad_rect_covers(pre_vs, q2, dd, k, w1)]
                        0 <= q2 < q && quad_in_slice(pre_vs, q2, dd, s)
                            && quad_rect_covers(pre_vs, q2, dd, k, w1);
                    assert(vs[4 * q2] == pre_vs[4 * q2]);
                    assert(vs[4 * q2 + 1] == pre_vs[4 * q2 + 1]);
                    assert(quad_rect_covers(vs, q2, dd, k, w1));
                    assert(quad_in_slice(vs, q2, dd, s));
                    assert(covered_before(vs, q, dd, s, k, w1));
                }
                assert(v0 <= k < v1 && (mask_spec(g, dd, s, k, w1) != Some(vs[4 * q].color)
                    || covered_before(vs, q, dd, s, k, w1)));
            }
        } else {
            assert(quad_in_slice(vs, q, d, slice));
            assert(di2 == quad_dir(vs[4 * q].normal));
            assert(dd == d);
            assert(s == slice);
            if v1 != g_size(g, dd.v as int)
                && mask_spec(g, dd, s, v1, w0) == Some(vs[4 * q].color) {
                assert(0 <= v1 < sv && 0 <= w0 < sw);
                assert(msk0.at(v1, w0) == Some(vs[4 * q].color));
                assert(slice_covered(vs, sq0, q, d, v1, w0));
                let q2 = choose|q2: int| #![trigger quad_rect_covers(vs, q2, d, v1, w0)]
                    sq0 <= q2 < q && quad_rect_covers(vs, q2, d, v1, w0);
                assert(quad_in_slice(vs, q2, d, slice));
                assert(covered_before(vs, q, dd, s, v1, w0));
            }
            if w1 != g_size(g, dd.w as int) {
                let k = choose|k: int| #![trigger msk0.at(k, w1)]
                    v0 <= k < v1 && (msk0.at(k, w1) != Some(vs[4 * q].color)
                        || slice_covered(vs, sq0, q, d, k, w1));
                assert(0 <= k < sv && 0 <= w1 < sw);
                assert(msk0.at(k, w1) == mask_spec(g, d, slice, k, w1));
                if mask_spec(g, dd, s, k, w1) == Some(vs[4 * q].color) {
                    assert(slice_covered(vs, sq0, q, d, k, w1));
                    let q2 = choose|q2: int| #![trigger quad_rect_covers(vs, q2, d, k, w1)]
                        sq0 <= q2 < q && quad_rect_covers(vs, q2, d, k, w1);
                    assert(quad_in_slice(vs, q2, d, slice));
                    assert(covered_before(vs, q, dd, s, k, w1));
                }
                assert(v0 <= k < v1 && (mask_spec(g, dd, s, k, w1) != Some(vs[4 * q].color)
                    || covered_before(vs, q, dd, s, k, w1)));
            }
        }
    }
    assert forall|q: int, di2: int, s: int, i: int, j: int|
        #![trigger quad_in_slice(vs, q, face_descriptor(di2), s), mask_spec(g, face_descriptor(di2), s, i, j)]
        0 <= q < qn && 0 <= di2 < 6
            && quad_in_slice(vs, q, face_descriptor(di2), s)
            && 0 <= i < g_size(g, face_descriptor(di2).v as int)
            && 0 <= j < g_size(g, face_descriptor(di2).w as int)
            && (j < axis_of(vs[4 * q].position, face_descriptor(di2).w as int)
                || (j == axis_of(vs[4 * q].position, face_descriptor(di2).w as int)
                    && i < axis_of(vs[4 * q].position, face_descriptor(di2).v as int)))
            && mask_spec(g, face_descriptor(di2), s, i, j) is Some
            implies covered_before(vs, q, face_descriptor(di2), s, i, j) by {
        let dd = face_descriptor(di2);
        if q < sq0 {
            assert(vs[4 * q] == pre_vs[4 * q]);
            assert(quad_in_slice(pre_vs, q, dd, s));
            assert(covered_before(pre_vs, q, dd, s, i, j));
            let q2 = choose|q2: int| #![trigger quad_rect_covers(pre_vs, q2, dd, i, j)]
                0 <= q2 < q && quad_in_slice(pre_vs, q2, dd, s)
                    && quad_rect_covers(pre_vs, q2, dd, i, j);
            assert(vs[4 * q2] == pre_vs[4 * q2]);
            assert(vs[4 * q2 + 1] == pre_vs[4 * q2 + 1]);
            assert(quad_rect_covers(vs, q2, dd, i, j));
            assert(quad_in_slice(vs, q2, dd, s));
        } else {
            assert(quad_in_slice(vs, q, d, slice));
            assert(di2 == quad_dir(vs[4 * q].normal));
            assert(dd == d);
            assert(s == slice);
            assert(msk0.at(i, j) == mask_spec(g, d, slice, i, j));
            assert(slice_covered(vs, sq0, q, d, i, j));
            let q2 = choose|q2: int| #![trigger quad_rect_covers(vs, q2, d, i, j)]
                sq0 <= q2 < q && quad_rect_covers(vs, q2, d, i, j);
            assert(quad_in_slice(vs, q2, d, slice));
            assert(covered_before(vs, q, dd, s, i, j));
        }
    }
}

/// In any non-empty column along the scan axis there is a first filled
/// voxel, and its backward face is exposed: the grid ends or is empty one
/// step behind it.
proof fn lemma_first_filled(g: VoxelGrid, x: int, y: int, z: int)
    requires
        g.wf(),
        g.in_bounds(x, y, z),
        g.cell(x, y, z) is Some,
    ensures
        exists|x0: int|
            0 <= x0 <= x && (#[trigger] g.cell(x0, y, z)) is Some
                && (x0 == 0 || g.cell(x0 - 1, y, z) is None),
    decreases x,
{
    if x == 0 || g.cell(x - 1, y, z) is None {
        assert(g.cell(x, y, z) is Some);
    } else {
        lemma_first_filled(g, x - 1, y, z);
    }
}

/// Meshes a composited grid.  Yields `None` exactly for an untouched
/// (all-empty) grid; otherwise a mesh of visible faces, well-formed for
/// the grid's dimensions and marked freshly loaded, holding at least one
/// quad.
pub fn greedy_mesh(vox: VoxelGrid) -> (r: Option<Mesh>)
    requires
        vox.wf(),
    ensures
        r is Some <==> vox.spec_touched(),
        match r {
            Some(m) => mesh_wf(m, vox.sx(), vox.sy(), vox.sz()) && m.just_loaded
                && m.vertices@.len() >= 4 && mesh_faces_exact(m, vox),
            None => true,
        },
{
    let mut vertices: Vec<Vertex> = Vec::new();
    let mut indices: Vec<u32> = Vec::new();
    let mut descriptors: Vec<Descriptor> = Vec::new();
    descriptors.push(Descriptor::new(0, 1, 2, 1, (1, 0, 0), (0, 0, 0)));
    descriptors.push(Descriptor::new(0, 1, 2, -1, (-1, 0, 0), (1, 0, 0)));
    descriptors.push(Descriptor::new(1, 2, 0, 1, (0, 1, 0), (0, 0, 0)));
    descriptors.push(Descriptor::new(1, 2, 0, -1, (0, -1, 0), (1, 0, 0)));
    descriptors.push(Descriptor::new(2, 0, 1, 1, (0, 0, 1), (0, 0, 0)));
    descriptors.push(Descriptor::new(2, 0, 1, -1, (0, 0, -1), (1, 0, 0)));
    let ghost ds = descriptors@;
    proof {
        assert(forall|i: int| 0 <= i < ds.len() ==> (#[trigger] ds[i]).wf());
        assert forall|k: int| 0 <= k < 6 implies #[trigger] ds[k] == face_descriptor(k) by {
            assert(ds[0] == face_descriptor(0));
            assert(ds[1] == face_descriptor(1));
            assert(ds[2] == face_descriptor(2));
            assert(ds[3] == face_descriptor(3));
            assert(ds[4] == face_descriptor(4));
            assert(ds[5] == face_descriptor(5));
        }
    }
    for di in 0..6usize
        invariant
            vox.wf(),
            descriptors@ == ds,
            ds.len() == 6,
            forall|i: int| 0 <= i < ds.len() ==> (#[trigger] ds[i]).wf(),
            buffers_wf(vertices@, indices@, vox.sx(), vox.sy(), vox.sz()),
            vertices@.len() <= 0x400_0000 * di,
            di >= 1 && vox.spec_touched() ==> vertices@.len() >= 4,
            ds[0].u == 0 && ds[0].v == 1 && ds[0].w == 2 && ds[0].step == 1,
            forall|k: int| 0 <= k < 6 ==> #[trigger] ds[k] == face_descriptor(k),
            quads_face_exact_upto(vertices@, indices@, vox, vertices@.len() as int / 4),
            dirs_covered_upto(vertices@, vox, vertices@.len() as int / 4, di as int),
            quads_dir_disjoint_upto(vertices@, vertices@.len() as int / 4),
            quads_maximal_upto(vertices@, vox, vertices@.len() as int / 4),
            quads_base_first_upto(vertices@, vox, vertices@.len() as int / 4),
            quads_before_dir(vertices@, vertices@.len() as int / 4, di as int),
    {
        let d = descriptors[di];
        let size_u = axis_size(&vox, d.u);
        let ghost dq0 = vertices@.len() as int / 4;
        for slice_i in 0..size_u
            invariant
                vox.wf(),
                d.wf(),
                size_u == g_size(vox, d.u as int),
                di < 6,
                buffers_wf(vertices@, indices@, vox.sx(), vox.sy(), vox.sz()),
                vertices@.len() <= 0x400_0000 * di + 0x4_0000 * slice_i,
                ds.len() == 6,
                d == ds[di as int],
                d == face_descriptor(di as int),
                di == 0 ==> d.u == 0 && d.v == 1 && d.w == 2 && d.step == 1,
                di >= 1 && vox.spec_touched() ==> vertices@.len() >= 4,
                di == 0 ==> vertices@.len() >= 4 || forall|s: int, cv: int, cw: int|
                    0 <= s < slice_i && 0 <= cv < g_size(vox, d.v as int)
                        && 0 <= cw < g_size(vox, d.w as int)
                        ==> #[trigger] mask_spec(vox, d, s, cv, cw) is None,
                0 <= dq0,
                4 * dq0 <= vertices@.len(),
                forall|k: int| 0 <= k < 6 ==> #[trigger] ds[k] == face_descriptor(k),
                quads_face_exact_upto(vertices@, indices@, vox, vertices@.len() as int / 4),
                dirs_covered_upto(vertices@, vox, vertices@.len() as int / 4, di as int),
                quads_dir_disjoint_upto(vertices@, vertices@.len() as int / 4),
                quads_maximal_upto(vertices@, vox, vertices@.len() as int / 4),
                quads_base_first_upto(vertices@, vox, vertices@.len() as int / 4),
                quads_before_dir(vertices@, dq0, di as int),
                dir_quads_in_processed(vertices@, d, dq0, vertices@.len() as int / 4,
                    size_u as int, slice_i as int),
                dir_slices_covered(vertices@, vox, d, vertices@.len() as int / 4,
                    size_u as int, slice_i as int),
        {
            let slice = if d.step == 1 {
                slice_i
            } else {
                size_u - (slice_i + 1)
            };
            let mut mask = build_mask(&vox, &d, slice);
            let ghost mask_before = mask;
            let ghost len_before = vertices@.len() as int;
            let ghost pre_vs = vertices@;
            let ghost pre_is = indices@;
            merge_slice(&mut mask, &vox, &d, slice, &mut vertices, &mut indices);
            proof {
                assert(g_size(vox, d.v as int) * g_size(vox, d.w as int) <= 0x10000)
                    by (nonlinear_arith)
                    requires
                        0 < g_size(vox, d.v as int) <= 256,
                        0 < g_size(vox, d.w as int) <= 256,
                ;
                lemma_slice_aggregate(
                    pre_vs, pre_is, vertices@, indices@,
                    vox, d, di as int, dq0,
                    mask_before, slice as int, size_u as int, slice_i as int,
                );
                if di == 0 && vertices@.len() < 4 {
                    assert(vertices@.len() == len_before);
                    assert forall|cv: int, cw: int|
                        0 <= cv < g_size(vox, d.v as int) && 0 <= cw < g_size(vox, d.w as int)
                            implies #[trigger] mask_spec(vox, d, slice as int, cv, cw) is None by {
                        if mask_before.at(cv, cw) is Some {
                            assert(slice_covered(vertices@, len_before / 4,
                                vertices@.len() as int / 4, d, cv, cw));
                        }
                    }
                    assert(slice == slice_i);
                }
            }
        }
        proof {
            if di == 0 && vox.spec_touched() && vertices@.len() < 4 {
                let (x, y, z) = choose|x: int, y: int, z: int|
                    vox.in_bounds(x, y, z) && #[trigger] vox.cell(x, y, z) is Some;
                lemma_first_filled(vox, x, y, z);
                let x0 = choose|x0: int|
                    0 <= x0 <= x && (#[trigger] vox.cell(x0, y, z)) is Some
                        && (x0 == 0 || vox.cell(x0 - 1, y, z) is None);
                assert(mask_spec(vox, d, x0, y, z) is Some);
                assert(false);
            }
            let vs = vertices@;
            let qn = vs.len() as int / 4;
            assert forall|di2: int, s: int, cv: int, cw: int|
                #![trigger mask_spec(vox, face_descriptor(di2), s, cv, cw)]
                0 <= di2 < di + 1 && 0 <= s < g_size(vox, face_descriptor(di2).u as int)
                    && 0 <= cv < g_size(vox, face_descriptor(di2).v as int)
                    && 0 <= cw < g_size(vox, face_descriptor(di2).w as int)
                    && mask_spec(vox, face_descriptor(di2), s, cv, cw) is Some
                    implies exists|q: int|
                        #![trigger quad_rect_covers(vs, q, face_descriptor(di2), cv, cw)]
                        0 <= q < qn && quad_in_slice(vs, q, face_descriptor(di2), s)
                            && quad_rect_covers(vs, q, face_descriptor(di2), cv, cw) by {
                if di2 == di {
                    assert(face_descriptor(di2) == d);
                    assert(processed_slice(d, size_u as int, size_u as int, s));
                }
            }
            assert forall|q: int| #![trigger vs[4 * q]] 0 <= q < qn
                implies 0 <= quad_dir(vs[4 * q].normal) < di + 1 by {
                if q >= dq0 {
                    assert(quad_in_slice(vs, q, d,
                        axis_of(vs[4 * q].position, d.u as int) - d.q.0));
                    assert(quad_dir(vs[4 * q].normal) == di);
                }
            }
        }
    }
    if vox.touched() {
        Some(Mesh { vertices, indices, just_loaded: true })
    } else {
        None
    }
}

} // verus!
