//! A grid flow field for navigation: integer cost values per cell, a
//! breadth-first relaxation from a destination cell, and a per-cell flow
//! direction pointing down the cost gradient.

use vstd::prelude::*;
use vstd::string::StringExecFns;

verus! {

/// A cell of the flow field, in grid coordinates.
#[derive(Clone, Copy, PartialEq, Eq, Structural, Debug)]
pub struct Cell {
    pub x: usize,
    pub y: usize,
}

impl Cell {
    pub fn new(x: usize, y: usize) -> (c: Self)
        ensures
            c == (Cell { x, y }),
    {
        Self { x, y }
    }
}

impl From<(usize, usize)> for Cell {
    fn from(t: (usize, usize)) -> (c: Cell) {
        Cell { x: t.0, y: t.1 }
    }
}

impl vstd::std_specs::convert::FromSpecImpl<(usize, usize)> for Cell {
    open spec fn obeys_from_spec() -> bool {
        true
    }

    open spec fn from_spec(t: (usize, usize)) -> Cell {
        Cell { x: t.0, y: t.1 }
    }
}

/// A small 2D integer vector; flow directions use components in
/// `-1 ..= 1`.
#[derive(Clone, Copy, PartialEq, Eq, Structural, Debug)]
pub struct IVec2 {
    pub x: i32,
    pub y: i32,
}

impl IVec2 {
    pub fn new(x: i32, y: i32) -> (v: Self)
        ensures
            v == (IVec2 { x, y }),
    {
        Self { x, y }
    }

    pub fn zero() -> (v: Self)
        ensures
            v == (IVec2 { x: 0i32, y: 0i32 }),
    {
        Self { x: 0, y: 0 }
    }
}

/// Cost value of a cell that cannot be entered.
pub open spec fn blocked() -> u32 {
    u32::MAX
}

/// Cost value of a cell not yet reached from the destination.
pub open spec fn unvisited() -> u32 {
    (u32::MAX - 1) as u32
}

/// The axis neighbors of `(x, y)` in a `w` by `h` grid, in scan order:
/// right, left, up, down, keeping only those inside the grid.
pub open spec fn neighbours_seq(w: usize, h: usize, x: usize, y: usize) -> Seq<Cell> {
    let s0 = Seq::<Cell>::empty();
    let s1 = if x + 1 < w {
        s0.push(Cell { x: (x + 1) as usize, y })
    } else {
        s0
    };
    let s2 = if x > 0 {
        s1.push(Cell { x: (x - 1) as usize, y })
    } else {
        s1
    };
    let s3 = if y + 1 < h {
        s2.push(Cell { x, y: (y + 1) as usize })
    } else {
        s2
    };
    if y > 0 {
        s3.push(Cell { x, y: (y - 1) as usize })
    } else {
        s3
    }
}

/// A square cost and flow grid.  A cell's value is `blocked()` for walls,
/// `unvisited()` before a destination has been set, and otherwise the
/// propagated path cost from the destination.
pub struct FlowField {
    values: Vec<u32>,
    flow: Vec<IVec2>,
    width: usize,
    height: usize,
}

impl FlowField {
    pub closed spec fn spec_width(self) -> int {
        self.width as int
    }

    pub closed spec fn spec_height(self) -> int {
        self.height as int
    }

    pub closed spec fn spec_values(self) -> Seq<u32> {
        self.values@
    }

    pub closed spec fn spec_flow(self) -> Seq<IVec2> {
        self.flow@
    }

    /// The cost value at `(x, y)`.
    pub open spec fn val_at(self, x: int, y: int) -> u32 {
        self.spec_values()[self.spec_height() * y + x]
    }

    /// The flow direction at `(x, y)`.
    pub open spec fn flow_at(self, x: int, y: int) -> IVec2 {
        self.spec_flow()[self.spec_height() * y + x]
    }

    pub open spec fn in_bounds(self, x: int, y: int) -> bool {
        0 <= x < self.spec_width() && 0 <= y < self.spec_height()
    }

    pub open spec fn wf(self) -> bool {
        &&& self.spec_values().len() == self.spec_width() * self.spec_height()
        &&& self.spec_flow().len() == self.spec_width() * self.spec_height()
        &&& self.spec_width() == self.spec_height()
        &&& self.spec_width() <= 0x1000
    }

    /// A field of the given square dimensions, all cells unvisited, all
    /// flow directions zero.
    pub fn new(width: usize, height: usize) -> (f: Self)
        requires
            width == height,
            width <= 0x1000,
        ensures
            f.wf(),
            f.spec_width() == width,
            f.spec_height() == height,
            forall|x: int, y: int| f.in_bounds(x, y) ==> #[trigger] f.val_at(x, y) == unvisited(),
            forall|x: int, y: int| f.in_bounds(x, y)
                ==> #[trigger] f.flow_at(x, y) == (IVec2 { x: 0i32, y: 0i32 }),
            f.relaxed(),
    {
        proof {
            assert(width * height <= 0x100_0000) by (nonlinear_arith)
                requires
                    width <= 0x1000,
                    height <= 0x1000,
            ;
        }
        let total: usize = width * height;
        let mut values: Vec<u32> = Vec::new();
        let mut flow: Vec<IVec2> = Vec::new();
        let mut i: usize = 0;
        while i < total
            invariant
                values@.len() == i,
                flow@.len() == i,
                i <= total,
                forall|k: int| 0 <= k < i ==> values@[k] == unvisited(),
                forall|k: int| 0 <= k < i ==> flow@[k] == (IVec2 { x: 0i32, y: 0i32 }),
            decreases total - i,
        {
            values.push(u32::MAX - 1);
            flow.push(IVec2::zero());
            i = i + 1;
        }
        let f = FlowField { values, flow, width, height };
        proof {
            assert forall|x: int, y: int| f.in_bounds(x, y)
                implies #[trigger] f.val_at(x, y) == unvisited() by {
                lemma_field_index(x, y, f.spec_width(), f.spec_height());
            }
            assert forall|x: int, y: int| f.in_bounds(x, y)
                implies #[trigger] f.flow_at(x, y) == (IVec2 { x: 0i32, y: 0i32 }) by {
                lemma_field_index(x, y, f.spec_width(), f.spec_height());
            }
            assert forall|x: int, y: int| f.in_bounds(x, y)
                implies #[trigger] f.edge_ok(x, y) by {
                assert(f.val_at(x, y) == unvisited());
            }
        }
        f
    }

    fn index_of(&self, x: usize, y: usize) -> (idx: usize)
        requires
            self.wf(),
            x < self.spec_width(),
            y < self.spec_height(),
        ensures
            idx == self.spec_height() * y + x,
            idx < self.spec_values().len(),
            idx < self.spec_flow().len(),
    {
        proof {
            lemma_field_index(x as int, y as int, self.spec_width(), self.spec_height());
            assert(self.height * y <= 0x1000 * 0x1000) by (nonlinear_arith)
                requires
                    y < self.height,
                    self.height <= 0x1000,
            ;
        }
        self.height * y + x
    }

    /// The cost value of a cell.
    pub fn get(&self, cell: &Cell) -> (v: u32)
        requires
            self.wf(),
            cell.x < self.spec_width(),
            cell.y < self.spec_height(),
        ensures
            v == self.val_at(cell.x as int, cell.y as int),
    {
        let idx: usize = self.index_of(cell.x, cell.y);
        self.values[idx]
    }

    /// Writes the cost value of a cell.
    pub fn set(&mut self, cell: &Cell, value: u32)
        requires
            old(self).wf(),
            cell.x < old(self).spec_width(),
            cell.y < old(self).spec_height(),
        ensures
            final(self).wf(),
            final(self).spec_width() == old(self).spec_width(),
            final(self).spec_height() == old(self).spec_height(),
            final(self).spec_flow() == old(self).spec_flow(),
            final(self).spec_values() == old(self).spec_values().update(
                old(self).spec_height() * cell.y + cell.x, value),
            final(self).val_at(cell.x as int, cell.y as int) == value,
            forall|x: int, y: int|
                old(self).in_bounds(x, y) && (x != cell.x || y != cell.y)
                    ==> #[trigger] final(self).val_at(x, y) == old(self).val_at(x, y),
    {
        let idx: usize = self.index_of(cell.x, cell.y);
        self.values.set(idx, value);
        proof {
            assert forall|x: int, y: int|
                old(self).in_bounds(x, y) && (x != cell.x || y != cell.y)
                    implies #[trigger] self.val_at(x, y) == old(self).val_at(x, y) by {
                lemma_field_index(x, y, old(self).spec_width(), old(self).spec_height());
                if self.spec_height() * y + x == idx {
                    lemma_field_index_injective(
                        x, y, cell.x as int, cell.y as int, self.spec_height());
                }
            }
        }
    }

    /// Marks a cell as a wall.
    pub fn set_blocked_cell(&mut self, cell: &Cell)
        requires
            old(self).wf(),
            cell.x < old(self).spec_width(),
            cell.y < old(self).spec_height(),
        ensures
            final(self).wf(),
            final(self).spec_width() == old(self).spec_width(),
            final(self).spec_height() == old(self).spec_height(),
            final(self).spec_flow() == old(self).spec_flow(),
            final(self).val_at(cell.x as int, cell.y as int) == blocked(),
            forall|x: int, y: int|
                old(self).in_bounds(x, y) && (x != cell.x || y != cell.y)
                    ==> #[trigger] final(self).val_at(x, y) == old(self).val_at(x, y),
            old(self).relaxed() ==> final(self).relaxed(),
    {
        self.set(&cell, u32::MAX);
        proof {
            if old(self).relaxed() {
                assert forall|x: int, y: int| self.in_bounds(x, y)
                    implies #[trigger] self.edge_ok(x, y) by {
                    assert(old(self).edge_ok(x, y));
                }
            }
        }
    }

    /// Returns every unblocked cell to `unvisited()`; walls stay walls.
    pub fn reset(&mut self)
        requires
            old(self).wf(),
        ensures
            final(self).wf(),
            final(self).spec_width() == old(self).spec_width(),
            final(self).spec_height() == old(self).spec_height(),
            final(self).spec_flow() == old(self).spec_flow(),
            forall|x: int, y: int| old(self).in_bounds(x, y)
                ==> #[trigger] final(self).val_at(x, y) == (
                    if old(self).val_at(x, y) == blocked() {
                        blocked()
                    } else {
                        unvisited()
                    }),
            final(self).relaxed(),
    {
        let n = self.values.len();
        let mut i: usize = 0;
        while i < n
            invariant
                n == self.values@.len(),
                i <= n,
                self.values@.len() == old(self).values@.len(),
                self.flow == old(self).flow,
                self.width == old(self).width,
                self.height == old(self).height,
                forall|k: int| 0 <= k < i
                    ==> #[trigger] self.values@[k] == (
                        if old(self).values@[k] == blocked() {
                            blocked()
                        } else {
                            unvisited()
                        }),
                forall|k: int| i <= k < n ==> #[trigger] self.values@[k] == old(self).values@[k],
            decreases n - i,
        {
            let v = self.values[i];
            if v != u32::MAX {
                self.values.set(i, u32::MAX - 1);
            }
            i = i + 1;
        }
        proof {
            assert forall|x: int, y: int| old(self).in_bounds(x, y)
                implies #[trigger] self.val_at(x, y) == (
                    if old(self).val_at(x, y) == blocked() {
                        blocked()
                    } else {
                        unvisited()
                    }) by {
                lemma_field_index(x, y, old(self).spec_width(), old(self).spec_height());
            }
            assert forall|x: int, y: int| self.in_bounds(x, y)
                implies #[trigger] self.edge_ok(x, y) by {
                assert(self.val_at(x, y) == blocked() || self.val_at(x, y) == unvisited());
            }
        }
    }

    /// The flow direction at a cell.
    pub fn get_flow_cell(&self, x: usize, y: usize) -> (v: IVec2)
        requires
            self.wf(),
            x < self.spec_width(),
            y < self.spec_height(),
        ensures
            v == self.flow_at(x as int, y as int),
    {
        let idx: usize = self.index_of(x, y);
        self.flow[idx]
    }

    /// Writes the flow direction at a cell.
    pub fn set_flow_cell(&mut self, x: usize, y: usize, direction: IVec2)
        requires
            old(self).wf(),
            x < old(self).spec_width(),
            y < old(self).spec_height(),
        ensures
            final(self).wf(),
            final(self).spec_width() == old(self).spec_width(),
            final(self).spec_height() == old(self).spec_height(),
            final(self).spec_values() == old(self).spec_values(),
            final(self).flow_at(x as int, y as int) == direction,
            forall|i: int, j: int|
                old(self).in_bounds(i, j) && (i != x || j != y)
                    ==> #[trigger] final(self).flow_at(i, j) == old(self).flow_at(i, j),
    {
        let idx: usize = self.index_of(x, y);
        self.flow.set(idx, direction);
        proof {
            assert forall|i: int, j: int|
                old(self).in_bounds(i, j) && (i != x || j != y)
                    implies #[trigger] self.flow_at(i, j) == old(self).flow_at(i, j) by {
                lemma_field_index(i, j, old(self).spec_width(), old(self).spec_height());
                if self.spec_height() * j + i == idx {
                    lemma_field_index_injective(i, j, x as int, y as int, self.spec_height());
                }
            }
        }
    }

    /// The in-grid axis neighbors of a cell, in scan order.
    pub fn get_neighbours(&self, cell: &Cell) -> (r: Vec<Cell>)
        requires
            self.wf(),
            cell.x < self.spec_width(),
            cell.y < self.spec_height(),
        ensures
            r@ == neighbours_seq(
                (self.spec_width() as usize), (self.spec_height() as usize), cell.x, cell.y),
            forall|i: int| 0 <= i < r@.len()
                ==> (#[trigger] r@[i]).x < self.spec_width() && r@[i].y < self.spec_height(),
    {
        let mut neighbours: Vec<Cell> = Vec::new();
        if cell.x + 1 < self.width {
            neighbours.push(Cell::new(cell.x + 1, cell.y));
        }
        if cell.x > 0 {
            neighbours.push(Cell::new(cell.x - 1, cell.y));
        }
        if cell.y + 1 < self.height {
            neighbours.push(Cell::new(cell.x, cell.y + 1));
        }
        if cell.y > 0 {
            neighbours.push(Cell::new(cell.x, cell.y - 1));
        }
        proof {
            assert(neighbours@ =~= neighbours_seq(self.width, self.height, cell.x, cell.y));
        }
        neighbours
    }

    /// The in-grid diagonal neighbors of a cell whose two adjacent axis
    /// cells are both unblocked, in scan order.
    pub fn get_neighbours_cross(&self, cell: &Cell) -> (r: Vec<Cell>)
        requires
            self.wf(),
            cell.x < self.spec_width(),
            cell.y < self.spec_height(),
        ensures
            r@ == self.cross_seq(cell.x as int, cell.y as int),
            forall|i: int| 0 <= i < r@.len()
                ==> (#[trigger] r@[i]).x < self.spec_width() && r@[i].y < self.spec_height(),
    {
        let mut neighbours: Vec<Cell> = Vec::new();
        if cell.x + 1 < self.width && cell.y + 1 < self.height {
            if self.get(&Cell::new(cell.x + 1, cell.y)) != u32::MAX
                && self.get(&Cell::new(cell.x, cell.y + 1)) != u32::MAX
            {
                neighbours.push(Cell::new(cell.x + 1, cell.y + 1));
            }
        }
        if cell.x + 1 < self.width && cell.y > 0 {
            if self.get(&Cell::new(cell.x + 1, cell.y)) != u32::MAX
                && self.get(&Cell::new(cell.x, cell.y - 1)) != u32::MAX
            {
                neighbours.push(Cell::new(cell.x + 1, cell.y - 1));
            }
        }
        if cell.x > 0 && cell.y + 1 < self.height {
            if self.get(&Cell::new(cell.x - 1, cell.y)) != u32::MAX
                && self.get(&Cell::new(cell.x, cell.y + 1)) != u32::MAX
            {
                neighbours.push(Cell::new(cell.x - 1, cell.y + 1));
            }
        }
        if cell.x > 0 && cell.y > 0 {
            if self.get(&Cell::new(cell.x - 1, cell.y)) != u32::MAX
                && self.get(&Cell::new(cell.x, cell.y - 1)) != u32::MAX
            {
                neighbours.push(Cell::new(cell.x - 1, cell.y - 1));
            }
        }
        proof {
            assert(neighbours@ =~= self.cross_seq(cell.x as int, cell.y as int));
        }
        neighbours
    }

    /// The diagonal neighbors admitted by `get_neighbours_cross`: a
    /// diagonal step is allowed only when neither adjacent axis cell is a
    /// wall (no cutting corners).
    pub open spec fn cross_seq(self, x: int, y: int) -> Seq<Cell> {
        let w = self.spec_width();
        let h = self.spec_height();
        let s0 = Seq::<Cell>::empty();
        let s1 = if x + 1 < w && y + 1 < h && self.val_at(x + 1, y) != blocked()
            && self.val_at(x, y + 1) != blocked() {
            s0.push(Cell { x: (x + 1) as usize, y: (y + 1) as usize })
        } else {
            s0
        };
        let s2 = if x + 1 < w && y > 0 && self.val_at(x + 1, y) != blocked()
            && self.val_at(x, y - 1) != blocked() {
            s1.push(Cell { x: (x + 1) as usize, y: (y - 1) as usize })
        } else {
            s1
        };
        let s3 = if x > 0 && y + 1 < h && self.val_at(x - 1, y) != blocked()
            && self.val_at(x, y + 1) != blocked() {
            s2.push(Cell { x: (x - 1) as usize, y: (y + 1) as usize })
        } else {
            s2
        };
        if x > 0 && y > 0 && self.val_at(x - 1, y) != blocked()
            && self.val_at(x, y - 1) != blocked() {
            s3.push(Cell { x: (x - 1) as usize, y: (y - 1) as usize })
        } else {
            s3
        }
    }

    /// Maps a signed position to a cell by shifting the origin to the
    /// field's center.
    pub fn position_to_cell(&self, position: &IVec2) -> (c: Cell)
        requires
            self.wf(),
            0 <= position.x + center_offset(self.spec_width()),
            position.x + center_offset(self.spec_width()) < self.spec_width(),
            0 <= position.y + center_offset(self.spec_height()),
            position.y + center_offset(self.spec_height()) < self.spec_height(),
        ensures
            c.x == position.x + center_offset(self.spec_width()),
            c.y == position.y + center_offset(self.spec_height()),
    {
        let hx: i32 = (self.width / 2) as i32;
        let hy: i32 = (self.height / 2) as i32;
        Cell::new((position.x + hx) as usize, (position.y + hy) as usize)
    }

    /// Maps signed coordinates to grid coordinates by shifting the origin
    /// to the field's center.
    pub fn map(&self, x: isize, y: isize) -> (r: (usize, usize))
        requires
            self.wf(),
            0 <= x + center_offset(self.spec_width()) < self.spec_width(),
            0 <= y + center_offset(self.spec_height()) < self.spec_height(),
        ensures
            r.0 == x + center_offset(self.spec_width()),
            r.1 == y + center_offset(self.spec_height()),
    {
        let hx: isize = (self.width / 2) as isize;
        let hy: isize = (self.height / 2) as isize;
        ((x + hx) as usize, (y + hy) as usize)
    }
}

impl FlowField {
    /// Marks a `size` by `size` square of cells, centered on a signed
    /// position, as walls.
    pub fn block_position_with_size(&mut self, pos: &IVec2, size: usize)
        requires
            old(self).wf(),
            size % 2 == 0,
            pos.x + center_offset(old(self).spec_width()) - size / 2 >= 0,
            pos.x + center_offset(old(self).spec_width()) + size / 2 <= old(self).spec_width(),
            pos.y + center_offset(old(self).spec_height()) - size / 2 >= 0,
            pos.y + center_offset(old(self).spec_height()) + size / 2 <= old(self).spec_height(),
            pos.x + center_offset(old(self).spec_width()) < old(self).spec_width(),
            pos.y + center_offset(old(self).spec_height()) < old(self).spec_height(),
        ensures
            final(self).wf(),
            final(self).spec_width() == old(self).spec_width(),
            final(self).spec_height() == old(self).spec_height(),
            final(self).spec_flow() == old(self).spec_flow(),
            ({
                let cx = pos.x + center_offset(old(self).spec_width());
                let cy = pos.y + center_offset(old(self).spec_height());
                let half = size / 2;
                forall|x: int, y: int| old(self).in_bounds(x, y)
                    ==> #[trigger] final(self).val_at(x, y) == (
                        if cx - half <= x < cx + half && cy - half <= y < cy + half {
                            blocked()
                        } else {
                            old(self).val_at(x, y)
                        })
            }),
            old(self).relaxed() ==> final(self).relaxed(),
    {
        let cell_position = self.position_to_cell(&pos);
        let half_size = size / 2;
        let ghost cx = cell_position.x as int;
        let ghost cy = cell_position.y as int;
        let mut y: usize = cell_position.y - half_size;
        while y < cell_position.y + half_size
            invariant
                self.wf(),
                self.spec_width() == old(self).spec_width(),
                self.spec_height() == old(self).spec_height(),
                self.spec_flow() == old(self).spec_flow(),
                cx == pos.x + center_offset(old(self).spec_width()),
                cy == pos.y + center_offset(old(self).spec_height()),
                cell_position.x == cx && cell_position.y == cy,
                cx - half_size >= 0 && cx + half_size <= self.spec_width(),
                cy - half_size >= 0 && cy + half_size <= self.spec_height(),
                cy - half_size <= y <= cy + half_size,
                old(self).relaxed() ==> self.relaxed(),
                forall|i: int, j: int| old(self).in_bounds(i, j)
                    ==> #[trigger] self.val_at(i, j) == (
                        if cx - half_size <= i < cx + half_size && cy - half_size <= j < y {
                            blocked()
                        } else {
                            old(self).val_at(i, j)
                        }),
            decreases cy + half_size - y,
        {
            let mut x: usize = cell_position.x - half_size;
            while x < cell_position.x + half_size
                invariant
                    self.wf(),
                    self.spec_width() == old(self).spec_width(),
                    self.spec_height() == old(self).spec_height(),
                    self.spec_flow() == old(self).spec_flow(),
                    cx == pos.x + center_offset(old(self).spec_width()),
                    cy == pos.y + center_offset(old(self).spec_height()),
                    cell_position.x == cx && cell_position.y == cy,
                    cx - half_size >= 0 && cx + half_size <= self.spec_width(),
                    cy - half_size >= 0 && cy + half_size <= self.spec_height(),
                    cy - half_size <= y < cy + half_size,
                    cx - half_size <= x <= cx + half_size,
                    old(self).relaxed() ==> self.relaxed(),
                    forall|i: int, j: int| old(self).in_bounds(i, j)
                        ==> #[trigger] self.val_at(i, j) == (
                            if cx - half_size <= i < cx + half_size && cy - half_size <= j < y {
                                blocked()
                            } else if j == y && cx - half_size <= i < x {
                                blocked()
                            } else {
                                old(self).val_at(i, j)
                            }),
                decreases cx + half_size - x,
            {
                self.set_blocked_cell(&Cell::new(x, y));
                x = x + 1;
            }
            y = y + 1;
        }
    }

    /// Sets the destination at signed coordinates: maps them onto the
    /// grid and propagates costs from the resulting cell.
    pub fn set_destination_i(&mut self, x: isize, y: isize)
        requires
            old(self).wf(),
            0 <= x + center_offset(old(self).spec_width()) < old(self).spec_width(),
            0 <= y + center_offset(old(self).spec_height()) < old(self).spec_height(),
        ensures
            final(self).wf(),
            final(self).spec_width() == old(self).spec_width(),
            final(self).spec_height() == old(self).spec_height(),
            final(self).spec_flow() == old(self).spec_flow(),
            final(self).val_at(
                x + center_offset(old(self).spec_width()),
                y + center_offset(old(self).spec_height())) == 0,
            forall|i: int, j: int|
                old(self).in_bounds(i, j)
                    && !(i == x + center_offset(old(self).spec_width())
                        && j == y + center_offset(old(self).spec_height()))
                    ==> #[trigger] final(self).val_at(i, j) <= old(self).val_at(i, j)
                        && ((final(self).val_at(i, j) == blocked())
                            <==> (old(self).val_at(i, j) == blocked())),
    {
        let (gx, gy) = self.map(x, y);
        self.set_destination_cell(Cell::new(gx, gy));
    }

    /// Propagates path costs outward from a destination cell: the
    /// destination's cost becomes zero, a step to an axis neighbor costs
    /// 100 and to an admitted diagonal neighbor 141, and a cell's cost
    /// only ever drops.  Walls keep their cost and are never crossed.
    /// Run on a relaxed field with an unblocked destination, it leaves
    /// every edge relaxed again: no cost can be lowered any further.
    #[verifier::rlimit(100)]
    #[verifier::spinoff_prover]
    pub fn set_destination_cell(&mut self, cell: Cell)
        requires
            old(self).wf(),
            cell.x < old(self).spec_width(),
            cell.y < old(self).spec_height(),
        ensures
            final(self).wf(),
            final(self).spec_width() == old(self).spec_width(),
            final(self).spec_height() == old(self).spec_height(),
            final(self).spec_flow() == old(self).spec_flow(),
            final(self).val_at(cell.x as int, cell.y as int) == 0,
            forall|x: int, y: int|
                old(self).in_bounds(x, y) && (x != cell.x || y != cell.y)
                    ==> #[trigger] final(self).val_at(x, y) <= old(self).val_at(x, y)
                        && ((final(self).val_at(x, y) == blocked())
                            <==> (old(self).val_at(x, y) == blocked())),
            forall|x: int, y: int| #![trigger final(self).val_at(x, y)]
                old(self).in_bounds(x, y) && (x != cell.x || y != cell.y)
                    && final(self).val_at(x, y) != old(self).val_at(x, y)
                    ==> final(self).supported_at(x, y),
            old(self).relaxed() && old(self).val_at(cell.x as int, cell.y as int) != blocked()
                ==> final(self).relaxed(),
    {
        let ghost relax0 = old(self).relaxed()
            && old(self).val_at(cell.x as int, cell.y as int) != blocked();
        self.set(&cell, 0);
        let ghost mid = *self;
        let mut open_cells: Vec<Cell> = Vec::new();
        open_cells.push(Cell::new(cell.x, cell.y));
        let mut head: usize = 0;
        proof {
            lemma_vals_sum_nonneg(self.spec_values());
            if relax0 {
                assert forall|x: int, y: int|
                    self.in_bounds(x, y) && !(#[trigger] self.edge_ok(x, y))
                        implies in_pending(open_cells@, head as int, x, y) by {
                    if x != cell.x || y != cell.y {
                        assert(old(self).edge_ok(x, y));
                        lemma_lowering_keeps_edge_ok(
                            *old(self), *self, cell.x as int, cell.y as int, x, y);
                        assert(false);
                    } else {
                        assert(open_cells@[0].x == x && open_cells@[0].y == y);
                    }
                }
            }
        }
        while head < open_cells.len()
            invariant
                self.wf(),
                self.spec_width() == mid.spec_width(),
                self.spec_height() == mid.spec_height(),
                self.spec_flow() == mid.spec_flow(),
                cell.x < mid.spec_width() && cell.y < mid.spec_height(),
                mid.wf(),
                mid.val_at(cell.x as int, cell.y as int) == 0,
                forall|x: int, y: int|
                    mid.in_bounds(x, y) && (x != cell.x || y != cell.y)
                        ==> #[trigger] mid.val_at(x, y) == old(self).val_at(x, y),
                self.val_at(cell.x as int, cell.y as int) == 0,
                forall|x: int, y: int| mid.in_bounds(x, y)
                    ==> #[trigger] self.val_at(x, y) <= mid.val_at(x, y),
                forall|x: int, y: int| mid.in_bounds(x, y)
                    ==> ((#[trigger] self.val_at(x, y) == blocked())
                        <==> (mid.val_at(x, y) == blocked())),
                forall|x: int, y: int| #![trigger self.val_at(x, y)]
                    mid.in_bounds(x, y) && (x != cell.x || y != cell.y)
                        && self.val_at(x, y) != mid.val_at(x, y)
                        ==> self.supported_at(x, y),
                head <= open_cells@.len(),
                forall|j: int| 0 <= j < open_cells@.len()
                    ==> (#[trigger] open_cells@[j]).x < mid.spec_width()
                        && open_cells@[j].y < mid.spec_height(),
                vals_sum(self.spec_values()) >= 0,
                relax0 ==> (forall|x: int, y: int|
                    self.in_bounds(x, y) && !(#[trigger] self.edge_ok(x, y))
                        ==> in_pending(open_cells@, head as int, x, y)),
            decreases vals_sum(self.spec_values()), open_cells@.len() - head,
        {
            let cur = open_cells[head];
            head = head + 1;
            let ghost curx = cur.x as int;
            let ghost cury = cur.y as int;
            proof {
                if relax0 {
                    assert forall|x: int, y: int|
                        self.in_bounds(x, y) && (x != curx || y != cury)
                            && !(#[trigger] self.edge_ok(x, y))
                            implies in_pending(open_cells@, head as int, x, y) by {
                        assert(in_pending(open_cells@, head as int - 1, x, y));
                        let j = choose|j: int|
                            head - 1 <= j < open_cells@.len()
                                && (#[trigger] open_cells@[j]).x == x && open_cells@[j].y == y;
                        assert(j != head - 1);
                    }
                }
            }
            let value = self.get(&cur);
            let ghost sum0 = vals_sum(self.spec_values());
            let ghost len0 = open_cells@.len();
            let ghost head0 = head as int;
            let ns = self.get_neighbours(&cur);
            let mut idx: usize = 0;
            while idx < ns.len()
                invariant
                    self.wf(),
                    self.spec_width() == mid.spec_width(),
                    self.spec_height() == mid.spec_height(),
                    self.spec_flow() == mid.spec_flow(),
                    cell.x < mid.spec_width() && cell.y < mid.spec_height(),
                    mid.wf(),
                    self.val_at(cell.x as int, cell.y as int) == 0,
                    forall|x: int, y: int| mid.in_bounds(x, y)
                        ==> #[trigger] self.val_at(x, y) <= mid.val_at(x, y),
                    forall|x: int, y: int| mid.in_bounds(x, y)
                        ==> ((#[trigger] self.val_at(x, y) == blocked())
                            <==> (mid.val_at(x, y) == blocked())),
                    forall|x: int, y: int| #![trigger self.val_at(x, y)]
                        mid.in_bounds(x, y) && (x != cell.x || y != cell.y)
                            && self.val_at(x, y) != mid.val_at(x, y)
                            ==> self.supported_at(x, y),
                    idx <= ns@.len(),
                    curx == cur.x && cury == cur.y,
                    cur.x < mid.spec_width() && cur.y < mid.spec_height(),
                    ns@ == neighbours_seq(
                        (self.spec_width() as usize), (self.spec_height() as usize),
                        cur.x, cur.y),
                    forall|j: int| 0 <= j < ns@.len()
                        ==> (#[trigger] ns@[j]).x < mid.spec_width()
                            && ns@[j].y < mid.spec_height(),
                    value == self.val_at(curx, cury),
                    forall|j: int| 0 <= j < idx
                        ==> self.val_at((#[trigger] ns@[j]).x as int, ns@[j].y as int) == blocked()
                            || self.val_at(ns@[j].x as int, ns@[j].y as int) <= value + 100,
                    head0 <= open_cells@.len(),
                    head == head0,
                    forall|j: int| 0 <= j < open_cells@.len()
                        ==> (#[trigger] open_cells@[j]).x < mid.spec_width()
                            && open_cells@[j].y < mid.spec_height(),
                    vals_sum(self.spec_values()) >= 0,
                    vals_sum(self.spec_values()) < sum0
                        || (vals_sum(self.spec_values()) == sum0
                            && open_cells@.len() == len0),
                    relax0 ==> (forall|x: int, y: int|
                        self.in_bounds(x, y) && (x != curx || y != cury)
                            && !(#[trigger] self.edge_ok(x, y))
                            ==> in_pending(open_cells@, head as int, x, y)),
                decreases ns@.len() - idx,
            {
                let n = ns[idx];
                let n_value = self.get(&n);
                if n_value != u32::MAX && (n_value as u64) > (value as u64) + 100 {
                    let ghost vals_pre = self.spec_values();
                    let ghost pre_f = *self;
                    self.set(&n, value + 100);
                    proof {
                        lemma_field_index(n.x as int, n.y as int,
                            mid.spec_width(), mid.spec_height());
                        lemma_vals_sum_update(
                            vals_pre, mid.spec_height() * n.y + n.x, (value + 100) as u32);
                        lemma_vals_sum_nonneg(self.spec_values());
                    }
                    let already = queue_contains(&open_cells, head, &n);
                    let ghost pre_q = open_cells@;
                    if !already {
                        open_cells.push(n);
                    }
                    proof {
                        assert((n.x == cur.x + 1 && n.y == cur.y)
                            || (cur.x > 0 && n.x as int == cur.x - 1 && n.y == cur.y)
                            || (n.x == cur.x && n.y == cur.y + 1)
                            || (cur.y > 0 && n.x == cur.x && n.y as int == cur.y - 1));
                        assert(self.val_at(n.x as int, n.y as int) == value + 100);
                        assert(self.val_at(curx, cury) == value);
                        assert(self.supported_at(n.x as int, n.y as int));
                        assert forall|x: int, y: int| #![trigger self.val_at(x, y)]
                            mid.in_bounds(x, y) && (x != cell.x || y != cell.y)
                                && self.val_at(x, y) != mid.val_at(x, y)
                                implies self.supported_at(x, y) by {
                            if x != n.x || y != n.y {
                                if pre_f.val_at(x, y) != mid.val_at(x, y) {
                                    assert(pre_f.supported_at(x, y));
                                    assert(self.supported_at(x, y));
                                }
                            }
                        }
                        if relax0 {
                            assert forall|x: int, y: int|
                                self.in_bounds(x, y) && (x != curx || y != cury)
                                    && !(#[trigger] self.edge_ok(x, y))
                                    implies in_pending(open_cells@, head as int, x, y) by {
                                if x == n.x && y == n.y {
                                    if already {
                                        let j = choose|j: int|
                                            head <= j < pre_q.len()
                                                && #[trigger] pre_q[j] == n;
                                        assert(open_cells@[j].x == x && open_cells@[j].y == y);
                                    } else {
                                        assert(open_cells@[pre_q.len() as int].x == x
                                            && open_cells@[pre_q.len() as int].y == y);
                                    }
                                } else {
                                    if pre_f.edge_ok(x, y) {
                                        lemma_lowering_keeps_edge_ok(
                                            pre_f, *self, n.x as int, n.y as int, x, y);
                                        assert(false);
                                    } else {
                                        assert(in_pending(pre_q, head as int, x, y));
                                        let j = choose|j: int|
                                            head <= j < pre_q.len()
                                                && (#[trigger] pre_q[j]).x == x
                                                && pre_q[j].y == y;
                                        assert(open_cells@[j].x == x && open_cells@[j].y == y);
                                    }
                                }
                            }
                        }
                    }
                }
                idx = idx + 1;
            }
            let ghost at_cross = *self;
            let cs = self.get_neighbours_cross(&cur);
            let mut idx2: usize = 0;
            while idx2 < cs.len()
                invariant
                    self.wf(),
                    self.spec_width() == mid.spec_width(),
                    self.spec_height() == mid.spec_height(),
                    self.spec_flow() == mid.spec_flow(),
                    cell.x < mid.spec_width() && cell.y < mid.spec_height(),
                    mid.wf(),
                    self.val_at(cell.x as int, cell.y as int) == 0,
                    forall|x: int, y: int| mid.in_bounds(x, y)
                        ==> #[trigger] self.val_at(x, y) <= mid.val_at(x, y),
                    forall|x: int, y: int| mid.in_bounds(x, y)
                        ==> ((#[trigger] self.val_at(x, y) == blocked())
                            <==> (mid.val_at(x, y) == blocked())),
                    forall|x: int, y: int| #![trigger self.val_at(x, y)]
                        mid.in_bounds(x, y) && (x != cell.x || y != cell.y)
                            && self.val_at(x, y) != mid.val_at(x, y)
                            ==> self.supported_at(x, y),
                    at_cross.spec_width() == mid.spec_width(),
                    at_cross.spec_height() == mid.spec_height(),
                    forall|x: int, y: int| mid.in_bounds(x, y)
                        ==> ((#[trigger] at_cross.val_at(x, y) == blocked())
                            <==> (mid.val_at(x, y) == blocked())),
                    idx2 <= cs@.len(),
                    curx == cur.x && cury == cur.y,
                    cur.x < mid.spec_width() && cur.y < mid.spec_height(),
                    ns@ == neighbours_seq(
                        (self.spec_width() as usize), (self.spec_height() as usize),
                        cur.x, cur.y),
                    cs@ == at_cross.cross_seq(curx, cury),
                    forall|j: int| 0 <= j < ns@.len()
                        ==> (#[trigger] ns@[j]).x < mid.spec_width()
                            && ns@[j].y < mid.spec_height(),
                    forall|j: int| 0 <= j < cs@.len()
                        ==> (#[trigger] cs@[j]).x < mid.spec_width()
                            && cs@[j].y < mid.spec_height(),
                    value == self.val_at(curx, cury),
                    forall|j: int| 0 <= j < ns@.len()
                        ==> self.val_at((#[trigger] ns@[j]).x as int, ns@[j].y as int) == blocked()
                            || self.val_at(ns@[j].x as int, ns@[j].y as int) <= value + 100,
                    forall|j: int| 0 <= j < idx2
                        ==> self.val_at((#[trigger] cs@[j]).x as int, cs@[j].y as int) == blocked()
                            || self.val_at(cs@[j].x as int, cs@[j].y as int) <= value + 141,
                    head0 <= open_cells@.len(),
                    head == head0,
                    forall|j: int| 0 <= j < open_cells@.len()
                        ==> (#[trigger] open_cells@[j]).x < mid.spec_width()
                            && open_cells@[j].y < mid.spec_height(),
                    vals_sum(self.spec_values()) >= 0,
                    vals_sum(self.spec_values()) < sum0
                        || (vals_sum(self.spec_values()) == sum0
                            && open_cells@.len() == len0),
                    relax0 ==> (forall|x: int, y: int|
                        self.in_bounds(x, y) && (x != curx || y != cury)
                            && !(#[trigger] self.edge_ok(x, y))
                            ==> in_pending(open_cells@, head as int, x, y)),
                decreases cs@.len() - idx2,
            {
                let n = cs[idx2];
                let n_value = self.get(&n);
                if n_value != u32::MAX && (n_value as u64) > (value as u64) + 141 {
                    let ghost vals_pre = self.spec_values();
                    let ghost pre_f = *self;
                    self.set(&n, value + 141);
                    proof {
                        lemma_field_index(n.x as int, n.y as int,
                            mid.spec_width(), mid.spec_height());
                        lemma_vals_sum_update(
                            vals_pre, mid.spec_height() * n.y + n.x, (value + 141) as u32);
                        lemma_vals_sum_nonneg(self.spec_values());
                    }
                    let already = queue_contains(&open_cells, head, &n);
                    let ghost pre_q = open_cells@;
                    if !already {
                        open_cells.push(n);
                    }
                    proof {
                        if relax0 {
                            assert forall|x: int, y: int|
                                self.in_bounds(x, y) && (x != curx || y != cury)
                                    && !(#[trigger] self.edge_ok(x, y))
                                    implies in_pending(open_cells@, head as int, x, y) by {
                                if x == n.x && y == n.y {
                                    if already {
                                        let j = choose|j: int|
                                            head <= j < pre_q.len()
                                                && #[trigger] pre_q[j] == n;
                                        assert(open_cells@[j].x == x && open_cells@[j].y == y);
                                    } else {
                                        assert(open_cells@[pre_q.len() as int].x == x
                                            && open_cells@[pre_q.len() as int].y == y);
                                    }
                                } else {
                                    if pre_f.edge_ok(x, y) {
                                        lemma_lowering_keeps_edge_ok(
                                            pre_f, *self, n.x as int, n.y as int, x, y);
                                        assert(false);
                                    } else {
                                        assert(in_pending(pre_q, head as int, x, y));
                                        let j = choose|j: int|
                                            head <= j < pre_q.len()
                                                && (#[trigger] pre_q[j]).x == x
                                                && pre_q[j].y == y;
                                        assert(open_cells@[j].x == x && open_cells@[j].y == y);
                                    }
                                }
                            }
                        }
                    }
                }
                idx2 = idx2 + 1;
            }
            proof {
                if relax0 {
                    let w = self.spec_width();
                    let h = self.spec_height();
                    let wu = (self.spec_width() as usize);
                    let hu = (self.spec_height() as usize);
                    let rp: int = if cur.x + 1 < wu { 1 } else { 0 };
                    let lp: int = if cur.x > 0 { 1 } else { 0 };
                    let up: int = if cur.y + 1 < hu { 1 } else { 0 };
                    if cur.x + 1 < wu {
                        assert(ns@[0] == (Cell { x: (cur.x + 1) as usize, y: cur.y }));
                        assert(self.axis_ok(curx, cury, curx + 1, cury));
                    }
                    if cur.x > 0 {
                        assert(ns@[rp] == (Cell { x: (cur.x - 1) as usize, y: cur.y }));
                        assert(self.axis_ok(curx, cury, curx - 1, cury));
                    }
                    if cur.y + 1 < hu {
                        assert(ns@[rp + lp] == (Cell { x: cur.x, y: (cur.y + 1) as usize }));
                        assert(self.axis_ok(curx, cury, curx, cury + 1));
                    }
                    if cur.y > 0 {
                        assert(ns@[rp + lp + up] == (Cell { x: cur.x, y: (cur.y - 1) as usize }));
                        assert(self.axis_ok(curx, cury, curx, cury - 1));
                    }
                    let c11: bool = at_cross.cross_admissible(curx, cury, 1, 1);
                    let c1m: bool = at_cross.cross_admissible(curx, cury, 1, -1);
                    let cm1: bool = at_cross.cross_admissible(curx, cury, -1, 1);
                    let i11: int = 0;
                    let i1m: int = if c11 { 1 } else { 0 };
                    let im1: int = i1m + (if c1m { 1int } else { 0 });
                    let imm: int = im1 + (if cm1 { 1int } else { 0 });
                    if self.cross_admissible(curx, cury, 1, 1) {
                        assert(c11);
                        assert(cs@[i11] == (Cell { x: (cur.x + 1) as usize, y: (cur.y + 1) as usize }));
                        assert(self.val_at(curx + 1, cury + 1) == blocked()
                            || self.val_at(curx + 1, cury + 1) <= value + 141);
                    }
                    if self.cross_admissible(curx, cury, 1, -1) {
                        assert(c1m);
                        assert(cs@[i1m] == (Cell { x: (cur.x + 1) as usize, y: (cur.y - 1) as usize }));
                        assert(self.val_at(curx + 1, cury - 1) == blocked()
                            || self.val_at(curx + 1, cury - 1) <= value + 141);
                    }
                    if self.cross_admissible(curx, cury, -1, 1) {
                        assert(cm1);
                        assert(cs@[im1] == (Cell { x: (cur.x - 1) as usize, y: (cur.y + 1) as usize }));
                        assert(self.val_at(curx - 1, cury + 1) == blocked()
                            || self.val_at(curx - 1, cury + 1) <= value + 141);
                    }
                    if self.cross_admissible(curx, cury, -1, -1) {
                        assert(at_cross.cross_admissible(curx, cury, -1, -1));
                        assert(cs@[imm] == (Cell { x: (cur.x - 1) as usize, y: (cur.y - 1) as usize }));
                        assert(self.val_at(curx - 1, cury - 1) == blocked()
                            || self.val_at(curx - 1, cury - 1) <= value + 141);
                    }
                    assert(self.edge_ok(curx, cury));
                    assert forall|x: int, y: int|
                        self.in_bounds(x, y) && !(#[trigger] self.edge_ok(x, y))
                            implies in_pending(open_cells@, head as int, x, y) by {
                    }
                }
            }
        }
        proof {
            if relax0 {
                assert forall|x: int, y: int| self.in_bounds(x, y)
                    implies #[trigger] self.edge_ok(x, y) by {
                    if !self.edge_ok(x, y) {
                        assert(in_pending(open_cells@, head as int, x, y));
                    }
                }
            }
        }
    }
}

impl FlowField {
    /// Every neighbor a cell's flow direction may point at: the axis
    /// neighbors, then the admitted diagonal neighbors.
    pub open spec fn candidates(self, x: int, y: int) -> Seq<Cell> {
        neighbours_seq(
            (self.spec_width() as usize), (self.spec_height() as usize),
            (x as usize), (y as usize),
        ) + self.cross_seq(x, y)
    }

    /// What a correct flow direction for a cell is: zero when no
    /// candidate neighbor has a strictly smaller cost; otherwise the step
    /// to a candidate of minimal cost, itself strictly cheaper than the
    /// cell.
    pub open spec fn flow_ok(self, x: int, y: int, d: IVec2) -> bool {
        let cands = self.candidates(x, y);
        if exists|i: int| 0 <= i < cands.len()
            && self.val_at((#[trigger] cands[i]).x as int, cands[i].y as int) < self.val_at(x, y) {
            exists|i: int| 0 <= i < cands.len() && {
                let n = #[trigger] cands[i];
                &&& self.val_at(n.x as int, n.y as int) < self.val_at(x, y)
                &&& forall|j: int| 0 <= j < cands.len()
                    ==> self.val_at(n.x as int, n.y as int)
                        <= self.val_at((#[trigger] cands[j]).x as int, cands[j].y as int)
                &&& forall|j: int| 0 <= j < i
                    ==> self.val_at(n.x as int, n.y as int)
                        < self.val_at((#[trigger] cands[j]).x as int, cands[j].y as int)
                &&& d.x == n.x - x
                &&& d.y == n.y - y
            }
        } else {
            d == (IVec2 { x: 0i32, y: 0i32 })
        }
    }

    /// Computes every cell's flow direction from the current costs: a
    /// wall's direction is zero, any other cell points at a cheapest
    /// strictly-cheaper neighbor, or keeps direction zero when it is a
    /// local minimum.  The costs themselves are untouched.
    pub fn calculate_flow(&mut self)
        requires
            old(self).wf(),
        ensures
            final(self).wf(),
            final(self).spec_width() == old(self).spec_width(),
            final(self).spec_height() == old(self).spec_height(),
            final(self).spec_values() == old(self).spec_values(),
            forall|x: int, y: int|
                old(self).in_bounds(x, y) && old(self).val_at(x, y) == blocked()
                    ==> #[trigger] final(self).flow_at(x, y) == (IVec2 { x: 0i32, y: 0i32 }),
            forall|x: int, y: int|
                old(self).in_bounds(x, y) && old(self).val_at(x, y) != blocked()
                    ==> old(self).flow_ok(x, y, #[trigger] final(self).flow_at(x, y)),
    {
        let width = self.width;
        let height = self.height;
        let mut y: usize = 0;
        while y < height
            invariant
                self.wf(),
                width == self.spec_width(),
                height == self.spec_height(),
                self.spec_width() == old(self).spec_width(),
                self.spec_height() == old(self).spec_height(),
                self.spec_values() == old(self).spec_values(),
                y <= height,
                forall|i: int, j: int|
                    old(self).in_bounds(i, j) && j < y && old(self).val_at(i, j) == blocked()
                        ==> #[trigger] self.flow_at(i, j) == (IVec2 { x: 0i32, y: 0i32 }),
                forall|i: int, j: int|
                    old(self).in_bounds(i, j) && j < y && old(self).val_at(i, j) != blocked()
                        ==> old(self).flow_ok(i, j, #[trigger] self.flow_at(i, j)),
            decreases height - y,
        {
            let mut x: usize = 0;
            while x < width
                invariant
                    self.wf(),
                    width == self.spec_width(),
                    height == self.spec_height(),
                    self.spec_width() == old(self).spec_width(),
                    self.spec_height() == old(self).spec_height(),
                    self.spec_values() == old(self).spec_values(),
                    y < height,
                    x <= width,
                    forall|i: int, j: int|
                        old(self).in_bounds(i, j) && j < y && old(self).val_at(i, j) == blocked()
                            ==> #[trigger] self.flow_at(i, j) == (IVec2 { x: 0i32, y: 0i32 }),
                    forall|i: int, j: int|
                        old(self).in_bounds(i, j) && j < y && old(self).val_at(i, j) != blocked()
                            ==> old(self).flow_ok(i, j, #[trigger] self.flow_at(i, j)),
                    forall|i: int|
                        0 <= i < x && old(self).val_at(i, y as int) == blocked()
                            ==> #[trigger] self.flow_at(i, y as int) == (IVec2 { x: 0i32, y: 0i32 }),
                    forall|i: int|
                        0 <= i < x && old(self).val_at(i, y as int) != blocked()
                            ==> old(self).flow_ok(i, y as int, #[trigger] self.flow_at(i, y as int)),
                decreases width - x,
            {
                let current = Cell::new(x, y);
                let mut value = self.get(&current);
                let mut direction = IVec2::zero();
                let ghost v0 = value;
                let ghost cands = self.candidates(x as int, y as int);
                if value != u32::MAX {
                    let ns = self.get_neighbours(&current);
                    let cs = self.get_neighbours_cross(&current);
                    proof {
                        assert(cands =~= ns@ + cs@);
                    }
                    let mut idx: usize = 0;
                    while idx < ns.len()
                        invariant
                            self.wf(),
                            width == self.spec_width(),
                            height == self.spec_height(),
                            x < width,
                            y < height,
                            idx <= ns@.len(),
                            current == (Cell { x, y }),
                            v0 == self.val_at(x as int, y as int),
                            cands == ns@ + cs@,
                            forall|j: int| 0 <= j < cands.len()
                                ==> (#[trigger] cands[j]).x < self.spec_width()
                                    && cands[j].y < self.spec_height(),
                            value <= v0,
                            forall|j: int| 0 <= j < idx
                                ==> value <= self.val_at(
                                    (#[trigger] ns@[j]).x as int, ns@[j].y as int),
                            value == v0 ==> direction == (IVec2 { x: 0i32, y: 0i32 }),
                            value < v0 ==> exists|j: int| 0 <= j < idx && {
                                let n = #[trigger] ns@[j];
                                &&& self.val_at(n.x as int, n.y as int) == value
                                &&& (forall|j2: int| 0 <= j2 < j
                                    ==> value < self.val_at(
                                        (#[trigger] ns@[j2]).x as int, ns@[j2].y as int))
                                &&& direction.x == n.x - x
                                &&& direction.y == n.y - y
                            },
                        decreases ns@.len() - idx,
                    {
                        let n = ns[idx];
                        proof {
                            assert(cands[idx as int] == ns@[idx as int]);
                        }
                        let n_value = self.get(&n);
                        if n_value < value {
                            value = n_value;
                            direction = IVec2::new(
                                n.x as i32 - current.x as i32,
                                n.y as i32 - current.y as i32,
                            );
                        }
                        idx = idx + 1;
                    }
                    proof {
                        if value < v0 {
                            let j = choose|j: int| 0 <= j < ns@.len() && {
                                let n = #[trigger] ns@[j];
                                &&& self.val_at(n.x as int, n.y as int) == value
                                &&& direction.x == n.x - x
                                &&& direction.y == n.y - y
                            };
                            assert(cands[j] == ns@[j]);
                        }
                    }
                    let mut idx2: usize = 0;
                    while idx2 < cs.len()
                        invariant
                            self.wf(),
                            width == self.spec_width(),
                            height == self.spec_height(),
                            x < width,
                            y < height,
                            idx2 <= cs@.len(),
                            current == (Cell { x, y }),
                            v0 == self.val_at(x as int, y as int),
                            cands == ns@ + cs@,
                            forall|j: int| 0 <= j < cands.len()
                                ==> (#[trigger] cands[j]).x < self.spec_width()
                                    && cands[j].y < self.spec_height(),
                            value <= v0,
                            forall|j: int| 0 <= j < ns@.len()
                                ==> value <= self.val_at(
                                    (#[trigger] ns@[j]).x as int, ns@[j].y as int),
                            forall|j: int| 0 <= j < idx2
                                ==> value <= self.val_at(
                                    (#[trigger] cs@[j]).x as int, cs@[j].y as int),
                            value == v0 ==> direction == (IVec2 { x: 0i32, y: 0i32 }),
                            value < v0 ==> exists|j: int| 0 <= j < ns@.len() + idx2 && {
                                let n = #[trigger] cands[j];
                                &&& self.val_at(n.x as int, n.y as int) == value
                                &&& (forall|j2: int| 0 <= j2 < j
                                    ==> value < self.val_at(
                                        (#[trigger] cands[j2]).x as int, cands[j2].y as int))
                                &&& direction.x == n.x - x
                                &&& direction.y == n.y - y
                            },
                        decreases cs@.len() - idx2,
                    {
                        let n = cs[idx2];
                        proof {
                            assert(cands[ns@.len() + idx2] == cs@[idx2 as int]);
                        }
                        let n_value = self.get(&n);
                        if n_value < value {
                            value = n_value;
                            direction = IVec2::new(
                                n.x as i32 - current.x as i32,
                                n.y as i32 - current.y as i32,
                            );
                        }
                        idx2 = idx2 + 1;
                    }
                    proof {
                        assert forall|j: int| 0 <= j < cands.len()
                            implies value <= self.val_at(
                                (#[trigger] cands[j]).x as int, cands[j].y as int) by {
                            if j < ns@.len() {
                                assert(cands[j] == ns@[j]);
                            } else {
                                assert(cands[j] == cs@[j - ns@.len()]);
                            }
                        }
                        assert forall|j: int| 0 <= j < cands.len()
                            implies old(self).val_at(
                                (#[trigger] cands[j]).x as int, cands[j].y as int)
                                == self.val_at(cands[j].x as int, cands[j].y as int) by {
                        }
                        assert(old(self).val_at(x as int, y as int)
                            == self.val_at(x as int, y as int));
                        assert(old(self).cross_seq(x as int, y as int)
                            =~= self.cross_seq(x as int, y as int));
                        assert(old(self).candidates(x as int, y as int) =~= cands);
                        let ocands = old(self).candidates(x as int, y as int);
                        if value < v0 {
                            let j = choose|j: int| 0 <= j < cands.len() && {
                                let n = #[trigger] cands[j];
                                &&& self.val_at(n.x as int, n.y as int) == value
                                &&& direction.x == n.x - x
                                &&& direction.y == n.y - y
                            };
                            assert(ocands[j] == cands[j]);
                            assert(old(self).val_at(
                                (ocands[j]).x as int, ocands[j].y as int)
                                < old(self).val_at(x as int, y as int));
                            assert forall|j2: int| 0 <= j2 < ocands.len()
                                implies old(self).val_at(
                                    (ocands[j]).x as int, ocands[j].y as int)
                                    <= old(self).val_at(
                                        (#[trigger] ocands[j2]).x as int, ocands[j2].y as int) by {
                                assert(ocands[j2] == cands[j2]);
                            }
                            assert(old(self).flow_ok(x as int, y as int, direction));
                        } else {
                            assert forall|i: int| 0 <= i < ocands.len()
                                implies !(old(self).val_at(
                                    (#[trigger] ocands[i]).x as int, ocands[i].y as int)
                                        < old(self).val_at(x as int, y as int)) by {
                                assert(ocands[i] == cands[i]);
                            }
                            assert(old(self).flow_ok(x as int, y as int, direction));
                        }
                    }
                }
                self.set_flow_cell(x, y, direction);
                x = x + 1;
            }
            y = y + 1;
        }
    }

    /// One character for a unit flow direction: an arrow, or a space for
    /// the zero direction.
    pub fn get_string_vector(v: &IVec2) -> (r: String)
        requires
            -1 <= v.x <= 1,
            -1 <= v.y <= 1,
        ensures
            v.x == -1 && v.y == -1 ==> r@ == "\u{2b0b}"@,
            v.x == -1 && v.y == 0 ==> r@ == "\u{2190}"@,
            v.x == -1 && v.y == 1 ==> r@ == "\u{2b09}"@,
            v.x == 0 && v.y == -1 ==> r@ == "\u{2193}"@,
            v.x == 0 && v.y == 0 ==> r@ == " "@,
            v.x == 0 && v.y == 1 ==> r@ == "\u{2191}"@,
            v.x == 1 && v.y == -1 ==> r@ == "\u{2b0a}"@,
            v.x == 1 && v.y == 0 ==> r@ == "\u{2192}"@,
            v.x == 1 && v.y == 1 ==> r@ == "\u{2b08}"@,
    {
        let print_direction: &str = match (v.x, v.y) {
            (-1, -1) => "\u{2b0b}",
            (-1, 0) => "\u{2190}",
            (-1, 1) => "\u{2b09}",
            (0, -1) => "\u{2193}",
            (0, 0) => " ",
            (0, 1) => "\u{2191}",
            (1, -1) => "\u{2b0a}",
            (1, 0) => "\u{2192}",
            (1, 1) => "\u{2b08}",
            (_, _) => " ",
        };
        String::from_str(print_direction)
    }
}

impl FlowField {
    /// One relaxed axis edge: the neighbor is a wall, or its cost is at
    /// most one axis step above the cell's.
    pub open spec fn axis_ok(self, x: int, y: int, nx: int, ny: int) -> bool {
        self.val_at(nx, ny) == blocked() || self.val_at(nx, ny) <= self.val_at(x, y) + 100
    }

    /// Whether the diagonal step `(dx, dy)` out of `(x, y)` is admitted:
    /// in bounds, with both adjacent axis cells unblocked.
    pub open spec fn cross_admissible(self, x: int, y: int, dx: int, dy: int) -> bool {
        self.in_bounds(x + dx, y + dy)
            && self.val_at(x + dx, y) != blocked()
            && self.val_at(x, y + dy) != blocked()
    }

    /// One relaxed diagonal edge.
    pub open spec fn cross_ok(self, x: int, y: int, dx: int, dy: int) -> bool {
        self.cross_admissible(x, y, dx, dy)
            ==> self.val_at(x + dx, y + dy) == blocked()
                || self.val_at(x + dx, y + dy) <= self.val_at(x, y) + 141
    }

    /// Every edge out of `(x, y)` is relaxed.
    pub open spec fn edge_ok(self, x: int, y: int) -> bool {
        &&& (self.in_bounds(x + 1, y) ==> self.axis_ok(x, y, x + 1, y))
        &&& (self.in_bounds(x - 1, y) ==> self.axis_ok(x, y, x - 1, y))
        &&& (self.in_bounds(x, y + 1) ==> self.axis_ok(x, y, x, y + 1))
        &&& (self.in_bounds(x, y - 1) ==> self.axis_ok(x, y, x, y - 1))
        &&& self.cross_ok(x, y, 1, 1)
        &&& self.cross_ok(x, y, 1, -1)
        &&& self.cross_ok(x, y, -1, 1)
        &&& self.cross_ok(x, y, -1, -1)
    }

    /// The field is fully relaxed: no cost can be lowered by stepping
    /// from a neighbor.  Fresh and reset fields are relaxed, and the
    /// destination propagation leaves the field relaxed again.
    pub open spec fn relaxed(self) -> bool {
        forall|x: int, y: int| self.in_bounds(x, y) ==> #[trigger] self.edge_ok(x, y)
    }
}

/// Lowering one unblocked cell's cost cannot break the relaxedness of
/// any other cell's outgoing edges.
proof fn lemma_lowering_keeps_edge_ok(
    pre: FlowField, post: FlowField, sx: int, sy: int, x: int, y: int,
)
    requires
        post.spec_width() == pre.spec_width(),
        post.spec_height() == pre.spec_height(),
        pre.in_bounds(sx, sy),
        forall|i: int, j: int|
            pre.in_bounds(i, j) && (i != sx || j != sy)
                ==> #[trigger] post.val_at(i, j) == pre.val_at(i, j),
        post.val_at(sx, sy) <= pre.val_at(sx, sy),
        (post.val_at(sx, sy) == blocked()) == (pre.val_at(sx, sy) == blocked()),
        pre.in_bounds(x, y),
        x != sx || y != sy,
        pre.edge_ok(x, y),
    ensures
        post.edge_ok(x, y),
{
}

impl FlowField {
    /// The cell's cost is accounted for by a neighbor: it is at least one
    /// step above an axis neighbor, or one diagonal step above an
    /// admitted diagonal neighbor.  Every cost the propagation writes is
    /// supported this way, so no cost can drop below the step structure.
    pub open spec fn supported_at(self, x: int, y: int) -> bool {
        ||| (self.in_bounds(x + 1, y)
            && self.val_at(x, y) >= self.val_at(x + 1, y) + 100)
        ||| (self.in_bounds(x - 1, y)
            && self.val_at(x, y) >= self.val_at(x - 1, y) + 100)
        ||| (self.in_bounds(x, y + 1)
            && self.val_at(x, y) >= self.val_at(x, y + 1) + 100)
        ||| (self.in_bounds(x, y - 1)
            && self.val_at(x, y) >= self.val_at(x, y - 1) + 100)
        ||| (self.cross_admissible(x, y, 1, 1)
            && self.val_at(x, y) >= self.val_at(x + 1, y + 1) + 141)
        ||| (self.cross_admissible(x, y, 1, -1)
            && self.val_at(x, y) >= self.val_at(x + 1, y - 1) + 141)
        ||| (self.cross_admissible(x, y, -1, 1)
            && self.val_at(x, y) >= self.val_at(x - 1, y + 1) + 141)
        ||| (self.cross_admissible(x, y, -1, -1)
            && self.val_at(x, y) >= self.val_at(x - 1, y - 1) + 141)
    }
}

/// Whether the pending part of a worklist, from `from` on, holds the
/// cell `(x, y)`.
pub open spec fn in_pending(q: Seq<Cell>, from: int, x: int, y: int) -> bool {
    exists|j: int| from <= j < q.len() && (#[trigger] q[j]).x == x && q[j].y == y
}

/// Sum of a cost vector; only ever lowered by the relaxation, which is
/// what bounds it.
pub open spec fn vals_sum(s: Seq<u32>) -> int
    decreases s.len(),
{
    if s.len() == 0 {
        0
    } else {
        s[0] + vals_sum(s.drop_first())
    }
}

proof fn lemma_vals_sum_nonneg(s: Seq<u32>)
    ensures
        vals_sum(s) >= 0,
    decreases s.len(),
{
    if s.len() > 0 {
        lemma_vals_sum_nonneg(s.drop_first());
    }
}

proof fn lemma_vals_sum_update(s: Seq<u32>, i: int, v: u32)
    requires
        0 <= i < s.len(),
    ensures
        vals_sum(s.update(i, v)) == vals_sum(s) - s[i] + v,
    decreases s.len(),
{
    if i == 0 {
        assert(s.update(0, v).drop_first() =~= s.drop_first());
    } else {
        lemma_vals_sum_update(s.drop_first(), i - 1, v);
        assert(s.update(i, v).drop_first() =~= s.drop_first().update(i - 1, v));
    }
}

/// Whether the pending part of the worklist, from `from` on, holds the
/// cell.
fn queue_contains(q: &Vec<Cell>, from: usize, c: &Cell) -> (r: bool)
    requires
        from <= q@.len(),
    ensures
        r == exists|j: int| from <= j < q@.len() && q@[j] == *c,
{
    let n = q.len();
    let mut i: usize = from;
    while i < n
        invariant
            from <= i <= n,
            n == q@.len(),
            forall|j: int| from <= j < i ==> q@[j] != *c,
        decreases n - i,
    {
        let cand = q[i];
        if cand.x == c.x && cand.y == c.y {
            assert(q@[i as int] == *c);
            return true;
        }
        i = i + 1;
    }
    false
}

/// Half of a field dimension, rounded down: the offset that centers the
/// signed coordinate origin on the grid.
pub open spec fn center_offset(w: int) -> int {
    w / 2
}

proof fn lemma_field_index(x: int, y: int, w: int, h: int)
    by (nonlinear_arith)
    requires
        0 <= x < w,
        0 <= y < h,
        w == h,
    ensures
        0 <= h * y + x < w * h,
{
}

proof fn lemma_field_index_injective(x1: int, y1: int, x2: int, y2: int, h: int)
    by (nonlinear_arith)
    requires
        0 <= x1 < h,
        0 <= x2 < h,
        0 <= y1,
        0 <= y2,
        h * y1 + x1 == h * y2 + x2,
    ensures
        x1 == x2 && y1 == y2,
{
}

} // verus!
