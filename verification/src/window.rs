//! The sliding streaming window: which chunk coordinates are loaded, and
//! the diff of coordinates that enter the window when the reference
//! position moves.

use vstd::prelude::*;
use crate::coord_map::CoordMap;
use crate::registry::Handle;

verus! {

/// Largest chunk radius a window may have.
pub const MAX_RADIUS: i32 = 64;

/// Largest absolute chunk coordinate a window center may have.
pub const MAX_CENTER: i32 = 0x10_0000;

/// A loaded chunk: the handle of its entity, and whether it was created
/// by the current streaming pass.
#[derive(Clone, Copy, PartialEq, Eq, Structural, Debug)]
pub struct Chunk {
    pub entity: Handle,
    pub just_added: bool,
}

/// The same slot with its `just_added` flag lowered.
pub open spec fn clear_flag(slot: Option<Chunk>) -> Option<Chunk> {
    match slot {
        Some(c) => Some(Chunk { entity: c.entity, just_added: false }),
        None => None,
    }
}

/// Whether coordinate `k` lies within `radius` chunks of `center`, in the
/// box sense.
pub open spec fn in_window(center: (i32, i32, i32), radius: int, k: (i32, i32, i32)) -> bool {
    &&& center.0 - radius <= k.0 <= center.0 + radius
    &&& center.1 - radius <= k.1 <= center.1 + radius
    &&& center.2 - radius <= k.2 <= center.2 + radius
}

/// The set of loaded chunks around a moving center.  A slot holding
/// `None` is a coordinate that was generated and found empty.
pub struct Chunks {
    radius: i32,
    center: Option<(i32, i32, i32)>,
    loaded: CoordMap<Option<Chunk>>,
}

impl Chunks {
    pub closed spec fn spec_radius(self) -> int {
        self.radius as int
    }

    pub closed spec fn spec_center(self) -> Option<(i32, i32, i32)> {
        self.center
    }

    /// The loaded slots, as a map from chunk coordinate to slot.
    pub closed spec fn loaded_map(self) -> Map<(i32, i32, i32), Option<Chunk>> {
        self.loaded@
    }

    pub closed spec fn storage_inv(self) -> bool {
        self.loaded.wf()
    }

    pub open spec fn wf(self) -> bool {
        &&& self.storage_inv()
        &&& 0 <= self.spec_radius() <= MAX_RADIUS as int
        &&& match self.spec_center() {
            Some(c) => -MAX_CENTER <= c.0 <= MAX_CENTER && -MAX_CENTER <= c.1 <= MAX_CENTER
                && -MAX_CENTER <= c.2 <= MAX_CENTER,
            None => true,
        }
    }

    /// Whether `k` lay in the window before the current move; false when
    /// the window never had a center.
    pub open spec fn in_previous(self, k: (i32, i32, i32)) -> bool {
        match self.spec_center() {
            Some(c) => in_window(c, self.spec_radius(), k),
            None => false,
        }
    }

    pub fn new(radius: i32) -> (r: Self)
        requires
            0 <= radius <= MAX_RADIUS,
        ensures
            r.wf(),
            r.spec_radius() == radius,
            r.spec_center() is None,
            r.loaded_map() =~= Map::<(i32, i32, i32), Option<Chunk>>::empty(),
    {
        Chunks { radius, center: None, loaded: CoordMap::new() }
    }

    pub fn radius(&self) -> (r: i32)
        ensures
            r == self.spec_radius(),
    {
        self.radius
    }

    /// Whether a coordinate has been loaded at all, counting coordinates
    /// that were generated and found empty.
    pub fn is_loaded(&self, k: (i32, i32, i32)) -> (r: bool)
        requires
            self.wf(),
        ensures
            r == self.loaded_map().contains_key(k),
    {
        match self.loaded.get(k) {
            Some(_) => true,
            None => false,
        }
    }

    /// The loaded chunk at a coordinate; `None` for a coordinate that is
    /// not loaded or was generated empty.
    pub fn get_chunk(&self, k: (i32, i32, i32)) -> (r: Option<&Chunk>)
        requires
            self.wf(),
        ensures
            match r {
                Some(c) => self.loaded_map().contains_key(k)
                    && self.loaded_map()[k] == Some(*c),
                None => !self.loaded_map().contains_key(k)
                    || self.loaded_map()[k] is None,
            },
    {
        match self.loaded.get(k) {
            Some(slot) => match slot {
                Some(c) => Some(c),
                None => None,
            },
            None => None,
        }
    }

    /// Stores (or replaces) the slot at a coordinate.
    pub fn set_chunk(&mut self, k: (i32, i32, i32), chunk: Option<Chunk>)
        requires
            old(self).wf(),
        ensures
            final(self).wf(),
            final(self).spec_radius() == old(self).spec_radius(),
            final(self).spec_center() == old(self).spec_center(),
            final(self).loaded_map() =~= old(self).loaded_map().insert(k, chunk),
    {
        self.loaded.insert(k, chunk);
    }

    /// Lowers every loaded chunk's `just_added` flag; the start of a
    /// streaming pass.
    pub fn clear_just_added(&mut self)
        requires
            old(self).wf(),
        ensures
            final(self).wf(),
            final(self).spec_radius() == old(self).spec_radius(),
            final(self).spec_center() == old(self).spec_center(),
            forall|k: (i32, i32, i32)|
                final(self).loaded_map().contains_key(k) == old(self).loaded_map().contains_key(k),
            forall|k: (i32, i32, i32)| #[trigger] old(self).loaded_map().contains_key(k)
                ==> final(self).loaded_map()[k] == clear_flag(old(self).loaded_map()[k]),
    {
        let n = self.loaded.len();
        let mut i: usize = 0;
        while i < n
            invariant
                self.loaded.wf(),
                self.radius == old(self).radius,
                self.center == old(self).center,
                n == self.loaded.entries_view().len(),
                i <= n,
                self.loaded.entries_view().len() == old(self).loaded.entries_view().len(),
                forall|j: int| 0 <= j < n
                    ==> (#[trigger] self.loaded.entries_view()[j]).0
                        == old(self).loaded.entries_view()[j].0,
                forall|j: int| 0 <= j < i
                    ==> (#[trigger] self.loaded.entries_view()[j]).1
                        == clear_flag(old(self).loaded.entries_view()[j].1),
                forall|j: int| i <= j < n
                    ==> (#[trigger] self.loaded.entries_view()[j]).1
                        == old(self).loaded.entries_view()[j].1,
            decreases n - i,
        {
            let slot: Option<Chunk> = {
                let entry = self.loaded.entry_at(i);
                entry.1
            };
            let cleared: Option<Chunk> = match slot {
                Some(c) => Some(Chunk { entity: c.entity, just_added: false }),
                None => None,
            };
            self.loaded.set_value_at(i, cleared);
            i = i + 1;
        }
        proof {
            let olds = old(self).loaded.entries_view();
            let news = self.loaded.entries_view();
            assert forall|k: (i32, i32, i32)|
                final(self).loaded_map().contains_key(k)
                    == old(self).loaded_map().contains_key(k) by {
                if old(self).loaded_map().contains_key(k) {
                    old(self).loaded.lemma_view_key_has_entry(k);
                    let j = crate::coord_map::entry_index_of(olds, k);
                    self.loaded.lemma_entry_in_view(j);
                }
                if final(self).loaded_map().contains_key(k) {
                    self.loaded.lemma_view_key_has_entry(k);
                    let j = crate::coord_map::entry_index_of(news, k);
                    old(self).loaded.lemma_entry_in_view(j);
                }
            }
            assert forall|k: (i32, i32, i32)| #[trigger] old(self).loaded_map().contains_key(k)
                implies final(self).loaded_map()[k]
                    == clear_flag(old(self).loaded_map()[k]) by {
                old(self).loaded.lemma_view_key_has_entry(k);
                let j = crate::coord_map::entry_index_of(olds, k);
                self.loaded.lemma_entry_in_view(j);
                crate::coord_map::lemma_entry_index_unique(news, k, j);
            }
        }
    }

    /// Moves the window to a new center and returns the coordinates that
    /// entered it: those in the new window that the previous window did
    /// not cover, each exactly once.  The loaded slots are untouched.
    pub fn recenter(&mut self, c: (i32, i32, i32)) -> (added: Vec<(i32, i32, i32)>)
        requires
            old(self).wf(),
            -MAX_CENTER <= c.0 <= MAX_CENTER,
            -MAX_CENTER <= c.1 <= MAX_CENTER,
            -MAX_CENTER <= c.2 <= MAX_CENTER,
        ensures
            final(self).wf(),
            final(self).spec_radius() == old(self).spec_radius(),
            final(self).spec_center() == Some(c),
            final(self).loaded_map() == old(self).loaded_map(),
            forall|i: int| 0 <= i < added@.len()
                ==> in_window(c, old(self).spec_radius(), #[trigger] added@[i])
                    && !old(self).in_previous(added@[i]),
            forall|k: (i32, i32, i32)|
                in_window(c, old(self).spec_radius(), k) && !old(self).in_previous(k)
                    ==> added@.contains(k),
            forall|i: int, j: int| 0 <= i < j < added@.len() ==> added@[i] != added@[j],
            old(self).spec_center() == Some(c) ==> added@.len() == 0,
    {
        let r = self.radius;
        let mut added: Vec<(i32, i32, i32)> = Vec::new();
        let ghost rad = self.spec_radius();
        let mut z: i32 = c.2 - r;
        while z <= c.2 + r
            invariant
                self == old(self),
                rad == self.spec_radius(),
                r == self.radius,
                self.wf(),
                -MAX_CENTER <= c.0 <= MAX_CENTER,
                -MAX_CENTER <= c.1 <= MAX_CENTER,
                -MAX_CENTER <= c.2 <= MAX_CENTER,
                c.2 - r <= z <= c.2 + r + 1,
                forall|i: int| 0 <= i < added@.len()
                    ==> in_window(c, rad, #[trigger] added@[i]) && !self.in_previous(added@[i]),
                forall|i: int| 0 <= i < added@.len() ==> (#[trigger] added@[i]).2 < z,
                forall|k: (i32, i32, i32)|
                    in_window(c, rad, k) && !self.in_previous(k) && k.2 < z
                        ==> added@.contains(k),
                forall|i: int, j: int| 0 <= i < j < added@.len() ==> added@[i] != added@[j],
                self.spec_center() == Some(c) ==> added@.len() == 0,
            decreases c.2 + r + 1 - z,
        {
            let mut y: i32 = c.1 - r;
            while y <= c.1 + r
                invariant
                    self == old(self),
                    rad == self.spec_radius(),
                    r == self.radius,
                    self.wf(),
                    -MAX_CENTER <= c.0 <= MAX_CENTER,
                    -MAX_CENTER <= c.1 <= MAX_CENTER,
                    -MAX_CENTER <= c.2 <= MAX_CENTER,
                    c.2 - r <= z <= c.2 + r,
                    c.1 - r <= y <= c.1 + r + 1,
                    forall|i: int| 0 <= i < added@.len()
                        ==> in_window(c, rad, #[trigger] added@[i]) && !self.in_previous(added@[i]),
                    forall|i: int| 0 <= i < added@.len()
                        ==> (#[trigger] added@[i]).2 < z
                            || (added@[i].2 == z && added@[i].1 < y),
                    forall|k: (i32, i32, i32)|
                        in_window(c, rad, k) && !self.in_previous(k) && k.2 < z
                            ==> added@.contains(k),
                    forall|k: (i32, i32, i32)|
                        in_window(c, rad, k) && !self.in_previous(k) && k.2 == z && k.1 < y
                            ==> added@.contains(k),
                    forall|i: int, j: int| 0 <= i < j < added@.len() ==> added@[i] != added@[j],
                    self.spec_center() == Some(c) ==> added@.len() == 0,
                decreases c.1 + r + 1 - y,
            {
                let mut x: i32 = c.0 - r;
                while x <= c.0 + r
                    invariant
                        self == old(self),
                        rad == self.spec_radius(),
                        r == self.radius,
                        self.wf(),
                        -MAX_CENTER <= c.0 <= MAX_CENTER,
                        -MAX_CENTER <= c.1 <= MAX_CENTER,
                        -MAX_CENTER <= c.2 <= MAX_CENTER,
                        c.2 - r <= z <= c.2 + r,
                        c.1 - r <= y <= c.1 + r,
                        c.0 - r <= x <= c.0 + r + 1,
                        forall|i: int| 0 <= i < added@.len()
                            ==> in_window(c, rad, #[trigger] added@[i])
                                && !self.in_previous(added@[i]),
                        forall|i: int| 0 <= i < added@.len()
                            ==> (#[trigger] added@[i]).2 < z
                                || (added@[i].2 == z && added@[i].1 < y)
                                || (added@[i].2 == z && added@[i].1 == y && added@[i].0 < x),
                        forall|k: (i32, i32, i32)|
                            in_window(c, rad, k) && !self.in_previous(k) && k.2 < z
                                ==> added@.contains(k),
                        forall|k: (i32, i32, i32)|
                            in_window(c, rad, k) && !self.in_previous(k) && k.2 == z && k.1 < y
                                ==> added@.contains(k),
                        forall|k: (i32, i32, i32)|
                            in_window(c, rad, k) && !self.in_previous(k) && k.2 == z && k.1 == y
                                && k.0 < x ==> added@.contains(k),
                        forall|i: int, j: int| 0 <= i < j < added@.len() ==> added@[i] != added@[j],
                        self.spec_center() == Some(c) ==> added@.len() == 0,
                    decreases c.0 + r + 1 - x,
                {
                    let k = (x, y, z);
                    let was_inside = match &self.center {
                        Some(oc) => {
                            oc.0 - r <= x && x <= oc.0 + r
                                && oc.1 - r <= y && y <= oc.1 + r
                                && oc.2 - r <= z && z <= oc.2 + r
                        },
                        None => false,
                    };
                    if !was_inside {
                        let ghost pre = added@;
                        added.push(k);
                        proof {
                            assert forall|k2: (i32, i32, i32)| pre.contains(k2)
                                implies added@.contains(k2) by {
                                let i = choose|i: int| 0 <= i < pre.len() && pre[i] == k2;
                                assert(added@[i] == k2);
                            }
                            assert forall|k2: (i32, i32, i32)|
                                in_window(c, rad, k2) && !self.in_previous(k2) && k2.2 == z
                                    && k2.1 == y && k2.0 < x + 1
                                    implies added@.contains(k2) by {
                                if k2.0 < x {
                                    assert(pre.contains(k2));
                                    let i = choose|i: int| 0 <= i < pre.len() && pre[i] == k2;
                                    assert(added@[i] == k2);
                                } else {
                                    assert(added@[pre.len() as int] == k2);
                                }
                            }
                        }
                    }
                    x = x + 1;
                }
                y = y + 1;
            }
            z = z + 1;
        }
        self.center = Some(c);
        added
    }
}

} // verus!
