//! The procedural ground: a deterministic function of a cell's world-space
//! lattice position.  The chunk compositor fills every chunk from this
//! function before assets are overlaid on top.

use vstd::prelude::*;

verus! {

/// Color index used for every terrain voxel.
pub const TERRAIN_COLOR: u8 = 255;

/// World coordinates this far from the origin (in voxel lattice units) are
/// the largest the terrain function accepts; the offset trick below needs
/// them to stay well inside `i64`.
pub const TERRAIN_RANGE: i64 = 0x2000_0000;

/// Triangle wave with period 64 and range `0 ..= 32`, evaluated on the
/// coordinate shifted far into the positives so that the executable
/// remainder agrees with the mathematical one.
pub open spec fn spec_fold(t: int) -> int {
    let m = (t + 0x4000_0000) % 64;
    if m < 32 {
        m
    } else {
        64 - m
    }
}

/// Ground height above a horizontal lattice position, in `-20 ..= 44`.
pub open spec fn spec_height(wx: int, wz: int) -> int {
    spec_fold(wx) + spec_fold(wz) - 20
}

/// The terrain voxel at a world lattice position: solid ground color below
/// the height field, down to a fixed floor, empty elsewhere.
pub open spec fn spec_terrain(wx: int, wy: int, wz: int) -> Option<u8> {
    if -20 <= wy < spec_height(wx, wz) {
        Some(TERRAIN_COLOR)
    } else {
        None
    }
}

/// Executable triangle wave, proved equal to `spec_fold`.
fn fold(t: i64) -> (r: i64)
    requires
        -TERRAIN_RANGE <= t <= TERRAIN_RANGE,
    ensures
        r == spec_fold(t as int),
        0 <= r <= 32,
{
    let shifted: i64 = t + 0x4000_0000;
    let m: i64 = shifted % 64;
    if m < 32 {
        m
    } else {
        64 - m
    }
}

/// The terrain voxel at a world lattice position.
pub fn terrain_voxel(wx: i64, wy: i64, wz: i64) -> (r: Option<u8>)
    requires
        -TERRAIN_RANGE <= wx <= TERRAIN_RANGE,
        -TERRAIN_RANGE <= wz <= TERRAIN_RANGE,
    ensures
        r == spec_terrain(wx as int, wy as int, wz as int),
{
    if wy < -20 {
        return None;
    }
    let h: i64 = fold(wx) + fold(wz) - 20;
    if wy < h {
        Some(TERRAIN_COLOR)
    } else {
        None
    }
}

} // verus!
