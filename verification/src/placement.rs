//! Sign-aware chunk coordinate arithmetic and the per-axis walk that
//! splits a placed asset's bounding box across the chunks it overlaps.

use vstd::prelude::*;
use vstd::arithmetic::div_mod::{
    lemma_fundamental_div_mod, lemma_fundamental_div_mod_converse,
    lemma_mod_division_less_than_divisor,
};

verus! {

/// Largest absolute world coordinate the placement arithmetic accepts.
pub const MAX_WORLD_POS: i32 = 0x10_0000;

/// Floor-division split of a world coordinate into a chunk index and a
/// local offset: `chunk * chunk_size + offset == start` with
/// `0 <= offset < chunk_size`, for negative coordinates too.
pub fn chunk_index_and_offset(start: i32, chunk_size: usize) -> (r: (i32, usize))
    requires
        1 <= chunk_size <= 0x4000_0000,
    ensures
        r.0 * chunk_size + r.1 == start,
        r.1 < chunk_size,
        r.0 == start as int / chunk_size as int,
        r.1 == start as int % chunk_size as int,
{
    let cs = chunk_size;
    if start >= 0 {
        let u = start as u64;
        let q = u / cs as u64;
        let off = u % cs as u64;
        proof {
            lemma_fundamental_div_mod(u as int, cs as int);
            lemma_mod_division_less_than_divisor(u as int, cs as int);
            assert(q as int * (cs as int) == cs as int * (q as int)) by (nonlinear_arith);
            lemma_fundamental_div_mod_converse(
                start as int, cs as int, q as int, off as int);
            assert(q <= u) by (nonlinear_arith)
                requires
                    cs as int * (q as int) + off == u,
                    off >= 0,
                    cs >= 1,
                    q >= 0,
            ;
        }
        (q as i32, off as usize)
    } else {
        let neg: u64 = (-(start as i64)) as u64;
        let cs64: u64 = cs as u64;
        let q: u64 = (neg + cs64 - 1) / cs64;
        proof {
            lemma_fundamental_div_mod((neg + cs64 - 1) as int, cs64 as int);
            lemma_mod_division_less_than_divisor((neg + cs64 - 1) as int, cs64 as int);
        }
        let off: u64 = q * cs64 - neg;
        proof {
            let n = neg as int;
            let c = cs as int;
            let qq = q as int;
            assert(-qq * c == -(c * qq)) by (nonlinear_arith);
            assert(qq <= n) by (nonlinear_arith)
                requires
                    c * qq <= n + c - 1,
                    c >= 1,
                    qq >= 0,
                    n >= 1,
            ;
            lemma_fundamental_div_mod_converse(
                start as int, cs as int, -(q as int), off as int);
        }
        ((-(q as i64)) as i32, off as usize)
    }
}

/// One step of the per-axis walk: a run of `len` voxels that lands in
/// chunk `chunk`, read from the asset at `source` and written to the
/// chunk's local grid at `target`.
#[derive(Clone, Copy, PartialEq, Eq, Structural, Debug)]
pub struct AxisSegment {
    pub chunk: i32,
    pub source: usize,
    pub target: usize,
    pub len: usize,
}

/// Mathematical image of an `AxisSegment`.
pub struct SegModel {
    pub chunk: int,
    pub source: int,
    pub target: int,
    pub len: int,
}

pub open spec fn seg_model(s: AxisSegment) -> SegModel {
    SegModel {
        chunk: s.chunk as int,
        source: s.source as int,
        target: s.target as int,
        len: s.len as int,
    }
}

/// The canonical segmentation of the run `[start, start + size)` of world
/// coordinates into chunk-aligned pieces, with source offsets counted
/// from `source`.
pub open spec fn spec_segments(start: int, size: int, source: int, cs: int) -> Seq<SegModel>
    decreases size,
{
    if size <= 0 || cs <= 0 {
        Seq::empty()
    } else {
        let chunk = start / cs;
        let target = start % cs;
        let take = if size <= cs - target {
            size
        } else {
            cs - target
        };
        seq![
            SegModel { chunk, source, target, len: take },
        ] + spec_segments(start + take, size - take, source + take, cs)
    }
}

/// Total extent covered by a run of segments.
pub open spec fn extent_sum(s: Seq<SegModel>) -> int
    decreases s.len(),
{
    if s.len() == 0 {
        0
    } else {
        s[0].len + extent_sum(s.drop_first())
    }
}

/// The per-axis walk partitions the asset's extent: the source intervals
/// of its segments are consecutive, start at `source`, end at
/// `source + size`, and their lengths sum to `size`; each piece fits its
/// chunk, and reconstructing a piece through its chunk coordinate lands
/// exactly on the world-space run (`chunk * cs + target == start + piece
/// source offset`).  No gaps, no overlaps.
pub proof fn lemma_segments_partition(start: int, size: int, source: int, cs: int)
    requires
        cs >= 1,
        size >= 0,
    ensures
        ({
            let s = spec_segments(start, size, source, cs);
            &&& extent_sum(s) == size
            &&& (s.len() == 0 <==> size == 0)
            &&& (size > 0 ==> s[0].source == source && s[0].chunk == start / cs
                && s[0].target == start % cs)
            &&& forall|i: int| 0 <= i < s.len() ==> (#[trigger] s[i]).len >= 1
            &&& forall|i: int| 0 <= i < s.len()
                ==> 0 <= (#[trigger] s[i]).target && s[i].target + s[i].len <= cs
            &&& forall|i: int| 0 <= i < s.len()
                ==> (#[trigger] s[i]).chunk * cs + s[i].target == start + (s[i].source - source)
            &&& forall|i: int| 0 <= i < s.len()
                ==> (#[trigger] s[i]).chunk == s[0].chunk + i
            &&& forall|i: int| 0 <= i < s.len()
                ==> source <= (#[trigger] s[i]).source && s[i].source + s[i].len <= source + size
            &&& forall|i: int| 0 <= i < s.len() - 1
                ==> (#[trigger] s[i]).source + s[i].len == s[i + 1].source
            &&& (size > 0 ==> s[s.len() - 1].source + s[s.len() - 1].len == source + size)
        }),
    decreases size,
{
    let s = spec_segments(start, size, source, cs);
    if size > 0 {
        lemma_fundamental_div_mod(start, cs);
        lemma_mod_division_less_than_divisor(start, cs);
        let target = start % cs;
        let take = if size <= cs - target {
            size
        } else {
            cs - target
        };
        let rest = spec_segments(start + take, size - take, source + take, cs);
        lemma_segments_partition(start + take, size - take, source + take, cs);
        assert(s == seq![s[0]] + rest);
        assert(s.drop_first() =~= rest);
        if size - take > 0 {
            assert((start / cs + 1) * cs == cs * (start / cs) + cs) by (nonlinear_arith);
            lemma_fundamental_div_mod_converse(
                start + take, cs, start / cs + 1, 0);
            assert(rest[0].chunk == start / cs + 1);
        }
        assert forall|i: int| 0 <= i < s.len()
            implies (#[trigger] s[i]).chunk == s[0].chunk + i by {
            if i > 0 {
                assert(rest[i - 1].chunk == rest[0].chunk + (i - 1));
            }
        }
        assert forall|i: int| 0 <= i < s.len()
            implies (#[trigger] s[i]).chunk * cs + s[i].target
                == start + (s[i].source - source) by {
            if i == 0 {
                assert((start / cs) * cs == cs * (start / cs)) by (nonlinear_arith);
            } else {
                assert(rest[i - 1].chunk * cs + rest[i - 1].target
                    == (start + take) + (rest[i - 1].source - (source + take)));
            }
        }
    } else {
        assert(s.len() == 0);
    }
}

/// Runs the per-axis walk: splits `size` voxels starting at world
/// coordinate `start` into chunk-aligned segments.
pub fn axis_segments(start: i32, size: usize, chunk_size: usize) -> (r: Vec<AxisSegment>)
    requires
        1 <= chunk_size <= 0x1000,
        size <= 0x1000,
        -MAX_WORLD_POS <= start <= MAX_WORLD_POS,
    ensures
        r@.map_values(|a: AxisSegment| seg_model(a))
            == spec_segments(start as int, size as int, 0, chunk_size as int),
        r@.len() <= size,
    {
    let cs = chunk_size;
    let mut out: Vec<AxisSegment> = Vec::new();
    let (mut chunk, mut target) = chunk_index_and_offset(start, cs);
    let mut source: usize = 0;
    let mut remaining: usize = size;
    proof {
        assert(out@.map_values(|a: AxisSegment| seg_model(a)) =~= Seq::<SegModel>::empty());
        assert(-0x11_0000 <= chunk <= 0x11_0000) by (nonlinear_arith)
            requires
                chunk as int * (cs as int) + target == start,
                0 <= target < cs,
                1 <= cs,
                -0x10_1000 <= start <= 0x10_1000,
        ;
    }
    while remaining > 0
        invariant
            1 <= cs <= 0x1000,
            remaining <= size <= 0x1000,
            source == size - remaining,
            -MAX_WORLD_POS <= start <= MAX_WORLD_POS,
            out@.len() <= source,
            remaining > 0 ==> chunk == (start + source) as int / cs as int
                && target == (start + source) as int % cs as int,
            -0x20_0000 <= chunk <= 0x20_0000,
            spec_segments(start as int, size as int, 0, cs as int)
                == out@.map_values(|a: AxisSegment| seg_model(a))
                    + spec_segments(start + source, remaining as int, source as int, cs as int),
        decreases remaining,
    {
        proof {
            lemma_fundamental_div_mod(start + source, cs as int);
            lemma_mod_division_less_than_divisor(start + source, cs as int);
            assert(-0x11_0000 <= chunk <= 0x11_0000) by (nonlinear_arith)
                requires
                    cs as int * (chunk as int) + target == start + source,
                    0 <= target < cs,
                    1 <= cs,
                    -0x10_1000 <= start + source <= 0x10_1000,
            ;
        }
        let available: usize = cs - target;
        let take: usize = if remaining <= available {
            remaining
        } else {
            available
        };
        let seg = AxisSegment { chunk, source, target, len: take };
        let ghost pre = out@;
        out.push(seg);
        proof {
            let f = |a: AxisSegment| seg_model(a);
            assert(out@.map_values(f) =~= pre.map_values(f).push(seg_model(seg)));
            let tail = spec_segments(
                start + source + take, (remaining - take) as int,
                (source + take) as int, cs as int);
            assert(spec_segments(start + source, remaining as int, source as int, cs as int)
                == seq![seg_model(seg)] + tail);
            assert(pre.map_values(f).push(seg_model(seg)) + tail
                =~= pre.map_values(f) + (seq![seg_model(seg)] + tail));
            if remaining - take > 0 {
                assert((chunk as int + 1) * (cs as int) == cs as int * (chunk as int) + cs)
                    by (nonlinear_arith);
                lemma_fundamental_div_mod_converse(
                    start + source + take, cs as int, chunk as int + 1, 0);
            }
        }
        chunk = chunk + 1;
        source = source + take;
        target = 0;
        remaining = remaining - take;
    }
    proof {
        assert(spec_segments(start + source, 0, source as int, cs as int) =~= Seq::<SegModel>::empty());
        assert(out@.map_values(|a: AxisSegment| seg_model(a))
            + Seq::<SegModel>::empty() =~= out@.map_values(|a: AxisSegment| seg_model(a)));
    }
    out
}

} // verus!
