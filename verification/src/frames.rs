//! Physical-frame source over the firmware memory map.
//!
//! The firmware reports physical memory as a list of regions, each
//! usable or not.  The frame source walks the usable regions once,
//! front to back, and hands out page-aligned physical frames that lie
//! entirely inside a usable region.  It is forward only: a frame once
//! handed out is never handed out again, and the walk cannot be
//! restarted.

use vstd::prelude::*;

verus! {

/// Bytes in one physical frame (hardware page granularity).
pub const FRAME_SIZE: u64 = 4096;

/// One region of the firmware memory map, reduced to what the frame
/// source reads: its byte range and whether the firmware marked it
/// usable.  Reserved, firmware-owned and defective regions arrive with
/// `usable` false.
#[derive(Copy, Clone, Debug, PartialEq, Eq, Structural)]
pub struct MemoryRegion {
    /// First byte of the region.
    pub start: u64,
    /// One past the last byte of the region.
    pub end: u64,
    /// Whether the firmware reports the region as free for use.
    pub usable: bool,
}

/// A region the frame source can walk without arithmetic overflow.
pub open spec fn region_wf(r: MemoryRegion) -> bool {
    r.start <= r.end <= u64::MAX - FRAME_SIZE
}

/// The given address rounded up to the next frame boundary.
pub open spec fn align_up(a: int) -> int {
    if a % (FRAME_SIZE as int) == 0 {
        a
    } else {
        a + FRAME_SIZE - (a % (FRAME_SIZE as int))
    }
}

/// Frames of region `r` from address `addr` on: every whole frame
/// `[f, f + FRAME_SIZE)` inside `[addr, r.end)`, in ascending order,
/// or none when the region is not usable.
pub open spec fn region_frames_from(r: MemoryRegion, addr: int) -> Seq<u64> {
    if r.usable && addr + FRAME_SIZE <= r.end {
        Seq::new(
            ((r.end - addr) / (FRAME_SIZE as int)) as nat,
            |t: int| (addr + FRAME_SIZE * t) as u64,
        )
    } else {
        Seq::empty()
    }
}

/// All frames of region `r`: from its first frame boundary on.
pub open spec fn region_frames(r: MemoryRegion) -> Seq<u64> {
    region_frames_from(r, align_up(r.start as int))
}

/// All frames of the regions from index `i` on, in region order.
pub open spec fn frames_from(regions: Seq<MemoryRegion>, i: int) -> Seq<u64>
    decreases regions.len() - i,
        when 0 <= i <= regions.len()
{
    if i == regions.len() {
        Seq::empty()
    } else {
        region_frames(regions[i]) + frames_from(regions, i + 1)
    }
}

/// Lazy, forward-only, finite source of unused physical frames drawn
/// from the firmware memory map.
pub struct FrameSource {
    regions: Vec<MemoryRegion>,
    region_idx: usize,
    next_addr: u64,
}

impl FrameSource {
    /// Internal consistency: the cursor sits at a frame boundary of
    /// the current region, at or past its first frame.
    pub closed spec fn wf(&self) -> bool {
        &&& forall|i: int| 0 <= i < self.regions@.len() ==> region_wf(#[trigger] self.regions@[i])
        &&& self.region_idx <= self.regions@.len()
        &&& self.region_idx < self.regions@.len() ==> {
            let r = self.regions@[self.region_idx as int];
            &&& align_up(r.start as int) <= self.next_addr
            &&& (self.next_addr - align_up(r.start as int)) % (FRAME_SIZE as int) == 0
        }
    }

    /// The frames not yet handed out, in the order they will come.
    pub closed spec fn remaining(&self) -> Seq<u64> {
        if self.region_idx < self.regions@.len() {
            region_frames_from(
                self.regions@[self.region_idx as int],
                self.next_addr as int,
            ) + frames_from(self.regions@, self.region_idx + 1)
        } else {
            Seq::empty()
        }
    }

    /// Builds a frame source over the firmware memory map.  Every
    /// frame of every usable region is still to come.
    pub fn new(regions: Vec<MemoryRegion>) -> (fs: FrameSource)
        requires
            forall|i: int| 0 <= i < regions@.len() ==> region_wf(#[trigger] regions@[i]),
        ensures
            fs.wf(),
            fs.remaining() == frames_from(regions@, 0),
    {
        let next_addr = if regions.len() > 0 {
            align_up_exec(regions[0].start)
        } else {
            0
        };
        let fs = FrameSource { regions, region_idx: 0, next_addr };
        proof {
            assert(fs.remaining() =~= frames_from(fs.regions@, 0));
        }
        fs
    }

    /// Hands out the next unused frame, if any frame is left: the
    /// head of `remaining`, which then no longer remains.  The walk
    /// never goes back: a frame handed out once is never reissued.
    pub fn next_frame(&mut self) -> (r: Option<u64>)
        requires
            old(self).wf(),
        ensures
            final(self).wf(),
            old(self).remaining().len() > 0 ==> r == Some(old(self).remaining()[0])
                && final(self).remaining() == old(self).remaining().skip(1),
            old(self).remaining().len() == 0 ==> r is None && final(self).remaining()
                == old(self).remaining(),
    {
        loop
            invariant
                self.wf(),
                self.regions@ == old(self).regions@,
                self.remaining() == old(self).remaining(),
            decreases self.regions@.len() - self.region_idx,
        {
            if self.region_idx >= self.regions.len() {
                return None;
            }
            let r = self.regions[self.region_idx];
            if r.usable && r.end >= FRAME_SIZE && self.next_addr <= r.end - FRAME_SIZE {
                let f = self.next_addr;
                let ghost pre = *self;
                self.next_addr = f + FRAME_SIZE;
                proof {
                    assert(pre.remaining()[0] == f);
                    assert(self.remaining() =~= pre.remaining().skip(1));
                }
                return Some(f);
            } else {
                let ghost pre = *self;
                self.region_idx = self.region_idx + 1;
                if self.region_idx < self.regions.len() {
                    self.next_addr = align_up_exec(self.regions[self.region_idx].start);
                }
                proof {
                    let rr = pre.regions@[pre.region_idx as int];
                    assert(region_frames_from(rr, pre.next_addr as int) =~= Seq::<u64>::empty());
                    assert(self.remaining() =~= pre.remaining());
                }
            }
        }
    }
}

/// The firmware reports regions in ascending, non-overlapping order.
pub open spec fn regions_sorted(regions: Seq<MemoryRegion>) -> bool {
    forall|a: int, b: int|
        0 <= a < b < regions.len() ==> (#[trigger] regions[a]).end <= (#[trigger] regions[b]).start
}

/// Every frame of a region's walk lies at or past the walk's start
/// and fits entirely before the region's end.
pub proof fn lemma_region_frames_bounds(r: MemoryRegion, addr: int)
    requires
        region_wf(r),
        addr >= 0,
    ensures
        forall|t: int|
            0 <= t < region_frames_from(r, addr).len() ==> addr <= #[trigger] region_frames_from(
                r,
                addr,
            )[t] && region_frames_from(r, addr)[t] + FRAME_SIZE <= r.end,
{
    let fs = region_frames_from(r, addr);
    assert forall|t: int| 0 <= t < fs.len() implies addr <= #[trigger] fs[t] && fs[t] + FRAME_SIZE
        <= r.end by {
        assert(t + 1 <= (r.end - addr) / (FRAME_SIZE as int));
        assert((FRAME_SIZE as int) * (t + 1) <= (FRAME_SIZE as int) * ((r.end - addr) / (
        FRAME_SIZE as int))) by (nonlinear_arith)
            requires
                t + 1 <= (r.end - addr) / (FRAME_SIZE as int),
        ;
        assert((FRAME_SIZE as int) * ((r.end - addr) / (FRAME_SIZE as int)) <= r.end - addr) by (
        nonlinear_arith)
            requires
                r.end - addr >= 0,
        ;
    }
}

/// Every frame the walk will ever produce from region `i` on lies at
/// or past region `i`'s start.
pub proof fn lemma_frames_from_lower(regions: Seq<MemoryRegion>, i: int)
    requires
        forall|x: int| 0 <= x < regions.len() ==> region_wf(#[trigger] regions[x]),
        regions_sorted(regions),
        0 <= i < regions.len(),
    ensures
        forall|t: int|
            0 <= t < frames_from(regions, i).len() ==> #[trigger] frames_from(regions, i)[t]
                >= regions[i].start,
    decreases regions.len() - i,
{
    let first = align_up(regions[i].start as int);
    let head = region_frames(regions[i]);
    lemma_region_frames_bounds(regions[i], first);
    if i + 1 < regions.len() {
        lemma_frames_from_lower(regions, i + 1);
    }
    assert forall|t: int|
        0 <= t < frames_from(regions, i).len() implies #[trigger] frames_from(regions, i)[t]
        >= regions[i].start by {
        if t < head.len() {
            assert(region_frames_from(regions[i], first)[t] >= first);
        } else {
            assert(frames_from(regions, i + 1)[t - head.len()] >= regions[i + 1].start);
        }
    }
}

/// No frame is ever reissued: over a sorted, non-overlapping memory
/// map, the walk's frames are strictly increasing, so all distinct.
pub proof fn lemma_frames_never_reissued(regions: Seq<MemoryRegion>, i: int)
    requires
        forall|x: int| 0 <= x < regions.len() ==> region_wf(#[trigger] regions[x]),
        regions_sorted(regions),
        0 <= i <= regions.len(),
    ensures
        forall|a: int, b: int|
            0 <= a < b < frames_from(regions, i).len() ==> #[trigger] frames_from(regions, i)[a]
                < #[trigger] frames_from(regions, i)[b],
    decreases regions.len() - i,
{
    if i < regions.len() {
        let r = regions[i];
        let first = align_up(r.start as int);
        let head = region_frames(r);
        let tail = frames_from(regions, i + 1);
        lemma_region_frames_bounds(r, first);
        lemma_frames_never_reissued(regions, i + 1);
        if i + 1 < regions.len() {
            lemma_frames_from_lower(regions, i + 1);
        }
        assert forall|a: int, b: int|
            0 <= a < b < frames_from(regions, i).len() implies #[trigger] frames_from(
            regions,
            i,
        )[a] < #[trigger] frames_from(regions, i)[b] by {
            if b < head.len() {
                // Both inside the region: the walk steps forward one
                // frame at a time.
            } else if a >= head.len() {
                // Both in later regions.
                assert(tail[a - head.len()] < tail[b - head.len()]);
            } else {
                // The region's frames end before the next region
                // starts.
                assert(head[a] + FRAME_SIZE <= r.end);
                assert(tail[b - head.len()] >= regions[i + 1].start);
            }
        }
    }
}

/// The given address rounded up to the next frame boundary.
fn align_up_exec(a: u64) -> (r: u64)
    requires
        a <= u64::MAX - FRAME_SIZE,
    ensures
        r == align_up(a as int),
{
    let rem = a % FRAME_SIZE;
    if rem == 0 {
        a
    } else {
        a + (FRAME_SIZE - rem)
    }
}

} // verus!
