//! Heap bootstrap planning.
//!
//! Before the allocator can serve its first request, a fixed virtual
//! window must be backed by physical frames: one frame per page,
//! pulled from the frame source, installed by the page mapper.  The
//! plan computed here pairs every page of the window with the frame
//! that must back it; the caller drives the page-table mapper through
//! the plan and aborts boot on any failure, since no partial heap is
//! tolerated.  On success the window becomes the allocator's arena.

use crate::frames::{FrameSource, FRAME_SIZE};
use crate::memory::ARENA_SIZE;
use vstd::prelude::*;

verus! {

/// First virtual address of the heap window.
pub const HEAP_START: u64 = 0x4444_4444_0000;

/// Bytes in the heap window: exactly the allocator's arena.
pub const HEAP_SIZE: usize = ARENA_SIZE;

/// Pages in the heap window.
pub const HEAP_PAGE_COUNT: usize = ARENA_SIZE / 4096;

/// Why the heap could not be brought up.  Both cases are fatal: the
/// kernel halts with diagnostics, since it cannot run without a heap.
#[derive(Copy, Clone, Debug, PartialEq, Eq, Structural)]
pub enum BootError {
    /// The firmware memory map ran out of usable frames.
    FrameExhausted,
    /// The page mapper refused to install a mapping.
    MappingFailure,
}

/// One page-table installation the mapper must perform: map the page
/// at `page` to the physical frame at `frame`, present and writable.
#[derive(Copy, Clone, Debug, PartialEq, Eq, Structural)]
pub struct MapRequest {
    /// Virtual address of the page to back.
    pub page: u64,
    /// Physical address of the frame backing it.
    pub frame: u64,
}

/// Plans the mapping of the whole heap window: pairs the window's
/// pages, in ascending order, with the next frames of the source, one
/// frame per page.  Fails with `FrameExhausted`, having consumed every
/// remaining frame, exactly when the source holds fewer frames than
/// the window has pages.
pub fn map_heap(fs: &mut FrameSource) -> (r: Result<Vec<MapRequest>, BootError>)
    requires
        old(fs).wf(),
    ensures
        final(fs).wf(),
        r is Ok <==> old(fs).remaining().len() >= HEAP_PAGE_COUNT,
        r matches Ok(v) ==> v@.len() == HEAP_PAGE_COUNT && (forall|t: int|
            0 <= t < HEAP_PAGE_COUNT ==> (#[trigger] v@[t]).page == HEAP_START + FRAME_SIZE * t
                && v@[t].frame == old(fs).remaining()[t])
            && final(fs).remaining() == old(fs).remaining().skip(HEAP_PAGE_COUNT as int),
        r is Err ==> r == Err::<Vec<MapRequest>, BootError>(BootError::FrameExhausted)
            && final(fs).remaining().len() == 0,
{
    let mut plan: Vec<MapRequest> = Vec::new();
    let mut t: usize = 0;
    while t < HEAP_PAGE_COUNT
        invariant
            fs.wf(),
            t == plan@.len(),
            t <= HEAP_PAGE_COUNT,
            old(fs).remaining().len() >= t,
            fs.remaining() == old(fs).remaining().skip(t as int),
            forall|x: int|
                0 <= x < t ==> (#[trigger] plan@[x]).page == HEAP_START + FRAME_SIZE * x
                    && plan@[x].frame == old(fs).remaining()[x],
        decreases HEAP_PAGE_COUNT - t,
    {
        match fs.next_frame() {
            None => {
                return Err(BootError::FrameExhausted);
            },
            Some(f) => {
                plan.push(MapRequest { page: HEAP_START + FRAME_SIZE * (t as u64), frame: f });
                proof {
                    assert(old(fs).remaining().skip(t as int).skip(1) =~= old(
                        fs,
                    ).remaining().skip(t + 1));
                }
                t = t + 1;
            },
        }
    }
    Ok(plan)
}

} // verus!
