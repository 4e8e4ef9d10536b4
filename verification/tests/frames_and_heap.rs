use kmem::frames::{FrameSource, MemoryRegion, FRAME_SIZE};
use kmem::heap::{map_heap, BootError, HEAP_PAGE_COUNT, HEAP_SIZE, HEAP_START};
use kmem::memory::ARENA_SIZE;

fn usable(start: u64, end: u64) -> MemoryRegion {
    MemoryRegion { start, end, usable: true }
}

fn reserved(start: u64, end: u64) -> MemoryRegion {
    MemoryRegion { start, end, usable: false }
}

#[test]
fn frames_of_one_aligned_region() {
    let mut fs = FrameSource::new(vec![usable(0x1000, 0x5000)]);
    assert_eq!(fs.next_frame(), Some(0x1000));
    assert_eq!(fs.next_frame(), Some(0x2000));
    assert_eq!(fs.next_frame(), Some(0x3000));
    assert_eq!(fs.next_frame(), Some(0x4000));
    assert_eq!(fs.next_frame(), None);
    assert_eq!(fs.next_frame(), None);
}

#[test]
fn unaligned_region_start_is_rounded_up() {
    let mut fs = FrameSource::new(vec![usable(0x1234, 0x4000)]);
    assert_eq!(fs.next_frame(), Some(0x2000));
    assert_eq!(fs.next_frame(), Some(0x3000));
    assert_eq!(fs.next_frame(), None);
}

#[test]
fn unusable_regions_are_skipped() {
    let mut fs = FrameSource::new(vec![
        reserved(0x0, 0x8000),
        usable(0x8000, 0xA000),
        reserved(0xA000, 0x10000),
        usable(0x10000, 0x11000),
    ]);
    assert_eq!(fs.next_frame(), Some(0x8000));
    assert_eq!(fs.next_frame(), Some(0x9000));
    assert_eq!(fs.next_frame(), Some(0x10000));
    assert_eq!(fs.next_frame(), None);
}

#[test]
fn region_too_small_for_a_frame_yields_none() {
    let mut fs = FrameSource::new(vec![usable(0x1000, 0x1500), usable(0x1800, 0x1f00)]);
    assert_eq!(fs.next_frame(), None);
}

#[test]
fn empty_map_yields_none() {
    let mut fs = FrameSource::new(vec![]);
    assert_eq!(fs.next_frame(), None);
}

#[test]
fn frames_are_never_reissued() {
    let mut fs = FrameSource::new(vec![usable(0x1000, 0x9000)]);
    let mut seen: Vec<u64> = Vec::new();
    while let Some(f) = fs.next_frame() {
        assert!(!seen.contains(&f), "frame {:#x} reissued", f);
        seen.push(f);
    }
    assert_eq!(seen.len(), 8);
}

#[test]
fn heap_window_matches_arena() {
    assert_eq!(HEAP_SIZE, ARENA_SIZE);
    assert_eq!(HEAP_PAGE_COUNT, ARENA_SIZE / 4096);
    assert_eq!(HEAP_PAGE_COUNT, 128);
}

#[test]
fn heap_plan_backs_every_page_in_order() {
    // 0x100000 bytes give 256 frames: more than the window needs.
    let mut fs = FrameSource::new(vec![usable(0x10_0000, 0x20_0000)]);
    let plan = map_heap(&mut fs).unwrap();
    assert_eq!(plan.len(), HEAP_PAGE_COUNT);
    for (t, req) in plan.iter().enumerate() {
        assert_eq!(req.page, HEAP_START + FRAME_SIZE * t as u64);
        assert_eq!(req.frame, 0x10_0000 + FRAME_SIZE * t as u64);
    }
    // The source moved forward: the next frame is the first unused one.
    assert_eq!(fs.next_frame(), Some(0x10_0000 + FRAME_SIZE * HEAP_PAGE_COUNT as u64));
}

#[test]
fn heap_plan_spans_regions() {
    // 64 frames in the first region, the rest from the second.
    let mut fs = FrameSource::new(vec![
        usable(0x10_0000, 0x14_0000),
        reserved(0x14_0000, 0x20_0000),
        usable(0x20_0000, 0x30_0000),
    ]);
    let plan = map_heap(&mut fs).unwrap();
    assert_eq!(plan.len(), HEAP_PAGE_COUNT);
    assert_eq!(plan[63].frame, 0x13_F000);
    assert_eq!(plan[64].frame, 0x20_0000);
}

#[test]
fn heap_plan_fails_when_frames_run_out() {
    // Only 64 frames: fewer than the 128 pages of the window.
    let mut fs = FrameSource::new(vec![usable(0x10_0000, 0x14_0000)]);
    assert_eq!(map_heap(&mut fs), Err(BootError::FrameExhausted));
    // The attempt consumed the map.
    assert_eq!(fs.next_frame(), None);
}
