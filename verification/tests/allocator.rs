use kmem::memory::{AllocError, Allocator, ARENA_SIZE, MAX_SUPPORTED_ALIGN, ORDER_0_BLOCK_SIZE};

const BASE: u64 = 0x4444_4444_0000;

#[test]
fn fresh_allocator_is_all_free() {
    let a = Allocator::new(BASE);
    assert_eq!(a.free_bytes(), ARENA_SIZE);
    assert_eq!(a.used_bytes(), 0);
    assert_eq!(a.arena_start(), BASE);
}

#[test]
fn conservation_across_operations() {
    let mut a = Allocator::new(BASE);
    assert_eq!(a.free_bytes() + a.used_bytes(), ARENA_SIZE);
    let x = a.allocate(1024, 1).unwrap();
    assert_eq!(a.free_bytes() + a.used_bytes(), ARENA_SIZE);
    let _y = a.allocate(3000, 8).unwrap();
    assert_eq!(a.free_bytes() + a.used_bytes(), ARENA_SIZE);
    assert!(a.deallocate(x));
    assert_eq!(a.free_bytes() + a.used_bytes(), ARENA_SIZE);
}

#[test]
fn used_bytes_counts_whole_blocks() {
    let mut a = Allocator::new(BASE);
    // 3000 bytes round up to an order-2 block of 4096 bytes.
    let _x = a.allocate(3000, 1).unwrap();
    assert_eq!(a.used_bytes(), 4096);
    assert_eq!(a.free_bytes(), ARENA_SIZE - 4096);
}

#[test]
fn alignment_rejection() {
    let mut a = Allocator::new(BASE);
    assert_eq!(MAX_SUPPORTED_ALIGN, 4096);
    assert_eq!(a.allocate(64, 8192), Err(AllocError::UnsupportedAlignment));
    assert_eq!(a.allocate(64, 0), Err(AllocError::UnsupportedAlignment));
    assert_eq!(a.allocate(64, 3), Err(AllocError::UnsupportedAlignment));
    assert!(a.allocate(64, 4096).is_ok());
}

#[test]
fn request_too_large() {
    let mut a = Allocator::new(BASE);
    assert_eq!(a.allocate(ARENA_SIZE + 1, 1), Err(AllocError::RequestTooLarge));
    // The whole arena is still one admissible request.
    assert_eq!(a.allocate(ARENA_SIZE, 1), Ok(BASE));
}

#[test]
fn exhaustion_after_512_base_blocks() {
    let mut a = Allocator::new(BASE);
    for i in 0..512u64 {
        let r = a.allocate(ORDER_0_BLOCK_SIZE, 1);
        assert!(r.is_ok(), "allocation {} failed", i);
    }
    assert_eq!(a.free_bytes(), 0);
    assert_eq!(a.allocate(ORDER_0_BLOCK_SIZE, 1), Err(AllocError::OutOfMemory));
}

#[test]
fn first_allocation_is_deterministic() {
    let mut a = Allocator::new(BASE);
    assert_eq!(a.allocate(1024, 1), Ok(BASE));
    let mut b = Allocator::new(BASE);
    assert_eq!(b.allocate(1024, 1), Ok(BASE));
    let mut c = Allocator::new(0x7000_0000_0000);
    assert_eq!(c.allocate(1024, 1), Ok(0x7000_0000_0000));
}

#[test]
fn left_first_split_addresses() {
    let mut a = Allocator::new(BASE);
    // The first base block comes from offset 0, the second from the
    // buddy the first split produced, the third request of a larger
    // order from the next free block of that order.
    assert_eq!(a.allocate(1024, 1), Ok(BASE));
    assert_eq!(a.allocate(1024, 1), Ok(BASE + 1024));
    assert_eq!(a.allocate(2048, 1), Ok(BASE + 2048));
    assert_eq!(a.allocate(1024, 1), Ok(BASE + 4096));
}

#[test]
fn split_children_partition_the_parent() {
    let mut a = Allocator::new(BASE);
    // The first request splits the root; the two halves are
    // contiguous and exactly partition the arena.
    assert_eq!(a.allocate(ARENA_SIZE / 2, 1), Ok(BASE));
    assert_eq!(a.allocate(ARENA_SIZE / 2, 1), Ok(BASE + (ARENA_SIZE as u64) / 2));
    assert_eq!(a.free_bytes(), 0);
}

#[test]
fn round_trip_returns_same_address() {
    let mut a = Allocator::new(BASE);
    let x = a.allocate(1024, 1).unwrap();
    assert!(a.deallocate(x));
    assert_eq!(a.allocate(1024, 1), Ok(x));
}

#[test]
fn round_trip_with_neighbours_live() {
    let mut a = Allocator::new(BASE);
    let _keep = a.allocate(1024, 1).unwrap();
    let x = a.allocate(4096, 1).unwrap();
    let _keep2 = a.allocate(2048, 1).unwrap();
    assert!(a.deallocate(x));
    assert_eq!(a.allocate(4096, 1), Ok(x));
}

#[test]
fn coalescing_restores_larger_blocks() {
    let mut a = Allocator::new(BASE);
    let x = a.allocate(1024, 1).unwrap();
    assert!(a.deallocate(x));
    // Freeing the single base block merges the split chain all the
    // way back up, so a full-arena request succeeds again.
    assert_eq!(a.allocate(ARENA_SIZE, 1), Ok(BASE));
}

#[test]
fn no_overlap_between_live_allocations() {
    let mut a = Allocator::new(BASE);
    let sizes: [usize; 7] = [1024, 3000, 2048, 8192, 1, 65536, 1024];
    let mut live: Vec<(u64, u64)> = Vec::new();
    for s in sizes {
        let addr = a.allocate(s, 1).unwrap();
        // The allocator hands out the whole block of the rounded-up
        // power-of-two size.
        let mut block: u64 = 1024;
        while (block as usize) < s {
            block *= 2;
        }
        live.push((addr, addr + block));
    }
    for i in 0..live.len() {
        for j in 0..live.len() {
            if i != j {
                let (s1, e1) = live[i];
                let (s2, e2) = live[j];
                assert!(e1 <= s2 || e2 <= s1, "ranges {:?} and {:?} overlap", live[i], live[j]);
            }
        }
    }
}

#[test]
fn deallocate_rejects_foreign_addresses() {
    let mut a = Allocator::new(BASE);
    let x = a.allocate(1024, 1).unwrap();
    // Below the arena, inside a block but not at its base, and past
    // the used block: none of these is a live allocation's base.
    assert!(!a.deallocate(BASE - 1));
    assert!(!a.deallocate(x + 123));
    assert!(!a.deallocate(x + 1024));
    assert_eq!(a.used_bytes(), 1024);
}

#[test]
fn deallocate_rejects_double_free() {
    let mut a = Allocator::new(BASE);
    let x = a.allocate(1024, 1).unwrap();
    assert!(a.deallocate(x));
    assert!(!a.deallocate(x));
}

#[test]
fn interleaved_allocate_and_free() {
    let mut a = Allocator::new(BASE);
    let x = a.allocate(2048, 1).unwrap();
    let y = a.allocate(2048, 1).unwrap();
    assert!(a.deallocate(x));
    let z = a.allocate(1024, 1).unwrap();
    // The freed order-1 block is split for the smaller request:
    // left-first policy reuses its leading bytes.
    assert_eq!(z, x);
    assert!(a.deallocate(y));
    assert!(a.deallocate(z));
    assert_eq!(a.free_bytes(), ARENA_SIZE);
}

#[test]
fn out_of_memory_from_fragmentation_sized_request() {
    let mut a = Allocator::new(BASE);
    // Take the whole arena, then ask again.
    assert_eq!(a.allocate(ARENA_SIZE, 4096), Ok(BASE));
    assert_eq!(a.allocate(1, 1), Err(AllocError::OutOfMemory));
    assert!(a.deallocate(BASE));
    assert_eq!(a.allocate(1, 1), Ok(BASE));
}
