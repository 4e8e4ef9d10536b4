//! Proved properties of the buddy allocator.
//!
//! Each proof function here states a property of the allocator as a
//! whole, over the specification model that the allocator's own
//! contracts use.

use crate::memory::lemmas::{
    lemma_ancestors_split, lemma_arena_block, lemma_block_size_double, lemma_disjoint_ranges,
    lemma_find_exact_props, lemma_find_larger_props, lemma_free_at_finds,
    lemma_free_space_has_block, lemma_free_walk, lemma_fresh_pool, lemma_in_subtree_root,
    lemma_split_chain_undo, lemma_split_down_props, lemma_subtree_sums,
};
use crate::memory::{
    alloc_at_order, block_size, coalesced, find_exact, find_larger, free_at, fresh_pool,
    has_free_block, in_subtree, lemma_inv_well_formed, node, present, split_down, subtree_free,
    subtree_used, wf, wf_at, Allocator, MemoryBlockRegion, MemoryBlockRegionType, Pool,
    ARENA_SIZE, MAX_BLOCK_ORDER, NODE_POOL_SIZE,
};
use vstd::prelude::*;

verus! {

/// Conservation: in every reachable allocator state, the free bytes
/// and the used bytes together are exactly the arena size.
pub proof fn lemma_conservation(a: &Allocator)
    requires
        a.inv(),
    ensures
        subtree_free(a.pool(), 0) + subtree_used(a.pool(), 0) == ARENA_SIZE,
{
    lemma_inv_well_formed(a);
    lemma_subtree_sums(a.pool(), 0);
    lemma_arena_block();
}

/// No overlap: two distinct live allocations occupy disjoint byte
/// ranges of the arena.
pub proof fn lemma_no_overlap(a: &Allocator, i: int, j: int)
    requires
        a.inv(),
        0 <= i < NODE_POOL_SIZE,
        0 <= j < NODE_POOL_SIZE,
        i != j,
        present(a.pool(), i),
        present(a.pool(), j),
        node(a.pool(), i).region_type == MemoryBlockRegionType::Used,
        node(a.pool(), j).region_type == MemoryBlockRegionType::Used,
    ensures
        node(a.pool(), i).base_offset + block_size(node(a.pool(), i).order as nat) <= node(
            a.pool(),
            j,
        ).base_offset || node(a.pool(), j).base_offset + block_size(
            node(a.pool(), j).order as nat,
        ) <= node(a.pool(), i).base_offset,
{
    let s = a.pool();
    lemma_inv_well_formed(a);
    // A used node is a leaf, so neither can sit inside the other's
    // subtree: every proper ancestor of a node is split.
    if in_subtree(i, j) {
        lemma_ancestors_split(s, i, j);
    }
    if in_subtree(j, i) {
        lemma_ancestors_split(s, j, i);
    }
    lemma_disjoint_ranges(s, i, j);
}

/// Split integrity: the two children of any split node are contiguous,
/// disjoint, and exactly partition the parent's byte range.
pub proof fn lemma_split_integrity(a: &Allocator, i: int)
    requires
        a.inv(),
        0 <= i < NODE_POOL_SIZE,
        present(a.pool(), i),
        node(a.pool(), i).region_type == MemoryBlockRegionType::Split,
    ensures
        present(a.pool(), 2 * i + 1),
        present(a.pool(), 2 * i + 2),
        node(a.pool(), 2 * i + 1).order == node(a.pool(), i).order - 1,
        node(a.pool(), 2 * i + 2).order == node(a.pool(), i).order - 1,
        node(a.pool(), 2 * i + 1).base_offset == node(a.pool(), i).base_offset,
        node(a.pool(), 2 * i + 1).base_offset + block_size(node(a.pool(), 2 * i + 1).order as nat)
            == node(a.pool(), 2 * i + 2).base_offset,
        node(a.pool(), 2 * i + 2).base_offset + block_size(node(a.pool(), 2 * i + 2).order as nat)
            == node(a.pool(), i).base_offset + block_size(node(a.pool(), i).order as nat),
{
    lemma_inv_well_formed(a);
    assert(wf_at(a.pool(), i));
    lemma_block_size_double((node(a.pool(), i).order - 1) as nat);
}

/// Round trip: allocating a block of order `k` and then freeing the
/// returned offset restores the pool exactly, so allocating order `k`
/// again hands out the same offset.
pub proof fn lemma_round_trip(s: Pool, k: nat)
    requires
        wf(s),
        coalesced(s),
        alloc_at_order(s, k) is Some,
    ensures
        ({
            let p = alloc_at_order(s, k)->Some_0;
            &&& free_at(p.0, 0, p.1) == Some((s, k))
            &&& alloc_at_order(free_at(p.0, 0, p.1)->Some_0.0, k) == alloc_at_order(s, k)
        }),
{
    match find_exact(s, 0, k) {
        Some(j) => {
            lemma_find_exact_props(s, 0, k);
            let n = node(s, j);
            let s1 = s.update(
                j,
                Some(MemoryBlockRegion { region_type: MemoryBlockRegionType::Used, ..n }),
            );
            let off = n.base_offset as nat;
            assert(free_at(s1, j, off) == Some(
                (
                    s1.update(
                        j,
                        Some(
                            MemoryBlockRegion {
                                region_type: MemoryBlockRegionType::Free,
                                ..node(s1, j)
                            },
                        ),
                    ),
                    k,
                ),
            ));
            assert(s1.update(j, Some(n)) =~= s);
            lemma_in_subtree_root(j);
            lemma_free_walk(s, s1, 0, j, off, k);
        },
        None => {
            let j = find_larger(s, 0, k)->Some_0;
            lemma_find_larger_props(s, 0, k);
            lemma_split_down_props(s, j, k);
            lemma_split_chain_undo(s, j, k);
            let s1 = split_down(s, j, k).0;
            let off = node(s, j).base_offset as nat;
            lemma_in_subtree_root(j);
            lemma_free_walk(s, s1, 0, j, off, k);
        },
    }
}

/// Determinism: on a freshly constructed allocator, the first
/// allocation of any admissible order is served from offset zero of
/// the arena (the left-first split policy).
pub proof fn lemma_first_allocate(k: nat)
    requires
        k <= MAX_BLOCK_ORDER,
    ensures
        alloc_at_order(fresh_pool(), k) is Some,
        alloc_at_order(fresh_pool(), k)->Some_0.1 == 0,
{
    let s = fresh_pool();
    lemma_fresh_pool();
    if k == MAX_BLOCK_ORDER {
        assert(find_exact(s, 0, k) == Some(0int));
    } else {
        assert(find_exact(s, 0, k) is None);
        assert(find_larger(s, 0, k) == Some(0int));
    }
}

/// Best fit: when no free node of the requested order exists, the
/// node chosen for splitting has the smallest order among all free
/// nodes of higher order, so splitting wastes as little contiguity as
/// possible.
pub proof fn lemma_smallest_split_candidate(s: Pool, i: int, k: nat)
    requires
        wf(s),
        0 <= i < NODE_POOL_SIZE,
    ensures
        find_larger(s, i, k) matches Some(j) ==> forall|u: int|
            0 <= u < NODE_POOL_SIZE && in_subtree(u, i) && present(s, u) && (#[trigger] node(
                s,
                u,
            )).region_type == MemoryBlockRegionType::Free && node(s, u).order > k ==> node(
                s,
                j,
            ).order <= node(s, u).order,
    decreases NODE_POOL_SIZE - i,
{
    if find_larger(s, i, k) is Some {
        let j = find_larger(s, i, k)->Some_0;
        lemma_find_larger_props(s, i, k);
        assert(wf_at(s, i));
        let n = node(s, i);
        if n.region_type == MemoryBlockRegionType::Free && n.order > k {
            assert forall|u: int|
                0 <= u < NODE_POOL_SIZE && in_subtree(u, i) && present(s, u) && (#[trigger] node(
                    s,
                    u,
                )).region_type == MemoryBlockRegionType::Free && node(s, u).order > k implies node(
                s,
                j,
            ).order <= node(s, u).order by {
                if u != i {
                    lemma_ancestors_split(s, u, i);
                }
            }
        } else {
            let l = 2 * i + 1;
            let r = 2 * i + 2;
            lemma_smallest_split_candidate(s, l, k);
            lemma_smallest_split_candidate(s, r, k);
            lemma_find_larger_props(s, l, k);
            lemma_find_larger_props(s, r, k);
            assert forall|u: int|
                0 <= u < NODE_POOL_SIZE && in_subtree(u, i) && present(s, u) && (#[trigger] node(
                    s,
                    u,
                )).region_type == MemoryBlockRegionType::Free && node(s, u).order > k implies node(
                s,
                j,
            ).order <= node(s, u).order by {
                crate::memory::lemmas::lemma_in_subtree_step(u, i);
            }
        }
    }
}

/// Exhaustion: a free block for the smallest order exists exactly as
/// long as any free byte remains, so smallest-order requests succeed
/// until the arena is entirely handed out and fail from then on.
pub proof fn lemma_exhaustion(a: &Allocator)
    requires
        a.inv(),
    ensures
        has_free_block(a.pool(), 0) <==> subtree_free(a.pool(), 0) > 0,
{
    let s = a.pool();
    lemma_inv_well_formed(a);
    lemma_free_space_has_block(s, 0);
    if has_free_block(s, 0) {
        let u = choose|u: int|
            0 <= u < NODE_POOL_SIZE && present(s, u) && (#[trigger] node(s, u)).region_type
                == MemoryBlockRegionType::Free && node(s, u).order >= 0;
        lemma_in_subtree_root(u);
    }
    if subtree_free(s, 0) > 0 {
        let u = choose|u: int|
            0 <= u < NODE_POOL_SIZE && in_subtree(u, 0) && present(s, u) && (#[trigger] node(
                s,
                u,
            )).region_type == MemoryBlockRegionType::Free;
        assert(node(s, u).order >= 0);
    }
}

/// An address can be given back exactly when it is the base offset of
/// a live allocation: the walk that resolves an address to its node
/// succeeds for every used node and for nothing else.
pub proof fn lemma_deallocate_resolves(a: &Allocator, off: nat)
    requires
        a.inv(),
    ensures
        free_at(a.pool(), 0, off) is Some <==> (exists|u: int|
            0 <= u < NODE_POOL_SIZE && present(a.pool(), u) && (#[trigger] node(
                a.pool(),
                u,
            )).region_type == MemoryBlockRegionType::Used && node(a.pool(), u).base_offset
                == off),
{
    let s = a.pool();
    lemma_inv_well_formed(a);
    crate::memory::lemmas::lemma_free_at_props(s, 0, off);
    if free_at(s, 0, off) is Some {
        let u = choose|u: int|
            0 <= u < NODE_POOL_SIZE && in_subtree(u, 0) && present(s, u) && (#[trigger] node(
                s,
                u,
            )).region_type == MemoryBlockRegionType::Used && node(s, u).base_offset == off
                && node(s, u).order == free_at(s, 0, off)->Some_0.1;
        assert(present(s, u) && node(s, u).region_type == MemoryBlockRegionType::Used && node(
            s,
            u,
        ).base_offset == off);
    }
    if exists|u: int|
        0 <= u < NODE_POOL_SIZE && present(s, u) && (#[trigger] node(s, u)).region_type
            == MemoryBlockRegionType::Used && node(s, u).base_offset == off {
        let u = choose|u: int|
            0 <= u < NODE_POOL_SIZE && present(s, u) && (#[trigger] node(s, u)).region_type
                == MemoryBlockRegionType::Used && node(s, u).base_offset == off;
        lemma_in_subtree_root(u);
        lemma_free_at_finds(s, 0, u);
    }
}

} // verus!
