//! Buddy block allocator over a fixed arena.
//!
//! The arena is a contiguous byte region of `ARENA_SIZE` bytes, managed
//! as power-of-two blocks: an order-`k` block covers
//! `ORDER_0_BLOCK_SIZE * 2^k` bytes.  Blocks form a binary tree: the
//! root is the whole arena, and a split block is partitioned exactly by
//! its two children of the next lower order.  Bookkeeping lives in a
//! fixed-capacity node pool laid out as a complete binary tree: the
//! node in slot `i` has its children in slots `2*i + 1` and `2*i + 2`,
//! so a slot never moves for the life of the allocator.  Children are
//! materialized only when a split occurs and are released back to the
//! pool (set back to `None`) when a freed block and its buddy coalesce.

use vstd::arithmetic::power2::pow2;
use vstd::prelude::*;

pub mod laws;
pub mod lemmas;

verus! {

/// Number of order-0 blocks in the arena.
pub const ORDER_0_BLOCK_AMOUNT: usize = 512;

/// Size in bytes of an order-0 block.
pub const ORDER_0_BLOCK_SIZE: usize = 1024;

/// Total number of bytes under management.
pub const ARENA_SIZE: usize = ORDER_0_BLOCK_SIZE * ORDER_0_BLOCK_AMOUNT;

/// Largest block order: an order-9 block covers the whole arena.
pub const MAX_BLOCK_ORDER: usize = 9;

/// Largest alignment a request may ask for (hardware page granularity).
pub const MAX_SUPPORTED_ALIGN: usize = 4096;

/// Slots in the node pool: a complete binary tree over 512 leaves.
pub const NODE_POOL_SIZE: usize = 1023;

/// State of one block region in the tree.
#[derive(Copy, Clone, Debug, PartialEq, Eq, Structural)]
pub enum MemoryBlockRegionType {
    /// The block is whole and available.
    Free,
    /// The block is whole and handed out to a caller.
    Used,
    /// The block has been split into its two child blocks.
    Split,
}

/// One node of the buddy tree: a block of `ORDER_0_BLOCK_SIZE * 2^order`
/// bytes starting `base_offset` bytes into the arena.
#[derive(Copy, Clone, Debug, PartialEq, Eq, Structural)]
pub struct MemoryBlockRegion {
    /// Whether the block is free, handed out, or split.
    pub region_type: MemoryBlockRegionType,
    /// Byte offset of the block from the start of the arena.
    pub base_offset: usize,
    /// Power-of-two size class of the block.
    pub order: usize,
}

/// Why an allocation request was refused.
#[derive(Copy, Clone, Debug, PartialEq, Eq, Structural)]
pub enum AllocError {
    /// The requested alignment is not a power of two at most
    /// `MAX_SUPPORTED_ALIGN`.
    UnsupportedAlignment,
    /// The requested size exceeds the whole arena.
    RequestTooLarge,
    /// No free block of sufficient order exists, even after splitting.
    OutOfMemory,
}

/// The node pool as seen by specifications: a sequence of
/// `NODE_POOL_SIZE` slots, each empty or holding a node.
pub type Pool = Seq<Option<MemoryBlockRegion>>;

/// Bytes covered by a block of the given order.
pub open spec fn block_size(o: nat) -> nat {
    (ORDER_0_BLOCK_SIZE * pow2(o)) as nat
}

/// Slot `i` holds a node.
pub open spec fn present(s: Pool, i: int) -> bool {
    s[i] is Some
}

/// The node in slot `i`.
pub open spec fn node(s: Pool, i: int) -> MemoryBlockRegion {
    s[i]->Some_0
}

/// Conditions on one slot of a well-formed pool: geometry fields are
/// within the arena, a split node has both children present with the
/// child geometry exactly partitioning the parent, and an unsplit node
/// has no children.
pub open spec fn wf_at(s: Pool, i: int) -> bool {
    present(s, i) ==> {
        let n = node(s, i);
        &&& n.order <= MAX_BLOCK_ORDER
        &&& n.base_offset + block_size(n.order as nat) <= ARENA_SIZE
        &&& (n.region_type == MemoryBlockRegionType::Split ==> {
            &&& n.order >= 1
            &&& 2 * i + 2 < NODE_POOL_SIZE
            &&& present(s, 2 * i + 1)
            &&& present(s, 2 * i + 2)
            &&& node(s, 2 * i + 1).order == n.order - 1
            &&& node(s, 2 * i + 2).order == n.order - 1
            &&& node(s, 2 * i + 1).base_offset == n.base_offset
            &&& node(s, 2 * i + 2).base_offset == n.base_offset + block_size(
                (n.order - 1) as nat,
            )
        })
        &&& (n.region_type != MemoryBlockRegionType::Split ==> {
            &&& (2 * i + 1 < NODE_POOL_SIZE ==> !present(s, 2 * i + 1))
            &&& (2 * i + 2 < NODE_POOL_SIZE ==> !present(s, 2 * i + 2))
        })
    }
}

/// A present node other than the root hangs off a split parent: the
/// pool holds no orphan nodes.
pub open spec fn parent_linked(s: Pool, i: int) -> bool {
    1 <= i < NODE_POOL_SIZE && present(s, i) ==> present(s, (i - 1) / 2) && node(
        s,
        (i - 1) / 2,
    ).region_type == MemoryBlockRegionType::Split
}

/// Structural invariant of the node pool.
pub open spec fn wf(s: Pool) -> bool {
    &&& s.len() == NODE_POOL_SIZE
    &&& present(s, 0)
    &&& node(s, 0).base_offset == 0
    &&& node(s, 0).order == MAX_BLOCK_ORDER
    &&& forall|i: int| 0 <= i < NODE_POOL_SIZE ==> wf_at(s, i)
    &&& forall|i: int| parent_linked(s, i)
}

/// Both children of the split node in slot `i` are not free together
/// (they would have been merged).
pub open spec fn coalesced_at(s: Pool, i: int) -> bool {
    (0 <= i < NODE_POOL_SIZE && present(s, i) && node(s, i).region_type
        == MemoryBlockRegionType::Split) ==> !(node(s, 2 * i + 1).region_type
        == MemoryBlockRegionType::Free && node(s, 2 * i + 2).region_type
        == MemoryBlockRegionType::Free)
}

/// Coalescing has been carried as far as it can go: no split node has
/// two free children.
pub open spec fn coalesced(s: Pool) -> bool {
    forall|i: int| coalesced_at(s, i)
}

/// Bytes of free blocks in the subtree rooted at slot `i`.
pub open spec fn subtree_free(s: Pool, i: int) -> nat
    decreases NODE_POOL_SIZE - i,
        when 0 <= i < NODE_POOL_SIZE
{
    if present(s, i) {
        let n = node(s, i);
        if n.region_type == MemoryBlockRegionType::Free {
            block_size(n.order as nat)
        } else if n.region_type == MemoryBlockRegionType::Split && 2 * i + 2 < NODE_POOL_SIZE {
            subtree_free(s, 2 * i + 1) + subtree_free(s, 2 * i + 2)
        } else {
            0
        }
    } else {
        0
    }
}

/// Bytes of used blocks in the subtree rooted at slot `i`.
pub open spec fn subtree_used(s: Pool, i: int) -> nat
    decreases NODE_POOL_SIZE - i,
        when 0 <= i < NODE_POOL_SIZE
{
    if present(s, i) {
        let n = node(s, i);
        if n.region_type == MemoryBlockRegionType::Used {
            block_size(n.order as nat)
        } else if n.region_type == MemoryBlockRegionType::Split && 2 * i + 2 < NODE_POOL_SIZE {
            subtree_used(s, 2 * i + 1) + subtree_used(s, 2 * i + 2)
        } else {
            0
        }
    } else {
        0
    }
}

/// Slot `j` lies in the subtree rooted at slot `i` (follows the parent
/// chain from `j` up to `i`).
pub open spec fn in_subtree(j: int, i: int) -> bool
    decreases j,
{
    if j == i {
        true
    } else if j <= 0 || j < i {
        false
    } else {
        in_subtree((j - 1) / 2, i)
    }
}

/// Depth of slot `i` in the complete binary tree (the root has depth 0).
pub open spec fn depth(i: int) -> nat
    decreases i,
{
    if i <= 0 {
        0
    } else {
        1 + depth((i - 1) / 2)
    }
}

/// The pool of a freshly constructed allocator: one free root block
/// covering the whole arena, every other slot empty.
pub open spec fn fresh_pool() -> Pool {
    Seq::new(
        NODE_POOL_SIZE as nat,
        |i: int|
            if i == 0 {
                Some(
                    MemoryBlockRegion {
                        region_type: MemoryBlockRegionType::Free,
                        base_offset: 0,
                        order: MAX_BLOCK_ORDER,
                    },
                )
            } else {
                None
            },
    )
}

/// Depth-first search for a free node of exactly order `k`: the first
/// such node in left-to-right order, if any.
pub open spec fn find_exact(s: Pool, i: int, k: nat) -> Option<int>
    decreases NODE_POOL_SIZE - i,
        when 0 <= i < NODE_POOL_SIZE
{
    if present(s, i) {
        let n = node(s, i);
        if n.region_type == MemoryBlockRegionType::Free && n.order == k {
            Some(i)
        } else if n.region_type == MemoryBlockRegionType::Split && n.order > k && 2 * i + 2
            < NODE_POOL_SIZE {
            match find_exact(s, 2 * i + 1, k) {
                Some(j) => Some(j),
                None => find_exact(s, 2 * i + 2, k),
            }
        } else {
            None
        }
    } else {
        None
    }
}

/// Of two candidate slots, the one whose node has the smaller order;
/// the left argument wins ties.
pub open spec fn better_candidate(s: Pool, a: Option<int>, b: Option<int>) -> Option<int> {
    match (a, b) {
        (Option::None, _) => b,
        (_, Option::None) => a,
        (Option::Some(x), Option::Some(y)) => if node(s, y).order < node(s, x).order {
            b
        } else {
            a
        },
    }
}

/// The free node of smallest order strictly greater than `k`, searching
/// depth first and preferring the leftmost node at that order.
pub open spec fn find_larger(s: Pool, i: int, k: nat) -> Option<int>
    decreases NODE_POOL_SIZE - i,
        when 0 <= i < NODE_POOL_SIZE
{
    if present(s, i) {
        let n = node(s, i);
        if n.region_type == MemoryBlockRegionType::Free && n.order > k {
            Some(i)
        } else if n.region_type == MemoryBlockRegionType::Split && n.order > k + 1 && 2 * i + 2
            < NODE_POOL_SIZE {
            better_candidate(s, find_larger(s, 2 * i + 1, k), find_larger(s, 2 * i + 2, k))
        } else {
            None
        }
    } else {
        None
    }
}

/// Splits the free node in slot `i` down to order `k`, always descending
/// into the left child, and marks the resulting node used.  Returns the
/// new pool and the slot of the used node.
pub open spec fn split_down(s: Pool, i: int, k: nat) -> (Pool, int)
    decreases (if 0 <= i < s.len() && present(s, i) && node(s, i).order > k {
        node(s, i).order - k
    } else {
        0
    }),
{
    if 0 <= i < s.len() && present(s, i) {
        let n = node(s, i);
        if n.order > k && 2 * i + 2 < s.len() {
            let s2 = s.update(
                i,
                Some(MemoryBlockRegion { region_type: MemoryBlockRegionType::Split, ..n }),
            ).update(
                2 * i + 1,
                Some(
                    MemoryBlockRegion {
                        region_type: MemoryBlockRegionType::Free,
                        base_offset: n.base_offset,
                        order: (n.order - 1) as usize,
                    },
                ),
            ).update(
                2 * i + 2,
                Some(
                    MemoryBlockRegion {
                        region_type: MemoryBlockRegionType::Free,
                        base_offset: (n.base_offset + block_size((n.order - 1) as nat)) as usize,
                        order: (n.order - 1) as usize,
                    },
                ),
            );
            split_down(s2, 2 * i + 1, k)
        } else {
            (
                s.update(
                    i,
                    Some(MemoryBlockRegion { region_type: MemoryBlockRegionType::Used, ..n }),
                ),
                i,
            )
        }
    } else {
        (s, i)
    }
}

/// The outcome of one allocation of order `k` on the given pool: the
/// new pool and the byte offset of the block handed out, or `None` when
/// no free block of order at least `k` exists.  A free node of exactly
/// the requested order is preferred; otherwise the smallest free node
/// of higher order is split down, descending left.
pub open spec fn alloc_at_order(s: Pool, k: nat) -> Option<(Pool, nat)> {
    match find_exact(s, 0, k) {
        Some(j) => Some(
            (
                s.update(
                    j,
                    Some(
                        MemoryBlockRegion {
                            region_type: MemoryBlockRegionType::Used,
                            ..node(s, j)
                        },
                    ),
                ),
                node(s, j).base_offset as nat,
            ),
        ),
        None => match find_larger(s, 0, k) {
            Some(j) => Some((split_down(s, j, k).0, node(s, j).base_offset as nat)),
            None => None,
        },
    }
}

/// Frees the used block at byte offset `off` in the subtree rooted at
/// slot `i`, then coalesces: wherever both children of a split node end
/// up free, they are merged back into the parent and their slots are
/// released.  Returns the new pool and the order of the freed block, or
/// `None` when no used block starts at `off`.
pub open spec fn free_at(s: Pool, i: int, off: nat) -> Option<(Pool, nat)>
    decreases NODE_POOL_SIZE - i,
        when 0 <= i < NODE_POOL_SIZE
{
    if present(s, i) {
        let n = node(s, i);
        if n.region_type == MemoryBlockRegionType::Used && n.base_offset == off {
            Some(
                (
                    s.update(
                        i,
                        Some(MemoryBlockRegion { region_type: MemoryBlockRegionType::Free, ..n }),
                    ),
                    n.order as nat,
                ),
            )
        } else if n.region_type == MemoryBlockRegionType::Split && 2 * i + 2 < NODE_POOL_SIZE {
            let c = if off < n.base_offset + block_size((n.order - 1) as nat) {
                2 * i + 1
            } else {
                2 * i + 2
            };
            match free_at(s, c, off) {
                Option::None => None,
                Option::Some((s2, o)) => {
                    if node(s2, 2 * i + 1).region_type == MemoryBlockRegionType::Free && node(
                        s2,
                        2 * i + 2,
                    ).region_type == MemoryBlockRegionType::Free {
                        Some(
                            (
                                s2.update(
                                    i,
                                    Some(
                                        MemoryBlockRegion {
                                            region_type: MemoryBlockRegionType::Free,
                                            ..n
                                        },
                                    ),
                                ).update(2 * i + 1, None).update(2 * i + 2, None),
                                o,
                            ),
                        )
                    } else {
                        Some((s2, o))
                    }
                },
            }
        } else {
            None
        }
    } else {
        None
    }
}

/// A free block of order at least `k` exists somewhere in the pool.
pub open spec fn has_free_block(s: Pool, k: nat) -> bool {
    exists|i: int|
        0 <= i < NODE_POOL_SIZE && present(s, i) && (#[trigger] node(s, i)).region_type
            == MemoryBlockRegionType::Free && node(s, i).order >= k
}

/// The smallest order whose block size is at least `size` bytes:
/// the ceiling of the base-2 logarithm of the number of order-0 blocks
/// the request needs.
pub open spec fn req_order(size: nat) -> nat
    decreases size,
{
    if size <= ORDER_0_BLOCK_SIZE {
        0
    } else {
        1 + req_order((size + 1) / 2)
    }
}

/// The value is a power of two.
pub open spec fn is_power_of_two(n: nat) -> bool
    decreases n,
{
    if n == 0 {
        false
    } else if n == 1 {
        true
    } else {
        n % 2 == 0 && is_power_of_two(n / 2)
    }
}

/// The alignment is acceptable: a power of two no larger than the
/// hardware page granularity.
pub open spec fn valid_align(align: nat) -> bool {
    is_power_of_two(align) && align <= MAX_SUPPORTED_ALIGN
}

/// The buddy allocator: a node pool over a fixed arena, the running
/// count of handed-out bytes, and the virtual base address of the
/// arena it manages.
pub struct Allocator {
    region: Vec<Option<MemoryBlockRegion>>,
    arena_base: u64,
    used: usize,
}

impl Allocator {
    /// The node pool as a specification value.
    pub closed spec fn pool(&self) -> Pool {
        self.region@
    }

    /// The virtual base address of the managed arena.
    pub closed spec fn base(&self) -> u64 {
        self.arena_base
    }

    /// The allocator invariant: a well-formed, fully coalesced tree, a
    /// faithful used-byte count, and an arena that fits the address
    /// space from a page-aligned base.
    pub closed spec fn inv(&self) -> bool {
        &&& wf(self.region@)
        &&& coalesced(self.region@)
        &&& self.used == subtree_used(self.region@, 0)
        &&& self.arena_base + ARENA_SIZE <= u64::MAX
        &&& self.arena_base % 4096 == 0
    }

    /// Builds an allocator owning the arena that starts at the given
    /// page-aligned virtual address: a single free block covering the
    /// whole arena.
    pub fn new(arena_base: u64) -> (a: Allocator)
        requires
            arena_base % 4096 == 0,
            arena_base + ARENA_SIZE <= u64::MAX,
        ensures
            a.inv(),
            a.pool() == fresh_pool(),
            a.base() == arena_base,
            subtree_used(a.pool(), 0) == 0,
            subtree_free(a.pool(), 0) == ARENA_SIZE,
    {
        let mut region: Vec<Option<MemoryBlockRegion>> = Vec::new();
        region.push(
            Some(
                MemoryBlockRegion {
                    region_type: MemoryBlockRegionType::Free,
                    base_offset: 0,
                    order: MAX_BLOCK_ORDER,
                },
            ),
        );
        while region.len() < NODE_POOL_SIZE
            invariant
                1 <= region@.len() <= NODE_POOL_SIZE,
                region@[0] == (Some(
                    MemoryBlockRegion {
                        region_type: MemoryBlockRegionType::Free,
                        base_offset: 0,
                        order: MAX_BLOCK_ORDER,
                    },
                )),
                forall|x: int| 1 <= x < region@.len() ==> region@[x] is None,
            decreases NODE_POOL_SIZE - region@.len(),
        {
            region.push(None);
        }
        proof {
            assert(region@ =~= fresh_pool());
            crate::memory::lemmas::lemma_fresh_pool();
        }
        Allocator { region, arena_base, used: 0 }
    }

    /// Bytes of the arena currently handed out.
    pub fn used_bytes(&self) -> (r: usize)
        requires
            self.inv(),
        ensures
            r == subtree_used(self.pool(), 0),
    {
        self.used
    }

    /// Bytes of the arena currently free.
    pub fn free_bytes(&self) -> (r: usize)
        requires
            self.inv(),
        ensures
            r == subtree_free(self.pool(), 0),
    {
        proof {
            crate::memory::lemmas::lemma_subtree_sums(self.region@, 0);
            crate::memory::lemmas::lemma_arena_block();
        }
        ARENA_SIZE - self.used
    }

    /// The virtual base address of the managed arena.
    pub fn arena_start(&self) -> (r: u64)
        ensures
            r == self.base(),
    {
        self.arena_base
    }

    /// Serves an allocation request of `size` bytes with the given
    /// alignment.  The alignment must be a power of two within the
    /// hardware page granularity, the size must fit some order within
    /// the arena, and a free block of that order must exist or be
    /// producible by splitting; otherwise the corresponding error is
    /// returned and nothing changes.  On success the returned address
    /// is the translated base of the block now marked used: the first
    /// free block of exactly the requested order in depth-first order,
    /// or, when none exists, the leading bytes of the smallest free
    /// block of higher order after splitting it down, descending left.
    pub fn allocate(&mut self, size: usize, align: usize) -> (r: Result<u64, AllocError>)
        requires
            old(self).inv(),
            1 <= size,
        ensures
            final(self).inv(),
            final(self).base() == old(self).base(),
            (r == Err::<u64, AllocError>(AllocError::UnsupportedAlignment) <==> !valid_align(
                align as nat,
            )),
            (r == Err::<u64, AllocError>(AllocError::RequestTooLarge) <==> valid_align(
                align as nat,
            ) && size > ARENA_SIZE),
            (r == Err::<u64, AllocError>(AllocError::OutOfMemory) <==> valid_align(align as nat)
                && size <= ARENA_SIZE && !has_free_block(
                old(self).pool(),
                req_order(size as nat),
            )),
            r is Err ==> final(self).pool() == old(self).pool(),
            (r is Ok <==> valid_align(align as nat) && size <= ARENA_SIZE && has_free_block(
                old(self).pool(),
                req_order(size as nat),
            )),
            r matches Ok(addr) ==> ({
                let p = alloc_at_order(old(self).pool(), req_order(size as nat))->Some_0;
                &&& alloc_at_order(old(self).pool(), req_order(size as nat)) is Some
                &&& final(self).pool() == p.0
                &&& addr == old(self).base() + p.1
                &&& subtree_used(final(self).pool(), 0) == subtree_used(old(self).pool(), 0)
                    + block_size(req_order(size as nat))
            }),
    {
        let ghost s = self.region@;
        if !(align <= MAX_SUPPORTED_ALIGN && is_pow2(align)) {
            return Err(AllocError::UnsupportedAlignment);
        }
        let k = match order_for(size) {
            Some(k) => k,
            None => {
                return Err(AllocError::RequestTooLarge);
            },
        };
        let ghost kn = k as nat;
        match find_exact_at(&self.region, 0, k) {
            Some(j) => {
                proof {
                    crate::memory::lemmas::lemma_find_exact_props(s, 0, kn);
                }
                let n = self.region[j].unwrap();
                let n2 = MemoryBlockRegion { region_type: MemoryBlockRegionType::Used, ..n };
                self.region[j] = Some(n2);
                proof {
                    crate::memory::lemmas::lemma_retype_wf(s, j as int, n2);
                    crate::memory::lemmas::lemma_mark_used_coalesced(s, j as int);
                    crate::memory::lemmas::lemma_in_subtree_root(j as int);
                    assert forall|x: int|
                        0 <= x < NODE_POOL_SIZE && !in_subtree(x, j as int) implies self.region@[x]
                        == s[x] by {}
                    assert(wf_at(s, j as int));
                    crate::memory::lemmas::lemma_sum_delta_lift(s, self.region@, j as int, 0);
                    assert(subtree_used(self.region@, j as int) == block_size(kn));
                    assert(subtree_free(self.region@, j as int) == 0);
                    crate::memory::lemmas::lemma_subtree_sums(self.region@, 0);
                    crate::memory::lemmas::lemma_arena_block();
                }
                let bs = block_size_of(k);
                self.used = self.used + bs;
                Ok(self.arena_base + (n.base_offset as u64))
            },
            None => {
                match find_larger_at(&self.region, 0, k) {
                    Some(j) => {
                        proof {
                            crate::memory::lemmas::lemma_find_larger_props(s, 0, kn);
                            crate::memory::lemmas::lemma_split_down_props(s, j as int, kn);
                            crate::memory::lemmas::lemma_in_subtree_root(j as int);
                            assert(wf_at(s, j as int));
                        }
                        let n = self.region[j].unwrap();
                        let m = split_down_at(&mut self.region, j, k);
                        proof {
                            let s1 = self.region@;
                            assert forall|a: int| coalesced_at(s1, a) by {
                                if 0 <= a < NODE_POOL_SIZE {
                                    if in_subtree(a, j as int) {
                                    } else {
                                        assert(s1[a] == s[a]);
                                        assert(coalesced_at(s, a));
                                        if present(s, a) && node(s, a).region_type
                                            == MemoryBlockRegionType::Split {
                                            assert(wf_at(s, a));
                                            assert(in_subtree(a, a));
                                            if 2 * a + 1 != j as int && in_subtree(
                                                2 * a + 1,
                                                j as int,
                                            ) {
                                                assert(in_subtree(a, j as int));
                                            }
                                            if 2 * a + 2 != j as int && in_subtree(
                                                2 * a + 2,
                                                j as int,
                                            ) {
                                                assert(in_subtree(a, j as int));
                                            }
                                            assert(node(s1, 2 * a + 1).region_type
                                                == MemoryBlockRegionType::Free ==> node(
                                                s,
                                                2 * a + 1,
                                            ).region_type == MemoryBlockRegionType::Free);
                                            assert(node(s1, 2 * a + 2).region_type
                                                == MemoryBlockRegionType::Free ==> node(
                                                s,
                                                2 * a + 2,
                                            ).region_type == MemoryBlockRegionType::Free);
                                        }
                                    }
                                }
                            }
                            crate::memory::lemmas::lemma_sum_delta_lift(s, s1, j as int, 0);
                            crate::memory::lemmas::lemma_subtree_sums(s1, 0);
                            crate::memory::lemmas::lemma_arena_block();
                        }
                        let bs = block_size_of(k);
                        self.used = self.used + bs;
                        Ok(self.arena_base + (n.base_offset as u64))
                    },
                    None => {
                        proof {
                            crate::memory::lemmas::lemma_search_complete(s, kn);
                        }
                        Err(AllocError::OutOfMemory)
                    },
                }
            },
        }
    }

    /// Gives back the block that a successful allocation returned.
    /// The address is resolved to its used node by walking the tree;
    /// the node is marked free and merged with its buddy as far as
    /// possible.  Returns whether the address was the base of a live
    /// allocation; when it was not, nothing changes.
    pub fn deallocate(&mut self, address: u64) -> (r: bool)
        requires
            old(self).inv(),
        ensures
            final(self).inv(),
            final(self).base() == old(self).base(),
            (r <==> old(self).base() <= address && free_at(
                old(self).pool(),
                0,
                (address - old(self).base()) as nat,
            ) is Some),
            r ==> ({
                let p = free_at(old(self).pool(), 0, (address - old(self).base()) as nat)->Some_0;
                &&& final(self).pool() == p.0
                &&& subtree_used(final(self).pool(), 0) + block_size(p.1) == subtree_used(
                    old(self).pool(),
                    0,
                )
            }),
            !r ==> final(self).pool() == old(self).pool(),
    {
        let ghost s = self.region@;
        if address < self.arena_base {
            return false;
        }
        let off64 = address - self.arena_base;
        if off64 >= (ARENA_SIZE as u64) {
            proof {
                crate::memory::lemmas::lemma_free_at_props(s, 0, off64 as nat);
                if free_at(s, 0, off64 as nat) is Some {
                    let u = choose|u: int|
                        0 <= u < NODE_POOL_SIZE && in_subtree(u, 0) && present(s, u) && (
                        #[trigger] node(s, u)).region_type == MemoryBlockRegionType::Used && node(
                            s,
                            u,
                        ).base_offset == off64 as nat && node(s, u).order == free_at(
                            s,
                            0,
                            off64 as nat,
                        )->Some_0.1;
                    assert(wf_at(s, u));
                    crate::memory::lemmas::lemma_block_size_le_arena(node(s, u).order as nat);
                }
            }
            return false;
        }
        let off = off64 as usize;
        proof {
            crate::memory::lemmas::lemma_free_at_props(s, 0, off as nat);
        }
        match free_block_at(&mut self.region, 0, off) {
            Some(o) => {
                proof {
                    let s1 = self.region@;
                    assert forall|a: int| coalesced_at(s1, a) by {
                        if 0 <= a < NODE_POOL_SIZE {
                            crate::memory::lemmas::lemma_in_subtree_root(a);
                        }
                    }
                }
                let bs = block_size_of(o);
                self.used = self.used - bs;
                true
            },
            None => false,
        }
    }
}

/// The allocator invariant makes the node pool well formed and fully
/// coalesced.
pub proof fn lemma_inv_well_formed(a: &Allocator)
    requires
        a.inv(),
    ensures
        wf(a.pool()),
        coalesced(a.pool()),
{
}

/// Exact block size of an order as an executable value.
fn block_size_of(order: usize) -> (r: usize)
    requires
        order <= MAX_BLOCK_ORDER,
    ensures
        r == block_size(order as nat),
{
    let mut r: usize = ORDER_0_BLOCK_SIZE;
    let mut t: usize = 0;
    proof {
        vstd::arithmetic::power2::lemma2_to64();
    }
    while t < order
        invariant
            t <= order <= MAX_BLOCK_ORDER,
            r == block_size(t as nat),
        decreases order - t,
    {
        proof {
            crate::memory::lemmas::lemma_block_size_double(t as nat);
            crate::memory::lemmas::lemma_block_size_le_arena((t + 1) as nat);
        }
        r = r * 2;
        t = t + 1;
    }
    r
}

/// Whether the value is a power of two.
fn is_pow2(n: usize) -> (b: bool)
    ensures
        b == is_power_of_two(n as nat),
{
    if n == 0 {
        return false;
    }
    let mut m: usize = n;
    while m > 1
        invariant
            1 <= m,
            is_power_of_two(n as nat) == is_power_of_two(m as nat),
        decreases m,
    {
        if m % 2 == 1 {
            return false;
        }
        m = m / 2;
    }
    true
}

/// The smallest order whose block holds `size` bytes, or nothing when
/// even the whole arena does not.
fn order_for(size: usize) -> (r: Option<usize>)
    requires
        1 <= size,
    ensures
        r matches Some(k) ==> size <= ARENA_SIZE && k as nat == req_order(size as nat) && k
            <= MAX_BLOCK_ORDER,
        r is None ==> size > ARENA_SIZE,
{
    if size > ARENA_SIZE {
        return None;
    }
    let mut k: usize = 0;
    let mut b: usize = ORDER_0_BLOCK_SIZE;
    proof {
        vstd::arithmetic::power2::lemma2_to64();
    }
    while b < size
        invariant
            1 <= size <= ARENA_SIZE,
            k <= MAX_BLOCK_ORDER,
            b == block_size(k as nat),
            k > 0 ==> block_size((k - 1) as nat) < size,
        decreases MAX_BLOCK_ORDER - k,
    {
        proof {
            crate::memory::lemmas::lemma_arena_block();
            crate::memory::lemmas::lemma_block_size_double(k as nat);
            crate::memory::lemmas::lemma_block_size_le_arena((k + 1) as nat);
            assert(k < MAX_BLOCK_ORDER);
        }
        b = b * 2;
        k = k + 1;
    }
    proof {
        crate::memory::lemmas::lemma_req_order_unique(size as nat, k as nat);
    }
    Some(k)
}

/// Depth-first search for a free node of exactly order `k`.
fn find_exact_at(region: &Vec<Option<MemoryBlockRegion>>, i: usize, k: usize) -> (r: Option<
    usize,
>)
    requires
        region@.len() == NODE_POOL_SIZE,
        i < NODE_POOL_SIZE,
    ensures
        r matches Some(j) ==> j < NODE_POOL_SIZE && find_exact(region@, i as int, k as nat)
            == Some(j as int),
        r is None ==> find_exact(region@, i as int, k as nat) is None,
    decreases NODE_POOL_SIZE - i,
{
    match region[i] {
        None => None,
        Some(n) => {
            if n.region_type == MemoryBlockRegionType::Free && n.order == k {
                Some(i)
            } else if n.region_type == MemoryBlockRegionType::Split && n.order > k && 2 * i + 2
                < NODE_POOL_SIZE {
                match find_exact_at(region, 2 * i + 1, k) {
                    Some(j) => Some(j),
                    None => find_exact_at(region, 2 * i + 2, k),
                }
            } else {
                None
            }
        },
    }
}

/// Depth-first search for the free node of smallest order above `k`,
/// preferring the leftmost at that order.
fn find_larger_at(region: &Vec<Option<MemoryBlockRegion>>, i: usize, k: usize) -> (r: Option<
    usize,
>)
    requires
        wf(region@),
        i < NODE_POOL_SIZE,
        k <= MAX_BLOCK_ORDER,
    ensures
        r matches Some(j) ==> j < NODE_POOL_SIZE && find_larger(region@, i as int, k as nat)
            == Some(j as int),
        r is None ==> find_larger(region@, i as int, k as nat) is None,
    decreases NODE_POOL_SIZE - i,
{
    match region[i] {
        None => None,
        Some(n) => {
            if n.region_type == MemoryBlockRegionType::Free && n.order > k {
                Some(i)
            } else if n.region_type == MemoryBlockRegionType::Split && n.order > k + 1 && 2 * i
                + 2 < NODE_POOL_SIZE {
                let left = find_larger_at(region, 2 * i + 1, k);
                let right = find_larger_at(region, 2 * i + 2, k);
                proof {
                    crate::memory::lemmas::lemma_find_larger_props(region@, 2 * i + 1, k as nat);
                    crate::memory::lemmas::lemma_find_larger_props(region@, 2 * i + 2, k as nat);
                }
                match (left, right) {
                    (None, _) => right,
                    (Some(a), None) => Some(a),
                    (Some(a), Some(bb)) => {
                        let na = region[a].unwrap();
                        let nb = region[bb].unwrap();
                        if nb.order < na.order {
                            Some(bb)
                        } else {
                            Some(a)
                        }
                    },
                }
            } else {
                None
            }
        },
    }
}

/// Splits the free node in slot `i` down to order `k`, descending into
/// the left child, and marks the final node used.  Returns its slot.
fn split_down_at(region: &mut Vec<Option<MemoryBlockRegion>>, i: usize, k: usize) -> (m: usize)
    requires
        wf(old(region)@),
        i < NODE_POOL_SIZE,
        present(old(region)@, i as int),
        node(old(region)@, i as int).region_type == MemoryBlockRegionType::Free,
        k <= node(old(region)@, i as int).order,
    ensures
        final(region)@ == split_down(old(region)@, i as int, k as nat).0,
        m as int == split_down(old(region)@, i as int, k as nat).1,
        m < NODE_POOL_SIZE,
    decreases node(old(region)@, i as int).order - k,
{
    let ghost s = region@;
    let n = region[i].unwrap();
    proof {
        assert(wf_at(s, i as int));
    }
    if n.order > k {
        proof {
            crate::memory::lemmas::lemma_children_in_bounds(s, i as int);
            crate::memory::lemmas::lemma_block_size_double((n.order - 1) as nat);
        }
        let half = block_size_of(n.order - 1);
        region[i] = Some(MemoryBlockRegion { region_type: MemoryBlockRegionType::Split, ..n });
        region[2 * i + 1] = Some(
            MemoryBlockRegion {
                region_type: MemoryBlockRegionType::Free,
                base_offset: n.base_offset,
                order: n.order - 1,
            },
        );
        region[2 * i + 2] = Some(
            MemoryBlockRegion {
                region_type: MemoryBlockRegionType::Free,
                base_offset: n.base_offset + half,
                order: n.order - 1,
            },
        );
        proof {
            assert(region@ == crate::memory::lemmas::split_step(s, i as int));
            crate::memory::lemmas::lemma_split_step_wf(s, i as int);
            assert(split_down(s, i as int, k as nat) == split_down(
                region@,
                2 * i + 1,
                k as nat,
            ));
        }
        split_down_at(region, 2 * i + 1, k)
    } else {
        region[i] = Some(MemoryBlockRegion { region_type: MemoryBlockRegionType::Used, ..n });
        i
    }
}

/// Frees the used block at byte offset `off` in the subtree rooted at
/// slot `i` and coalesces buddies upward.  Returns the freed block's
/// order, or nothing when no used block starts at `off`.
fn free_block_at(region: &mut Vec<Option<MemoryBlockRegion>>, i: usize, off: usize) -> (r: Option<
    usize,
>)
    requires
        wf(old(region)@),
        coalesced(old(region)@),
        i < NODE_POOL_SIZE,
        present(old(region)@, i as int),
    ensures
        r matches Some(o) ==> ({
            let p = free_at(old(region)@, i as int, off as nat)->Some_0;
            &&& free_at(old(region)@, i as int, off as nat) is Some
            &&& final(region)@ == p.0
            &&& o as nat == p.1
            &&& o <= MAX_BLOCK_ORDER
        }),
        r is None ==> free_at(old(region)@, i as int, off as nat) is None && final(region)@
            == old(region)@,
    decreases NODE_POOL_SIZE - i,
{
    let ghost s = region@;
    let n = region[i].unwrap();
    proof {
        assert(wf_at(s, i as int));
    }
    if n.region_type == MemoryBlockRegionType::Used {
        if n.base_offset == off {
            region[i] = Some(MemoryBlockRegion { region_type: MemoryBlockRegionType::Free, ..n });
            Some(n.order)
        } else {
            None
        }
    } else if n.region_type == MemoryBlockRegionType::Split {
        proof {
            crate::memory::lemmas::lemma_block_size_double((n.order - 1) as nat);
        }
        let half = block_size_of(n.order - 1);
        let c = if off < n.base_offset + half {
            2 * i + 1
        } else {
            2 * i + 2
        };
        proof {
            crate::memory::lemmas::lemma_free_at_props(s, c as int, off as nat);
        }
        match free_block_at(region, c, off) {
            None => None,
            Some(o) => {
                proof {
                    let ci = c as int;
                    let di: int = if ci == 2 * i + 1 {
                        2 * i + 2
                    } else {
                        2 * i + 1
                    };
                    // The walked child is still present; its untouched
                    // sibling keeps its old node.
                    if in_subtree(di, ci) {
                        if ci == 2 * i + 1 {
                            assert(in_subtree(di, di));
                            crate::memory::lemmas::lemma_subtrees_disjoint(di, i as int);
                        } else {
                            assert(in_subtree(di, di));
                            crate::memory::lemmas::lemma_subtrees_disjoint(di, i as int);
                        }
                    }
                    assert(region@[di] == s[di]);
                    assert(present(region@, ci));
                    assert(present(region@, di));
                }
                let lf = match region[2 * i + 1] {
                    Some(x) => x.region_type == MemoryBlockRegionType::Free,
                    None => false,
                };
                let rf = match region[2 * i + 2] {
                    Some(x) => x.region_type == MemoryBlockRegionType::Free,
                    None => false,
                };
                if lf && rf {
                    region[i] = Some(
                        MemoryBlockRegion { region_type: MemoryBlockRegionType::Free, ..n },
                    );
                    region[2 * i + 1] = None;
                    region[2 * i + 2] = None;
                }
                Some(o)
            },
        }
    } else {
        None
    }
}

} // verus!
