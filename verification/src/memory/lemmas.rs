//! Supporting lemmas about the buddy-tree model.

use crate::memory::{
    block_size, coalesced, coalesced_at, depth, free_at, in_subtree, node, parent_linked,
    find_exact, find_larger, fresh_pool, has_free_block, present, req_order, split_down,
    subtree_free, subtree_used, wf, wf_at, MemoryBlockRegion,
    MemoryBlockRegionType, Pool, ARENA_SIZE, MAX_BLOCK_ORDER, NODE_POOL_SIZE, ORDER_0_BLOCK_SIZE,
};
use vstd::arithmetic::power2::{lemma2_to64, lemma_pow2_adds, lemma_pow2_pos, pow2};
use vstd::prelude::*;

verus! {

/// Two blocks of one order cover exactly a block of the next order.
pub proof fn lemma_block_size_double(o: nat)
    ensures
        block_size(o) + block_size(o) == block_size(o + 1),
        block_size(o) >= ORDER_0_BLOCK_SIZE,
{
    lemma_pow2_adds(o, 1);
    lemma2_to64();
    lemma_pow2_pos(o);
}

/// Block sizes do not shrink as the order grows, and an order within
/// bounds covers at most the arena.
pub proof fn lemma_block_size_le_arena(o: nat)
    requires
        o <= MAX_BLOCK_ORDER,
    ensures
        block_size(o) <= ARENA_SIZE,
        block_size(o) >= ORDER_0_BLOCK_SIZE,
    decreases MAX_BLOCK_ORDER - o,
{
    lemma_pow2_pos(o);
    if o < MAX_BLOCK_ORDER {
        lemma_block_size_double(o);
        lemma_block_size_le_arena(o + 1);
    } else {
        lemma2_to64();
    }
}

/// A slot inside a subtree never has a smaller index than the
/// subtree's root.
pub proof fn lemma_in_subtree_ge(j: int, i: int)
    requires
        in_subtree(j, i),
    ensures
        j >= i,
    decreases j,
{
    if j != i {
        lemma_in_subtree_ge((j - 1) / 2, i);
    }
}

/// Subtree membership is transitive.
pub proof fn lemma_in_subtree_trans(x: int, y: int, z: int)
    requires
        in_subtree(x, y),
        in_subtree(y, z),
    ensures
        in_subtree(x, z),
    decreases x,
{
    if x != y {
        lemma_in_subtree_ge(y, z);
        lemma_in_subtree_trans((x - 1) / 2, y, z);
        lemma_in_subtree_ge((x - 1) / 2, z);
    }
}

/// The children of slot `i` sit one level deeper than `i`.
pub proof fn lemma_depth_children(i: int)
    requires
        i >= 0,
    ensures
        depth(2 * i + 1) == depth(i) + 1,
        depth(2 * i + 2) == depth(i) + 1,
{
    assert((2 * i + 1 - 1) / 2 == i);
    assert((2 * i + 2 - 1) / 2 == i);
}

/// A slot in a subtree lies at least as deep as the subtree's root.
pub proof fn lemma_in_subtree_depth(j: int, i: int)
    requires
        i >= 0,
        in_subtree(j, i),
    ensures
        depth(j) >= depth(i),
        depth(j) == depth(i) ==> j == i,
    decreases j,
{
    if j != i {
        lemma_in_subtree_ge(j, i);
        lemma_in_subtree_depth((j - 1) / 2, i);
    }
}

/// A slot in a proper subtree lies in the subtree of one of the two
/// children of the root.
pub proof fn lemma_in_subtree_step(j: int, i: int)
    requires
        i >= 0,
        j != i,
        in_subtree(j, i),
    ensures
        in_subtree(j, 2 * i + 1) || in_subtree(j, 2 * i + 2),
    decreases j,
{
    lemma_in_subtree_ge(j, i);
    let p = (j - 1) / 2;
    if p == i {
        assert(j == 2 * i + 1 || j == 2 * i + 2);
    } else {
        lemma_in_subtree_step(p, i);
    }
}

/// Two subtree roots at one depth that share a member are the same
/// slot.
pub proof fn lemma_in_subtree_same_depth(x: int, i: int, j: int)
    requires
        i >= 0,
        j >= 0,
        in_subtree(x, i),
        in_subtree(x, j),
        depth(i) == depth(j),
    ensures
        i == j,
    decreases x,
{
    if x == i {
        lemma_in_subtree_depth(x, j);
    } else if x == j {
        lemma_in_subtree_depth(x, i);
    } else {
        lemma_in_subtree_same_depth((x - 1) / 2, i, j);
    }
}

/// The subtrees of the two children of a slot have no common member.
pub proof fn lemma_subtrees_disjoint(x: int, i: int)
    requires
        i >= 0,
        in_subtree(x, 2 * i + 1),
    ensures
        !in_subtree(x, 2 * i + 2),
{
    if in_subtree(x, 2 * i + 2) {
        lemma_depth_children(i);
        lemma_in_subtree_same_depth(x, 2 * i + 1, 2 * i + 2);
    }
}

/// Every slot lies in the subtree of the root slot.
pub proof fn lemma_in_subtree_root(j: int)
    requires
        j >= 0,
    ensures
        in_subtree(j, 0),
    decreases j,
{
    if j != 0 {
        lemma_in_subtree_root((j - 1) / 2);
    }
}

/// In a well-formed pool, every slot on the parent chain of a present
/// node is itself present, and every proper ancestor is split.
pub proof fn lemma_ancestors_split(s: Pool, j: int, i: int)
    requires
        wf(s),
        0 <= i,
        0 <= j < NODE_POOL_SIZE,
        present(s, j),
        in_subtree(j, i),
    ensures
        present(s, i),
        j != i ==> node(s, i).region_type == MemoryBlockRegionType::Split,
    decreases j,
{
    if j != i {
        lemma_in_subtree_ge(j, i);
        let p = (j - 1) / 2;
        assert(parent_linked(s, j));
        lemma_ancestors_split(s, p, i);
    }
}

/// In a well-formed pool, a present node's order is determined by its
/// depth, and its slot index lies in the index range of that depth.
pub proof fn lemma_order_depth(s: Pool, j: int)
    requires
        wf(s),
        0 <= j < NODE_POOL_SIZE,
        present(s, j),
    ensures
        node(s, j).order + depth(j) == MAX_BLOCK_ORDER,
        pow2(depth(j)) <= j + 1 < pow2(depth(j) + 1),
    decreases j,
{
    lemma2_to64();
    if j == 0 {
    } else {
        let p = (j - 1) / 2;
        assert(parent_linked(s, j));
        lemma_order_depth(s, p);
        assert(wf_at(s, p));
        assert(j == 2 * p + 1 || j == 2 * p + 2);
        lemma_depth_children(p);
        let d = depth(p);
        lemma_pow2_adds(d, 1);
        lemma_pow2_adds(d + 1, 1);
        assert(node(s, j).order == node(s, p).order - 1);
    }
}

/// In a well-formed pool, a present node that can still be split has
/// both child slots inside the pool.
pub proof fn lemma_children_in_bounds(s: Pool, j: int)
    requires
        wf(s),
        0 <= j < NODE_POOL_SIZE,
        present(s, j),
        node(s, j).order >= 1,
    ensures
        2 * j + 2 < NODE_POOL_SIZE,
{
    lemma_order_depth(s, j);
    let d = depth(j);
    assert(d + 1 <= MAX_BLOCK_ORDER);
    lemma_pow2_le(d + 1, MAX_BLOCK_ORDER as nat);
    lemma2_to64();
}

/// Powers of two are monotonic.
pub proof fn lemma_pow2_le(a: nat, b: nat)
    requires
        a <= b,
    ensures
        pow2(a) <= pow2(b),
{
    if a < b {
        vstd::arithmetic::power2::lemma_pow2_strictly_increases(a, b);
    }
}

/// In a well-formed pool, free and used bytes of a subtree together
/// account for exactly the subtree root's block.
pub proof fn lemma_subtree_sums(s: Pool, i: int)
    requires
        wf(s),
        0 <= i < NODE_POOL_SIZE,
        present(s, i),
    ensures
        subtree_free(s, i) + subtree_used(s, i) == block_size(node(s, i).order as nat),
    decreases NODE_POOL_SIZE - i,
{
    assert(wf_at(s, i));
    let n = node(s, i);
    if n.region_type == MemoryBlockRegionType::Split {
        lemma_subtree_sums(s, 2 * i + 1);
        lemma_subtree_sums(s, 2 * i + 2);
        lemma_block_size_double((n.order - 1) as nat);
    }
}

/// Subtree sums depend only on the slots inside the subtree.
pub proof fn lemma_sum_frame(s1: Pool, s2: Pool, i: int)
    requires
        s1.len() == NODE_POOL_SIZE,
        s2.len() == NODE_POOL_SIZE,
        0 <= i < NODE_POOL_SIZE,
        forall|j: int| 0 <= j < NODE_POOL_SIZE && in_subtree(j, i) ==> s1[j] == s2[j],
    ensures
        subtree_free(s1, i) == subtree_free(s2, i),
        subtree_used(s1, i) == subtree_used(s2, i),
    decreases NODE_POOL_SIZE - i,
{
    assert(in_subtree(i, i));
    assert(s1[i] == s2[i]);
    if present(s1, i) {
        let n = node(s1, i);
        if n.region_type == MemoryBlockRegionType::Split && 2 * i + 2 < NODE_POOL_SIZE {
            assert forall|j: int| 0 <= j < NODE_POOL_SIZE && in_subtree(j, 2 * i + 1) implies s1[j]
                == s2[j] by {
                assert(in_subtree(2 * i + 1, i));
                lemma_in_subtree_trans(j, 2 * i + 1, i);
            }
            assert forall|j: int| 0 <= j < NODE_POOL_SIZE && in_subtree(j, 2 * i + 2) implies s1[j]
                == s2[j] by {
                assert(in_subtree(2 * i + 2, i));
                lemma_in_subtree_trans(j, 2 * i + 2, i);
            }
            lemma_sum_frame(s1, s2, 2 * i + 1);
            lemma_sum_frame(s1, s2, 2 * i + 2);
        }
    }
}

/// If two pools differ only inside the subtree of slot `i`, the change
/// in any enclosing subtree's sums is the change at slot `i`'s subtree.
pub proof fn lemma_sum_delta_lift(s1: Pool, s2: Pool, i: int, a: int)
    requires
        wf(s1),
        s2.len() == NODE_POOL_SIZE,
        0 <= a,
        0 <= i < NODE_POOL_SIZE,
        present(s1, i),
        in_subtree(i, a),
        forall|j: int| 0 <= j < NODE_POOL_SIZE && !in_subtree(j, i) ==> s1[j] == s2[j],
    ensures
        subtree_free(s2, a) - subtree_free(s1, a) == subtree_free(s2, i) - subtree_free(s1, i),
        subtree_used(s2, a) - subtree_used(s1, a) == subtree_used(s2, i) - subtree_used(s1, i),
    decreases depth(i) - depth(a),
{
    lemma_in_subtree_ge(i, a);
    if a != i {
        lemma_in_subtree_depth(i, a);
        lemma_ancestors_split(s1, i, a);
        assert(wf_at(s1, a));
        lemma_in_subtree_step(i, a);
        lemma_depth_children(a);
        // `a` is outside the subtree of `i`, so it is unchanged.
        if in_subtree(a, i) {
            lemma_in_subtree_ge(a, i);
        }
        assert(s2[a] == s1[a]);
        let l = 2 * a + 1;
        let r = 2 * a + 2;
        if in_subtree(i, l) {
            lemma_sum_delta_lift(s1, s2, i, l);
            assert forall|j: int| 0 <= j < NODE_POOL_SIZE && in_subtree(j, r) implies s1[j]
                == s2[j] by {
                if in_subtree(j, i) {
                    lemma_in_subtree_trans(j, i, l);
                    lemma_subtrees_disjoint(j, a);
                }
            }
            lemma_sum_frame(s1, s2, r);
        } else {
            assert(in_subtree(i, r));
            lemma_sum_delta_lift(s1, s2, i, r);
            assert forall|j: int| 0 <= j < NODE_POOL_SIZE && in_subtree(j, l) implies s1[j]
                == s2[j] by {
                if in_subtree(j, i) {
                    lemma_in_subtree_trans(j, i, r);
                    lemma_subtrees_disjoint(j, a);
                }
            }
            lemma_sum_frame(s1, s2, l);
        }
    }
}

/// Changing the state of an unsplit node (between free and used) keeps
/// the pool well formed.
pub proof fn lemma_retype_wf(s: Pool, j: int, n2: MemoryBlockRegion)
    requires
        wf(s),
        0 <= j < NODE_POOL_SIZE,
        present(s, j),
        node(s, j).region_type != MemoryBlockRegionType::Split,
        n2.region_type != MemoryBlockRegionType::Split,
        n2.base_offset == node(s, j).base_offset,
        n2.order == node(s, j).order,
    ensures
        wf(s.update(j, Some(n2))),
{
    let s2 = s.update(j, Some(n2));
    assert forall|i: int| 0 <= i < NODE_POOL_SIZE implies wf_at(s2, i) by {
        assert(wf_at(s, i));
        assert(wf_at(s, j));
        if i != j && present(s, i) && node(s, i).region_type == MemoryBlockRegionType::Split {
            // A child slot of `i` may be `j` itself, but `j` keeps its
            // presence and geometry.
            assert(present(s2, 2 * i + 1) == present(s, 2 * i + 1));
            assert(present(s2, 2 * i + 2) == present(s, 2 * i + 2));
            assert(node(s2, 2 * i + 1).base_offset == node(s, 2 * i + 1).base_offset);
            assert(node(s2, 2 * i + 2).base_offset == node(s, 2 * i + 2).base_offset);
            assert(node(s2, 2 * i + 1).order == node(s, 2 * i + 1).order);
            assert(node(s2, 2 * i + 2).order == node(s, 2 * i + 2).order);
        }
    }
    assert forall|x: int| parent_linked(s2, x) by {
        assert(parent_linked(s, x));
        if 1 <= x < NODE_POOL_SIZE && present(s2, x) {
            let p = (x - 1) / 2;
            assert(p != j);
        }
    }
}

/// Marking a free unsplit node used keeps coalescing maximal.
pub proof fn lemma_mark_used_coalesced(s: Pool, j: int)
    requires
        wf(s),
        coalesced(s),
        0 <= j < NODE_POOL_SIZE,
        present(s, j),
        node(s, j).region_type == MemoryBlockRegionType::Free,
    ensures
        coalesced(
            s.update(
                j,
                Some(
                    MemoryBlockRegion {
                        region_type: MemoryBlockRegionType::Used,
                        ..node(s, j)
                    },
                ),
            ),
        ),
{
    let s2 = s.update(
        j,
        Some(MemoryBlockRegion { region_type: MemoryBlockRegionType::Used, ..node(s, j) }),
    );
    assert forall|i: int| coalesced_at(s2, i) by {
        assert(coalesced_at(s, i));
        if 0 <= i < NODE_POOL_SIZE && present(s2, i) && node(s2, i).region_type
            == MemoryBlockRegionType::Split {
            assert(i != j);
            assert(wf_at(s, i));
            assert(2 * i + 2 < NODE_POOL_SIZE);
            assert(2 * i + 1 == j ==> node(s2, 2 * i + 1).region_type
                == MemoryBlockRegionType::Used);
            assert(2 * i + 2 == j ==> node(s2, 2 * i + 2).region_type
                == MemoryBlockRegionType::Used);
        }
    }
}

/// One split step: turning a free node of positive order into a split
/// node with two fresh free children keeps the pool well formed.
pub proof fn lemma_split_step_wf(s: Pool, i: int)
    requires
        wf(s),
        0 <= i < NODE_POOL_SIZE,
        present(s, i),
        node(s, i).region_type == MemoryBlockRegionType::Free,
        node(s, i).order >= 1,
        2 * i + 2 < NODE_POOL_SIZE,
    ensures
        wf(split_step(s, i)),
{
    let n = node(s, i);
    let s2 = split_step(s, i);
    let half = block_size((n.order - 1) as nat);
    lemma_block_size_double((n.order - 1) as nat);
    assert(wf_at(s, i));
    // The free node's child slots held nothing before the split.
    assert(!present(s, 2 * i + 1));
    assert(!present(s, 2 * i + 2));
    assert forall|x: int|
        0 <= x < NODE_POOL_SIZE && x != i && x != 2 * i + 1 && x != 2 * i + 2 implies s2[x]
        == s[x] by {}
    assert forall|x: int| 0 <= x < NODE_POOL_SIZE implies wf_at(s2, x) by {
        if x == i {
            assert(node(s2, i).region_type == MemoryBlockRegionType::Split);
            assert(present(s2, 2 * i + 1) && present(s2, 2 * i + 2));
        } else if x == 2 * i + 1 || x == 2 * i + 2 {
            // The fresh children are unsplit; their own child slots held
            // nothing before, since their parents held nothing, and they
            // still hold nothing.
            assert(node(s2, x).region_type == MemoryBlockRegionType::Free);
            if 2 * x + 1 < NODE_POOL_SIZE && present(s, 2 * x + 1) {
                assert(parent_linked(s, 2 * x + 1));
            }
            if 2 * x + 2 < NODE_POOL_SIZE && present(s, 2 * x + 2) {
                assert(parent_linked(s, 2 * x + 2));
            }
            assert(2 * x + 1 < NODE_POOL_SIZE ==> !present(s2, 2 * x + 1));
            assert(2 * x + 2 < NODE_POOL_SIZE ==> !present(s2, 2 * x + 2));
        } else {
            assert(wf_at(s, x));
            if present(s, x) {
                // The children of `x` may include `i`, whose presence and
                // geometry are unchanged; they cannot be the fresh child
                // slots, whose parent is `i`.
                if 2 * x + 2 < NODE_POOL_SIZE {
                    assert(present(s2, 2 * x + 1) == present(s, 2 * x + 1));
                    assert(present(s2, 2 * x + 2) == present(s, 2 * x + 2));
                    assert(present(s, 2 * x + 1) ==> node(s2, 2 * x + 1).base_offset == node(
                        s,
                        2 * x + 1,
                    ).base_offset && node(s2, 2 * x + 1).order == node(s, 2 * x + 1).order);
                    assert(present(s, 2 * x + 2) ==> node(s2, 2 * x + 2).base_offset == node(
                        s,
                        2 * x + 2,
                    ).base_offset && node(s2, 2 * x + 2).order == node(s, 2 * x + 2).order);
                } else if 2 * x + 1 < NODE_POOL_SIZE {
                    assert(present(s2, 2 * x + 1) == present(s, 2 * x + 1));
                }
            }
        }
    }
    assert forall|x: int| parent_linked(s2, x) by {
        let p = (x - 1) / 2;
        if x == 2 * i + 1 || x == 2 * i + 2 {
            assert(p == i);
            assert(node(s2, i).region_type == MemoryBlockRegionType::Split);
        } else if 1 <= x < NODE_POOL_SIZE && present(s2, x) {
            assert(present(s, x));
            assert(parent_linked(s, x));
            assert(p != 2 * i + 1 && p != 2 * i + 2);
        }
    }
}

/// The pool after one split step at slot `i`.
pub open spec fn split_step(s: Pool, i: int) -> Pool {
    let n = node(s, i);
    s.update(i, Some(MemoryBlockRegion { region_type: MemoryBlockRegionType::Split, ..n })).update(
        2 * i + 1,
        Some(
            MemoryBlockRegion {
                region_type: MemoryBlockRegionType::Free,
                base_offset: n.base_offset,
                order: (n.order - 1) as usize,
            },
        ),
    ).update(
        2 * i + 2,
        Some(
            MemoryBlockRegion {
                region_type: MemoryBlockRegionType::Free,
                base_offset: (n.base_offset + block_size((n.order - 1) as nat)) as usize,
                order: (n.order - 1) as usize,
            },
        ),
    )
}

/// In a well-formed pool, the byte range of a node in a subtree lies
/// within the byte range of the subtree's root.
pub proof fn lemma_range_containment(s: Pool, j: int, i: int)
    requires
        wf(s),
        0 <= i,
        0 <= j < NODE_POOL_SIZE,
        present(s, j),
        in_subtree(j, i),
    ensures
        node(s, i).base_offset <= node(s, j).base_offset,
        node(s, j).base_offset + block_size(node(s, j).order as nat) <= node(s, i).base_offset
            + block_size(node(s, i).order as nat),
    decreases j,
{
    if j != i {
        lemma_in_subtree_ge(j, i);
        let p = (j - 1) / 2;
        assert(parent_linked(s, j));
        assert(wf_at(s, p));
        assert(j == 2 * p + 1 || j == 2 * p + 2);
        lemma_block_size_double((node(s, p).order - 1) as nat);
        lemma_range_containment(s, p, i);
    }
}

/// What splitting a free node down to order `k` does: the result is a
/// well-formed pool, changed only inside the split node's subtree,
/// holding one fresh used node of order `k` at the split node's own
/// base offset, with every other byte of the split node still free and
/// no mergeable pair left behind.
pub proof fn lemma_split_down_props(s: Pool, i: int, k: nat)
    requires
        wf(s),
        0 <= i < NODE_POOL_SIZE,
        present(s, i),
        node(s, i).region_type == MemoryBlockRegionType::Free,
        k <= node(s, i).order,
    ensures
        ({
            let (s1, m) = split_down(s, i, k);
            &&& s1.len() == NODE_POOL_SIZE
            &&& forall|j: int| 0 <= j < NODE_POOL_SIZE && !in_subtree(j, i) ==> s1[j] == s[j]
            &&& wf(s1)
            &&& 0 <= m < NODE_POOL_SIZE
            &&& in_subtree(m, i)
            &&& present(s1, m)
            &&& node(s1, m) == (MemoryBlockRegion {
                region_type: MemoryBlockRegionType::Used,
                base_offset: node(s, i).base_offset,
                order: k as usize,
            })
            &&& present(s1, i)
            &&& node(s1, i).base_offset == node(s, i).base_offset
            &&& node(s1, i).order == node(s, i).order
            &&& (node(s, i).order > k ==> node(s1, i).region_type
                == MemoryBlockRegionType::Split)
            &&& (node(s, i).order == k ==> node(s1, i).region_type
                == MemoryBlockRegionType::Used)
            &&& subtree_free(s1, i) + block_size(k) == block_size(node(s, i).order as nat)
            &&& subtree_used(s1, i) == block_size(k)
            &&& forall|a: int|
                0 <= a < NODE_POOL_SIZE && in_subtree(a, i) ==> coalesced_at(s1, a)
        }),
    decreases node(s, i).order - k,
{
    let n = node(s, i);
    assert(wf_at(s, i));
    if n.order == k {
        let n2 = MemoryBlockRegion { region_type: MemoryBlockRegionType::Used, ..n };
        let s1 = s.update(i, Some(n2));
        let m = i;
        assert(split_down(s, i, k) == (s1, m));
        lemma_retype_wf(s, i, n2);
        assert(in_subtree(i, i));
        assert forall|a: int|
            0 <= a < NODE_POOL_SIZE && in_subtree(a, i) implies coalesced_at(s1, a) by {
            if a != i && present(s1, a) {
                assert(present(s, a));
                lemma_ancestors_split(s, a, i);
            }
        }
    } else {
        lemma_children_in_bounds(s, i);
        let l = 2 * i + 1;
        let r = 2 * i + 2;
        let s2 = crate::memory::lemmas::split_step(s, i);
        assert(split_down(s, i, k) == split_down(s2, l, k));
        lemma_split_step_wf(s, i);
        assert(present(s2, l) && node(s2, l).region_type == MemoryBlockRegionType::Free);
        assert(node(s2, l).order == n.order - 1);
        assert(node(s2, l).base_offset == n.base_offset);
        lemma_split_down_props(s2, l, k);
        let (s1, m) = split_down(s2, l, k);
        assert(in_subtree(i, i));
        assert(in_subtree(l, i));
        assert(in_subtree(r, i));
        // Slots outside the subtree of `i` are untouched.
        assert forall|j: int|
            0 <= j < NODE_POOL_SIZE && !in_subtree(j, i) implies s1[j] == s[j] by {
            if in_subtree(j, l) {
                lemma_in_subtree_trans(j, l, i);
            }
            assert(s1[j] == s2[j]);
            assert(j != i && j != l && j != r);
        }
        lemma_in_subtree_trans(m, l, i);
        // `i` and the right child are outside the left subtree.
        if in_subtree(i, l) {
            lemma_in_subtree_ge(i, l);
        }
        if in_subtree(r, l) {
            lemma_subtrees_disjoint(r, i);
            assert(in_subtree(r, r));
        }
        assert(s1[i] == s2[i]);
        assert(node(s1, i).region_type == MemoryBlockRegionType::Split);
        // The right child's subtree is untouched by the recursive split.
        assert forall|j: int|
            0 <= j < NODE_POOL_SIZE && in_subtree(j, r) implies s1[j] == s2[j] by {
            if in_subtree(j, l) {
                lemma_subtrees_disjoint(j, i);
            }
        }
        lemma_sum_frame(s1, s2, r);
        assert(subtree_free(s2, r) == block_size((n.order - 1) as nat));
        assert(subtree_used(s2, r) == 0);
        lemma_block_size_double((n.order - 1) as nat);
        assert(subtree_free(s1, i) == subtree_free(s1, l) + subtree_free(s1, r));
        assert(subtree_used(s1, i) == subtree_used(s1, l) + subtree_used(s1, r));
        // No mergeable pair is left anywhere in the subtree.
        assert forall|a: int|
            0 <= a < NODE_POOL_SIZE && in_subtree(a, i) implies coalesced_at(s1, a) by {
            if a == i {
                assert(node(s1, l).region_type != MemoryBlockRegionType::Free);
            } else if in_subtree(a, l) {
            } else {
                lemma_in_subtree_step(a, i);
                assert(in_subtree(a, r));
                assert(s1[a] == s2[a]);
                if present(s2, a) && node(s2, a).region_type == MemoryBlockRegionType::Split {
                    lemma_ancestors_split(s2, a, r);
                    assert(a != r);
                    assert(wf_at(s2, a));
                    assert(present(s1, 2 * a + 1) == present(s2, 2 * a + 1));
                    assert(s1[2 * a + 1] == s2[2 * a + 1]);
                    assert(s1[2 * a + 2] == s2[2 * a + 2]);
                }
            }
        }
    }
}

/// What freeing the used block at byte offset `off` does: the result
/// is a well-formed pool, changed only inside the subtree that was
/// walked, in which the used node at `off` (which exists) has been
/// given back and merged with its buddy as far as possible, moving its
/// bytes from used to free.
#[verifier::rlimit(60)]
#[verifier::spinoff_prover]
pub proof fn lemma_free_at_props(s: Pool, i: int, off: nat)
    requires
        wf(s),
        coalesced(s),
        0 <= i < NODE_POOL_SIZE,
        present(s, i),
    ensures
        free_at(s, i, off) is Some ==> ({
            let (s1, o) = free_at(s, i, off)->Some_0;
            &&& s1.len() == NODE_POOL_SIZE
            &&& forall|j: int| 0 <= j < NODE_POOL_SIZE && !in_subtree(j, i) ==> s1[j] == s[j]
            &&& wf(s1)
            &&& present(s1, i)
            &&& node(s1, i).base_offset == node(s, i).base_offset
            &&& node(s1, i).order == node(s, i).order
            &&& node(s1, i).region_type != MemoryBlockRegionType::Used
            &&& o <= MAX_BLOCK_ORDER
            &&& subtree_free(s1, i) == subtree_free(s, i) + block_size(o)
            &&& subtree_used(s1, i) + block_size(o) == subtree_used(s, i)
            &&& (exists|u: int|
                0 <= u < NODE_POOL_SIZE && in_subtree(u, i) && present(s, u) && (#[trigger] node(
                    s,
                    u,
                )).region_type == MemoryBlockRegionType::Used && node(s, u).base_offset == off
                    && node(s, u).order == o)
            &&& forall|a: int|
                0 <= a < NODE_POOL_SIZE && in_subtree(a, i) ==> coalesced_at(s1, a)
        }),
    decreases NODE_POOL_SIZE - i,
{
    if free_at(s, i, off) is Some {
        assert(wf_at(s, i));
        assert(in_subtree(i, i));
        let n = node(s, i);
        if n.region_type == MemoryBlockRegionType::Used && n.base_offset == off {
            let n2 = MemoryBlockRegion { region_type: MemoryBlockRegionType::Free, ..n };
            let s1 = s.update(i, Some(n2));
            assert(free_at(s, i, off) == Some((s1, n.order as nat)));
            lemma_retype_wf(s, i, n2);
            assert(node(s, i).region_type == MemoryBlockRegionType::Used && node(
                s,
                i,
            ).base_offset == off && node(s, i).order == n.order as nat);
            assert forall|a: int|
                0 <= a < NODE_POOL_SIZE && in_subtree(a, i) implies coalesced_at(s1, a) by {
                if a != i && present(s1, a) {
                    assert(present(s, a));
                    lemma_ancestors_split(s, a, i);
                }
            }
        } else {
            let l = 2 * i + 1;
            let r = 2 * i + 2;
            let half = block_size((n.order - 1) as nat);
            let c: int = if off < n.base_offset + half {
                l
            } else {
                r
            };
            let d: int = if c == l {
                r
            } else {
                l
            };
            assert(in_subtree(l, i));
            assert(in_subtree(r, i));
            lemma_free_at_props(s, c, off);
            let (s2, o) = free_at(s, c, off)->Some_0;
            // The untouched sibling and the node itself keep their slots.
            if in_subtree(i, c) {
                lemma_in_subtree_ge(i, c);
            }
            if c == l && in_subtree(r, l) {
                lemma_subtrees_disjoint(r, i);
                assert(in_subtree(r, r));
            }
            if c == r && in_subtree(l, r) {
                assert(in_subtree(l, l));
                lemma_subtrees_disjoint(l, i);
            }
            assert(s2[i] == s[i]);
            assert(s2[d] == s[d]);
            assert forall|j: int|
                0 <= j < NODE_POOL_SIZE && in_subtree(j, d) implies s2[j] == s[j] by {
                if in_subtree(j, c) {
                    lemma_subtrees_disjoint(j, i);
                }
            }
            lemma_sum_frame(s2, s, d);
            let merged = node(s2, l).region_type == MemoryBlockRegionType::Free && node(
                s2,
                r,
            ).region_type == MemoryBlockRegionType::Free;
            let u = choose|u: int|
                0 <= u < NODE_POOL_SIZE && in_subtree(u, c) && present(s, u) && (#[trigger] node(
                    s,
                    u,
                )).region_type == MemoryBlockRegionType::Used && node(s, u).base_offset == off
                    && node(s, u).order == o;
            lemma_in_subtree_trans(u, c, i);
            if !merged {
                let s1 = s2;
                assert(free_at(s, i, off) == Some((s1, o)));
                assert forall|j: int|
                    0 <= j < NODE_POOL_SIZE && !in_subtree(j, i) implies s1[j] == s[j] by {
                    if in_subtree(j, c) {
                        lemma_in_subtree_trans(j, c, i);
                    }
                }
                assert(subtree_free(s1, i) == subtree_free(s1, l) + subtree_free(s1, r));
                assert(subtree_used(s1, i) == subtree_used(s1, l) + subtree_used(s1, r));
                assert forall|a: int|
                    0 <= a < NODE_POOL_SIZE && in_subtree(a, i) implies coalesced_at(s1, a) by {
                    if a == i {
                    } else if in_subtree(a, c) {
                    } else {
                        lemma_in_subtree_step(a, i);
                        assert(in_subtree(a, d));
                        assert(s1[a] == s[a]);
                        if present(s, a) && node(s, a).region_type
                            == MemoryBlockRegionType::Split {
                            assert(coalesced_at(s, a));
                            assert(wf_at(s, a));
                            assert(in_subtree(a, a));
                            assert(in_subtree(2 * a + 1, a));
                            assert(in_subtree(2 * a + 2, a));
                            lemma_in_subtree_trans(2 * a + 1, a, d);
                            lemma_in_subtree_trans(2 * a + 2, a, d);
                            assert(s1[2 * a + 1] == s[2 * a + 1]);
                            assert(s1[2 * a + 2] == s[2 * a + 2]);
                        }
                    }
                }
            } else {
                let nf = MemoryBlockRegion { region_type: MemoryBlockRegionType::Free, ..n };
                let s1 = s2.update(i, Some(nf)).update(l, None).update(r, None);
                assert(free_at(s, i, off) == Some((s1, o)));
                // Both children are free leaves in the intermediate pool,
                // so nothing hangs below them.
                assert(node(s2, c).region_type == MemoryBlockRegionType::Free);
                assert(node(s2, d).region_type == MemoryBlockRegionType::Free);
                assert forall|x: int|
                    0 <= x < NODE_POOL_SIZE && x != i && x != l && x != r implies s1[x]
                    == s2[x] by {}
                // Well-formedness of the merged pool.
                assert forall|x: int| 0 <= x < NODE_POOL_SIZE implies wf_at(s1, x) by {
                    if x == i {
                        assert(wf_at(s, i));
                    } else if x == l || x == r {
                    } else {
                        assert(wf_at(s2, x));
                        if present(s2, x) {
                            if node(s2, x).region_type == MemoryBlockRegionType::Split {
                                assert(2 * x + 2 < NODE_POOL_SIZE);
                                // The children of `x` are not the released
                                // slots (their parent is `i`), though one
                                // may be `i` itself, whose presence and
                                // geometry the merge keeps.
                                assert(2 * x + 1 == l || 2 * x + 1 == r ==> x == i);
                                assert(2 * x + 2 == l || 2 * x + 2 == r ==> x == i);
                                assert(present(s1, 2 * x + 1) == present(s2, 2 * x + 1));
                                assert(present(s1, 2 * x + 2) == present(s2, 2 * x + 2));
                                assert(node(s1, 2 * x + 1).base_offset == node(
                                    s2,
                                    2 * x + 1,
                                ).base_offset);
                                assert(node(s1, 2 * x + 2).base_offset == node(
                                    s2,
                                    2 * x + 2,
                                ).base_offset);
                                assert(node(s1, 2 * x + 1).order == node(s2, 2 * x + 1).order);
                                assert(node(s1, 2 * x + 2).order == node(s2, 2 * x + 2).order);
                            } else {
                                if 2 * x + 1 < NODE_POOL_SIZE {
                                    assert(!present(s2, 2 * x + 1));
                                    assert(!present(s1, 2 * x + 1));
                                }
                                if 2 * x + 2 < NODE_POOL_SIZE {
                                    assert(!present(s2, 2 * x + 2));
                                    assert(!present(s1, 2 * x + 2));
                                }
                            }
                        }
                    }
                }
                assert forall|x: int| parent_linked(s1, x) by {
                    if 1 <= x < NODE_POOL_SIZE && present(s1, x) {
                        assert(x != l && x != r);
                        assert(present(s2, x));
                        assert(parent_linked(s2, x));
                        let q = (x - 1) / 2;
                        assert(node(s2, q).region_type == MemoryBlockRegionType::Split);
                        assert(q != l && q != r);
                        if q == i {
                            assert(x == l || x == r);
                        }
                        assert(s1[q] == s2[q]);
                    }
                }
                assert(wf(s1));
                // Sums: the merged node holds exactly its block, all free.
                lemma_block_size_double((n.order - 1) as nat);
                assert(subtree_free(s1, i) == block_size(n.order as nat));
                assert(subtree_used(s1, i) == 0);
                assert(subtree_free(s2, c) == block_size((n.order - 1) as nat));
                assert(subtree_used(s2, c) == 0);
                assert(subtree_free(s, d) == block_size((n.order - 1) as nat));
                assert(subtree_used(s, d) == 0);
                assert(subtree_free(s, i) == subtree_free(s, l) + subtree_free(s, r));
                assert(subtree_used(s, i) == subtree_used(s, l) + subtree_used(s, r));
                assert forall|j: int|
                    0 <= j < NODE_POOL_SIZE && !in_subtree(j, i) implies s1[j] == s[j] by {
                    if in_subtree(j, c) {
                        lemma_in_subtree_trans(j, c, i);
                    }
                    assert(j != i && j != l && j != r);
                }
                assert forall|a: int|
                    0 <= a < NODE_POOL_SIZE && in_subtree(a, i) implies coalesced_at(s1, a) by {
                    if a != i && a != l && a != r && present(s1, a) {
                        assert(present(s2, a));
                        lemma_in_subtree_step(a, i);
                        if in_subtree(a, c) {
                            lemma_ancestors_split(s2, a, c);
                        } else {
                            assert(in_subtree(a, d));
                            assert(present(s, a));
                            lemma_ancestors_split(s, a, d);
                            assert(node(s, d).region_type == MemoryBlockRegionType::Split);
                        }
                    }
                }
            }
        }
    }
}

/// A node strictly inside a subtree has a strictly smaller order than
/// the subtree's root.
pub proof fn lemma_subtree_order(s: Pool, j: int, i: int)
    requires
        wf(s),
        0 <= i < NODE_POOL_SIZE,
        0 <= j < NODE_POOL_SIZE,
        present(s, i),
        present(s, j),
        in_subtree(j, i),
        j != i,
    ensures
        node(s, j).order < node(s, i).order,
{
    lemma_order_depth(s, i);
    lemma_order_depth(s, j);
    lemma_in_subtree_depth(j, i);
}

/// What the exact-order search returns: a free node of exactly order
/// `k` inside the subtree, or the guarantee that the subtree holds
/// none.
pub proof fn lemma_find_exact_props(s: Pool, i: int, k: nat)
    requires
        wf(s),
        0 <= i < NODE_POOL_SIZE,
    ensures
        find_exact(s, i, k) matches Some(j) ==> 0 <= j < NODE_POOL_SIZE && in_subtree(j, i)
            && present(s, j) && node(s, j).region_type == MemoryBlockRegionType::Free && node(
            s,
            j,
        ).order == k,
        find_exact(s, i, k) is None ==> forall|j: int|
            0 <= j < NODE_POOL_SIZE && in_subtree(j, i) && present(s, j) && (#[trigger] node(
                s,
                j,
            )).region_type == MemoryBlockRegionType::Free ==> node(s, j).order != k,
    decreases NODE_POOL_SIZE - i,
{
    assert(in_subtree(i, i));
    if present(s, i) {
        assert(wf_at(s, i));
        let n = node(s, i);
        if n.region_type == MemoryBlockRegionType::Free && n.order == k {
        } else if n.region_type == MemoryBlockRegionType::Split && n.order > k && 2 * i + 2
            < NODE_POOL_SIZE {
            lemma_find_exact_props(s, 2 * i + 1, k);
            lemma_find_exact_props(s, 2 * i + 2, k);
            match find_exact(s, 2 * i + 1, k) {
                Some(j) => {
                    lemma_in_subtree_trans(j, 2 * i + 1, i);
                },
                None => {
                    match find_exact(s, 2 * i + 2, k) {
                        Some(j) => {
                            lemma_in_subtree_trans(j, 2 * i + 2, i);
                        },
                        None => {
                            assert forall|j: int|
                                0 <= j < NODE_POOL_SIZE && in_subtree(j, i) && present(s, j) && (
                                #[trigger] node(s, j)).region_type
                                    == MemoryBlockRegionType::Free implies node(s, j).order
                                != k by {
                                if j != i {
                                    lemma_in_subtree_step(j, i);
                                }
                            }
                        },
                    }
                },
            }
        } else {
            assert forall|j: int|
                0 <= j < NODE_POOL_SIZE && in_subtree(j, i) && present(s, j) && (#[trigger] node(
                    s,
                    j,
                )).region_type == MemoryBlockRegionType::Free implies node(s, j).order != k by {
                if j != i {
                    lemma_ancestors_split(s, j, i);
                    lemma_subtree_order(s, j, i);
                }
            }
        }
    } else {
        assert forall|j: int|
            0 <= j < NODE_POOL_SIZE && in_subtree(j, i) && present(s, j) && (#[trigger] node(
                s,
                j,
            )).region_type == MemoryBlockRegionType::Free implies node(s, j).order != k by {
            lemma_ancestors_split(s, j, i);
        }
    }
}

/// What the larger-order search returns: a free node of order above
/// `k` inside the subtree, or the guarantee that the subtree holds
/// none.
pub proof fn lemma_find_larger_props(s: Pool, i: int, k: nat)
    requires
        wf(s),
        0 <= i < NODE_POOL_SIZE,
    ensures
        find_larger(s, i, k) matches Some(j) ==> 0 <= j < NODE_POOL_SIZE && in_subtree(j, i)
            && present(s, j) && node(s, j).region_type == MemoryBlockRegionType::Free && node(
            s,
            j,
        ).order > k,
        find_larger(s, i, k) is None ==> forall|j: int|
            0 <= j < NODE_POOL_SIZE && in_subtree(j, i) && present(s, j) && (#[trigger] node(
                s,
                j,
            )).region_type == MemoryBlockRegionType::Free ==> node(s, j).order <= k,
    decreases NODE_POOL_SIZE - i,
{
    assert(in_subtree(i, i));
    if present(s, i) {
        assert(wf_at(s, i));
        let n = node(s, i);
        if n.region_type == MemoryBlockRegionType::Free && n.order > k {
        } else if n.region_type == MemoryBlockRegionType::Split && n.order > k + 1 && 2 * i + 2
            < NODE_POOL_SIZE {
            lemma_find_larger_props(s, 2 * i + 1, k);
            lemma_find_larger_props(s, 2 * i + 2, k);
            match find_larger(s, 2 * i + 1, k) {
                Some(j) => {
                    lemma_in_subtree_trans(j, 2 * i + 1, i);
                },
                None => {},
            }
            match find_larger(s, 2 * i + 2, k) {
                Some(j) => {
                    lemma_in_subtree_trans(j, 2 * i + 2, i);
                },
                None => {},
            }
            if find_larger(s, i, k) is None {
                assert forall|j: int|
                    0 <= j < NODE_POOL_SIZE && in_subtree(j, i) && present(s, j) && (
                #[trigger] node(s, j)).region_type == MemoryBlockRegionType::Free implies node(
                    s,
                    j,
                ).order <= k by {
                    if j != i {
                        lemma_in_subtree_step(j, i);
                    }
                }
            }
        } else {
            assert forall|j: int|
                0 <= j < NODE_POOL_SIZE && in_subtree(j, i) && present(s, j) && (#[trigger] node(
                    s,
                    j,
                )).region_type == MemoryBlockRegionType::Free implies node(s, j).order <= k by {
                if j != i {
                    lemma_ancestors_split(s, j, i);
                    lemma_subtree_order(s, j, i);
                }
            }
        }
    } else {
        assert forall|j: int|
            0 <= j < NODE_POOL_SIZE && in_subtree(j, i) && present(s, j) && (#[trigger] node(
                s,
                j,
            )).region_type == MemoryBlockRegionType::Free implies node(s, j).order <= k by {
            lemma_ancestors_split(s, j, i);
        }
    }
}

/// When both searches fail, the pool holds no free block of order at
/// least `k` at all.
pub proof fn lemma_search_complete(s: Pool, k: nat)
    requires
        wf(s),
        find_exact(s, 0, k) is None,
        find_larger(s, 0, k) is None,
    ensures
        !has_free_block(s, k),
{
    lemma_find_exact_props(s, 0, k);
    lemma_find_larger_props(s, 0, k);
    if has_free_block(s, k) {
        let u = choose|u: int|
            0 <= u < NODE_POOL_SIZE && present(s, u) && (#[trigger] node(s, u)).region_type
                == MemoryBlockRegionType::Free && node(s, u).order >= k;
        lemma_in_subtree_root(u);
    }
}

/// The whole arena is exactly one block of the largest order.
pub proof fn lemma_arena_block()
    ensures
        block_size(MAX_BLOCK_ORDER as nat) == ARENA_SIZE,
{
    lemma2_to64();
}

/// The requested order is the smallest order whose block holds the
/// requested size.
pub proof fn lemma_req_order(size: nat)
    requires
        1 <= size,
    ensures
        block_size(req_order(size)) >= size,
        req_order(size) > 0 ==> block_size((req_order(size) - 1) as nat) < size,
    decreases size,
{
    lemma2_to64();
    if size > ORDER_0_BLOCK_SIZE {
        let h = (size + 1) / 2;
        lemma_req_order(h);
        let rh = req_order(h);
        lemma_block_size_double(rh);
        if rh > 0 {
            lemma_block_size_double((rh - 1) as nat);
        }
    }
}

/// Orders with smaller blocks are smaller.
pub proof fn lemma_block_size_mono(a: nat, b: nat)
    requires
        a <= b,
    ensures
        block_size(a) <= block_size(b),
{
    lemma_pow2_le(a, b);
}

/// The requested order is the only order whose block holds the size
/// while the next smaller block does not.
pub proof fn lemma_req_order_unique(size: nat, k: nat)
    requires
        1 <= size,
        block_size(k) >= size,
        k > 0 ==> block_size((k - 1) as nat) < size,
    ensures
        k == req_order(size),
{
    lemma_req_order(size);
    let r = req_order(size);
    if k < r {
        lemma_block_size_mono(k, (r - 1) as nat);
    }
    if k > r {
        lemma_block_size_mono(r, (k - 1) as nat);
    }
}

/// The freshly constructed pool is well formed, fully coalesced, and
/// entirely free.
pub proof fn lemma_fresh_pool()
    ensures
        wf(fresh_pool()),
        coalesced(fresh_pool()),
        subtree_used(fresh_pool(), 0) == 0,
        subtree_free(fresh_pool(), 0) == ARENA_SIZE,
{
    let s = fresh_pool();
    lemma_arena_block();
    assert forall|i: int| 0 <= i < NODE_POOL_SIZE implies wf_at(s, i) by {
        if i == 0 {
            assert(!present(s, 1));
            assert(!present(s, 2));
        }
    }
    assert forall|i: int| parent_linked(s, i) by {
        if 1 <= i < NODE_POOL_SIZE {
            assert(!present(s, i));
        }
    }
    assert forall|i: int| coalesced_at(s, i) by {
        if 0 <= i < NODE_POOL_SIZE && i != 0 {
            assert(!present(s, i));
        }
    }
}

/// Two used blocks in distinct slots, neither inside the other's
/// subtree, occupy disjoint byte ranges.
pub proof fn lemma_disjoint_ranges(s: Pool, i: int, j: int)
    requires
        wf(s),
        0 <= i < NODE_POOL_SIZE,
        0 <= j < NODE_POOL_SIZE,
        i != j,
        present(s, i),
        present(s, j),
        !in_subtree(i, j),
        !in_subtree(j, i),
    ensures
        node(s, i).base_offset + block_size(node(s, i).order as nat) <= node(s, j).base_offset
            || node(s, j).base_offset + block_size(node(s, j).order as nat) <= node(
            s,
            i,
        ).base_offset,
    decreases depth(i) + depth(j),
{
    lemma_in_subtree_root(i);
    lemma_in_subtree_root(j);
    assert(i != 0 && j != 0);
    let pi = (i - 1) / 2;
    let pj = (j - 1) / 2;
    assert(parent_linked(s, i));
    assert(parent_linked(s, j));
    assert(in_subtree(pi, pi));
    assert(in_subtree(pj, pj));
    assert(in_subtree(i, pi));
    assert(in_subtree(j, pj));
    if depth(i) == depth(j) {
        if pi == pj {
            // Buddies: the parent's two halves.
            assert(wf_at(s, pi));
            assert(i == 2 * pi + 1 || i == 2 * pi + 2);
            assert(j == 2 * pj + 1 || j == 2 * pj + 2);
            lemma_block_size_double((node(s, pi).order - 1) as nat);
        } else {
            if in_subtree(pi, pj) {
                lemma_in_subtree_depth(pi, pj);
            }
            if in_subtree(pj, pi) {
                lemma_in_subtree_depth(pj, pi);
            }
            lemma_disjoint_ranges(s, pi, pj);
            lemma_range_containment(s, i, pi);
            lemma_range_containment(s, j, pj);
        }
    } else if depth(i) > depth(j) {
        if in_subtree(pi, j) {
            lemma_in_subtree_trans(i, pi, j);
        }
        if in_subtree(j, pi) {
            lemma_in_subtree_depth(j, pi);
            assert(j == pi);
        }
        lemma_disjoint_ranges(s, pi, j);
        lemma_range_containment(s, i, pi);
    } else {
        if in_subtree(pj, i) {
            lemma_in_subtree_trans(j, pj, i);
        }
        if in_subtree(i, pj) {
            lemma_in_subtree_depth(i, pj);
            assert(i == pj);
        }
        lemma_disjoint_ranges(s, i, pj);
        lemma_range_containment(s, j, pj);
    }
}

/// Freeing the block that a split chain handed out merges the chain
/// away again: the pool returns to exactly what it was before the
/// split.
pub proof fn lemma_split_chain_undo(s: Pool, i: int, k: nat)
    requires
        wf(s),
        0 <= i < NODE_POOL_SIZE,
        present(s, i),
        node(s, i).region_type == MemoryBlockRegionType::Free,
        k <= node(s, i).order,
    ensures
        free_at(split_down(s, i, k).0, i, node(s, i).base_offset as nat) == Some((s, k)),
    decreases node(s, i).order - k,
{
    let n = node(s, i);
    let off = n.base_offset as nat;
    assert(wf_at(s, i));
    if n.order == k {
        let s1 = s.update(i, Some(MemoryBlockRegion { region_type: MemoryBlockRegionType::Used, ..n }));
        assert(split_down(s, i, k) == (s1, i));
        assert(free_at(s1, i, off) == Some(
            (s1.update(i, Some(MemoryBlockRegion { region_type: MemoryBlockRegionType::Free, ..node(s1, i) })), k),
        ));
        assert(s1.update(i, Some(n)) =~= s);
    } else {
        lemma_children_in_bounds(s, i);
        let l = 2 * i + 1;
        let r = 2 * i + 2;
        let s2 = split_step(s, i);
        assert(split_down(s, i, k) == split_down(s2, l, k));
        lemma_split_step_wf(s, i);
        lemma_split_down_props(s2, l, k);
        let s1 = split_down(s2, l, k).0;
        lemma_split_chain_undo(s2, l, k);
        // The node itself and the right child are outside the left
        // subtree, so the recursive split leaves them alone.
        assert(in_subtree(i, i));
        assert(in_subtree(l, i));
        assert(in_subtree(r, r));
        if in_subtree(i, l) {
            lemma_in_subtree_ge(i, l);
        }
        if in_subtree(r, l) {
            lemma_subtrees_disjoint(r, i);
        }
        assert(s1[i] == s2[i]);
        assert(s1[r] == s2[r]);
        assert(node(s1, i).region_type == MemoryBlockRegionType::Split);
        // The walk descends into the left child: the freed offset is
        // the node's own base offset, in the left half.
        lemma_block_size_double((n.order - 1) as nat);
        vstd::arithmetic::power2::lemma_pow2_pos((n.order - 1) as nat);
        assert(free_at(s1, l, off) == Some((s2, k)));
        // After the recursive free both children are free again, so
        // the merge fires and releases them.
        assert(node(s2, l).region_type == MemoryBlockRegionType::Free);
        assert(node(s2, r).region_type == MemoryBlockRegionType::Free);
        assert(free_at(s1, i, off) == Some(
            (
                s2.update(i, Some(MemoryBlockRegion { region_type: MemoryBlockRegionType::Free, ..node(s1, i) })).update(
                    l,
                    None,
                ).update(r, None),
                k,
            ),
        ));
        assert(!present(s, l));
        assert(!present(s, r));
        assert(s2.update(i, Some(n)).update(l, None).update(r, None) =~= s);
    }
}

/// A successful free at a node propagates to every ancestor on the
/// walk from the root, and on the way back up no further merge fires:
/// freeing what an allocation took restores the enclosing pool too.
pub proof fn lemma_free_walk(s: Pool, s_mod: Pool, a: int, j: int, off: nat, o: nat)
    requires
        wf(s),
        coalesced(s),
        0 <= a < NODE_POOL_SIZE,
        0 <= j < NODE_POOL_SIZE,
        present(s, j),
        node(s, j).region_type == MemoryBlockRegionType::Free,
        off == node(s, j).base_offset,
        in_subtree(j, a),
        s_mod.len() == NODE_POOL_SIZE,
        forall|x: int| 0 <= x < NODE_POOL_SIZE && !in_subtree(x, j) ==> s_mod[x] == s[x],
        free_at(s_mod, j, off) == Some((s, o)),
    ensures
        free_at(s_mod, a, off) == Some((s, o)),
    decreases depth(j) - depth(a),
{
    if a != j {
        lemma_in_subtree_depth(j, a);
        lemma_ancestors_split(s, j, a);
        assert(wf_at(s, a));
        if in_subtree(a, j) {
            lemma_in_subtree_ge(a, j);
            lemma_in_subtree_ge(j, a);
        }
        assert(s_mod[a] == s[a]);
        let l = 2 * a + 1;
        let r = 2 * a + 2;
        let na = node(s, a);
        let half = block_size((na.order - 1) as nat);
        lemma_in_subtree_step(j, a);
        lemma_depth_children(a);
        vstd::arithmetic::power2::lemma_pow2_pos((na.order - 1) as nat);
        let c: int = if in_subtree(j, l) {
            l
        } else {
            r
        };
        lemma_range_containment(s, j, c);
        lemma_block_size_double(node(s, j).order as nat);
        // The offset lies in the chosen child's half of the parent.
        if c == l {
            assert(off + block_size(node(s, j).order as nat) <= na.base_offset + half);
            assert(off < na.base_offset + half);
        } else {
            assert(off >= na.base_offset + half);
        }
        lemma_free_walk(s, s_mod, c, j, off, o);
        // On the way back up nothing merges: the restored pool is
        // fully coalesced.
        assert(coalesced_at(s, a));
        if c != j {
            lemma_ancestors_split(s, j, c);
            assert(node(s, c).region_type == MemoryBlockRegionType::Split);
        }
        assert(!(node(s, l).region_type == MemoryBlockRegionType::Free && node(s, r).region_type
            == MemoryBlockRegionType::Free));
        assert(free_at(s_mod, a, off) == Some((s, o)));
    }
}

/// Every used node can be given back: the walk from the root finds it.
pub proof fn lemma_free_at_finds(s: Pool, a: int, u: int)
    requires
        wf(s),
        0 <= a < NODE_POOL_SIZE,
        0 <= u < NODE_POOL_SIZE,
        present(s, a),
        present(s, u),
        node(s, u).region_type == MemoryBlockRegionType::Used,
        in_subtree(u, a),
    ensures
        free_at(s, a, node(s, u).base_offset as nat) is Some,
    decreases depth(u) - depth(a),
{
    let off = node(s, u).base_offset as nat;
    if a != u {
        lemma_in_subtree_depth(u, a);
        lemma_ancestors_split(s, u, a);
        assert(wf_at(s, a));
        let l = 2 * a + 1;
        let r = 2 * a + 2;
        let na = node(s, a);
        let half = block_size((na.order - 1) as nat);
        lemma_in_subtree_step(u, a);
        lemma_depth_children(a);
        vstd::arithmetic::power2::lemma_pow2_pos((na.order - 1) as nat);
        let c: int = if in_subtree(u, l) {
            l
        } else {
            r
        };
        lemma_range_containment(s, u, c);
        lemma_block_size_double(node(s, u).order as nat);
        if c == l {
            assert(off + block_size(node(s, u).order as nat) <= na.base_offset + half);
            assert(off < na.base_offset + half);
        } else {
            assert(off >= na.base_offset + half);
        }
        lemma_free_at_finds(s, c, u);
    }
}

/// A subtree holds a free byte exactly when it holds a free node.
pub proof fn lemma_free_space_has_block(s: Pool, i: int)
    requires
        wf(s),
        0 <= i < NODE_POOL_SIZE,
        present(s, i),
    ensures
        subtree_free(s, i) > 0 <==> (exists|u: int|
            0 <= u < NODE_POOL_SIZE && in_subtree(u, i) && present(s, u) && (#[trigger] node(
                s,
                u,
            )).region_type == MemoryBlockRegionType::Free),
    decreases NODE_POOL_SIZE - i,
{
    assert(wf_at(s, i));
    assert(in_subtree(i, i));
    let n = node(s, i);
    if n.region_type == MemoryBlockRegionType::Free {
        lemma_block_size_le_arena(n.order as nat);
    } else if n.region_type == MemoryBlockRegionType::Split {
        lemma_free_space_has_block(s, 2 * i + 1);
        lemma_free_space_has_block(s, 2 * i + 2);
        assert(in_subtree(2 * i + 1, i));
        assert(in_subtree(2 * i + 2, i));
        if subtree_free(s, i) > 0 {
            if subtree_free(s, 2 * i + 1) > 0 {
                let u = choose|u: int|
                    0 <= u < NODE_POOL_SIZE && in_subtree(u, 2 * i + 1) && present(s, u) && (
                    #[trigger] node(s, u)).region_type == MemoryBlockRegionType::Free;
                lemma_in_subtree_trans(u, 2 * i + 1, i);
            } else {
                let u = choose|u: int|
                    0 <= u < NODE_POOL_SIZE && in_subtree(u, 2 * i + 2) && present(s, u) && (
                    #[trigger] node(s, u)).region_type == MemoryBlockRegionType::Free;
                lemma_in_subtree_trans(u, 2 * i + 2, i);
            }
        }
        if exists|u: int|
            0 <= u < NODE_POOL_SIZE && in_subtree(u, i) && present(s, u) && (#[trigger] node(
                s,
                u,
            )).region_type == MemoryBlockRegionType::Free {
            let u = choose|u: int|
                0 <= u < NODE_POOL_SIZE && in_subtree(u, i) && present(s, u) && (#[trigger] node(
                    s,
                    u,
                )).region_type == MemoryBlockRegionType::Free;
            lemma_in_subtree_step(u, i);
        }
    } else {
        assert forall|u: int|
            0 <= u < NODE_POOL_SIZE && in_subtree(u, i) && present(s, u) implies node(
            s,
            u,
        ).region_type != MemoryBlockRegionType::Free by {
            if u != i {
                lemma_ancestors_split(s, u, i);
            }
        }
    }
}

} // verus!
