use vstd::prelude::*;
use crate::vector::UVec3;
use crate::cursor::{tree_size, octant_of, lemma_tree_size_bound, TreeCursor};

verus! {

// A complete octree is stored in preorder: a node is followed by the
// subtrees of its eight children, in octant order. In a tree whose root lies
// on level `top` and whose leaves lie on level `bottom`, the node on
// `level` holds a subtree of `tree_size(level - bottom)` nodes.

/// Index, in the preorder layout of the tree spanning levels `bottom..=top`,
/// of the node on `level` that contains `pos`.
pub open spec fn node_index(pos: UVec3, level: int, bottom: int, top: int) -> int
    decreases top - level,
{
    if level >= top {
        0
    } else {
        node_index(pos, level + 1, bottom, top) + 1 + octant_of(pos, level as u32) * tree_size(level - bottom)
    }
}

/// `p` and `q` lie in the same node on `level` of a tree whose root lies on
/// level `top`: they take the same octant on every level from `level` up.
pub open spec fn same_node(p: UVec3, q: UVec3, level: int, top: int) -> bool {
    forall|k: int| level <= k < top ==> #[trigger] octant_of(p, k as u32) == octant_of(q, k as u32)
}

pub proof fn lemma_octant_lt_8(p: UVec3, k: int)
    ensures
        octant_of(p, k as u32) < 8,
{
    crate::cursor::lemma_octant_of_bound(p.x, p.y, p.z, k as u32);
}

/// Every node's subtree lies inside the whole tree's index range.
pub proof fn lemma_node_index_range(p: UVec3, level: int, bottom: int, top: int)
    requires
        bottom - 1 <= level <= top,
    ensures
        0 <= node_index(p, level, bottom, top),
        node_index(p, level, bottom, top) + tree_size(level - bottom) <= tree_size(top - bottom),
    decreases top - level,
{
    if level < top {
        lemma_node_index_range(p, level + 1, bottom, top);
        lemma_octant_lt_8(p, level);
        let o = octant_of(p, level as u32);
        let s = tree_size(level - bottom);
        assert(tree_size(level + 1 - bottom) == 8 * s + 1);
        assert(o * s <= 7 * s) by (nonlinear_arith)
            requires o < 8;
        assert(0 <= o * s) by (nonlinear_arith)
            requires 0 <= o;
    }
}

/// A node's descendants lie inside its subtree, strictly after it.
pub proof fn lemma_descendant_index(p: UVec3, m: int, level: int, bottom: int, top: int)
    requires
        bottom - 1 <= m <= level <= top,
    ensures
        node_index(p, level, bottom, top) <= node_index(p, m, bottom, top),
        node_index(p, m, bottom, top) + tree_size(m - bottom) <= node_index(p, level, bottom, top) + tree_size(level - bottom),
        m < level ==> node_index(p, level, bottom, top) < node_index(p, m, bottom, top),
    decreases level - m,
{
    if m < level {
        lemma_descendant_index(p, m + 1, level, bottom, top);
        lemma_octant_lt_8(p, m);
        let o = octant_of(p, m as u32);
        let s = tree_size(m - bottom);
        assert(tree_size(m + 1 - bottom) == 8 * s + 1);
        assert(o * s <= 7 * s) by (nonlinear_arith)
            requires o < 8;
        assert(0 <= o * s) by (nonlinear_arith)
            requires 0 <= o;
    }
}

/// Positions in the same node share the node's index.
pub proof fn lemma_same_node_index(p: UVec3, q: UVec3, level: int, bottom: int, top: int)
    requires
        same_node(p, q, level, top),
    ensures
        node_index(p, level, bottom, top) == node_index(q, level, bottom, top),
    decreases top - level,
{
    if level < top {
        assert(octant_of(p, level as u32) == octant_of(q, level as u32));
        assert(same_node(p, q, level + 1, top));
        lemma_same_node_index(p, q, level + 1, bottom, top);
    }
}

/// Distinct nodes on one level have disjoint subtrees.
pub proof fn lemma_distinct_nodes_disjoint(p: UVec3, q: UVec3, level: int, bottom: int, top: int)
    requires
        bottom - 1 <= level < top,
        !same_node(p, q, level, top),
    ensures
        node_index(p, level, bottom, top) + tree_size(level - bottom) <= node_index(q, level, bottom, top)
        || node_index(q, level, bottom, top) + tree_size(level - bottom) <= node_index(p, level, bottom, top),
    decreases top - level,
{
    let s = tree_size(level - bottom);
    lemma_octant_lt_8(p, level);
    lemma_octant_lt_8(q, level);
    let op = octant_of(p, level as u32);
    let oq = octant_of(q, level as u32);
    if same_node(p, q, level + 1, top) {
        lemma_same_node_index(p, q, level + 1, bottom, top);
        assert(op != oq) by {
            if op == oq {
                assert forall|k: int| level <= k < top implies #[trigger] octant_of(p, k as u32) == octant_of(q, k as u32) by {
                    if k > level {
                        assert(octant_of(p, k as u32) == octant_of(q, k as u32));
                    }
                }
            }
        }
        if op < oq {
            assert(op * s + s <= oq * s) by (nonlinear_arith)
                requires op < oq, 0 <= s;
        } else {
            assert(oq * s + s <= op * s) by (nonlinear_arith)
                requires oq < op, 0 <= s;
        }
    } else {
        lemma_distinct_nodes_disjoint(p, q, level + 1, bottom, top);
        lemma_descendant_index(p, level, level + 1, bottom, top);
        lemma_descendant_index(q, level, level + 1, bottom, top);
    }
}

/// Distinct nodes of a tree have distinct indices: equal indices name the
/// same level and the same node on it.
pub proof fn lemma_node_index_injective(p: UVec3, l1: int, q: UVec3, l2: int, bottom: int, top: int)
    requires
        bottom <= l1 <= top,
        bottom <= l2 <= top,
        node_index(p, l1, bottom, top) == node_index(q, l2, bottom, top),
    ensures
        l1 == l2,
        same_node(p, q, l1, top),
    decreases top - l1,
{
    if l1 < l2 {
        lemma_node_index_injective(q, l2, p, l1, bottom, top);
        assert forall|k: int| l1 <= k < top implies #[trigger] octant_of(p, k as u32) == octant_of(q, k as u32) by {
            assert(octant_of(q, k as u32) == octant_of(p, k as u32));
        }
    } else {
        // l2 <= l1
        if same_node(p, q, l1, top) {
            lemma_same_node_index(p, q, l1, bottom, top);
            lemma_descendant_index(q, l2, l1, bottom, top);
        } else {
            if l1 == top {
                assert(same_node(p, q, l1, top));
            }
            lemma_distinct_nodes_disjoint(p, q, l1, bottom, top);
            lemma_descendant_index(q, l2, l1, bottom, top);
        }
    }
}


/// The cursor `c` points at the node on `level` containing `q`, in the tree
/// spanning levels `bottom..=top`.
pub open spec fn at_node(c: TreeCursor, q: UVec3, level: int, bottom: int, top: int) -> bool {
    &&& c.index == node_index(q, level, bottom, top)
    &&& c.tree_len == tree_size(level - bottom)
}

pub proof fn lemma_tree_size_step(k: int)
    requires
        k >= -1,
    ensures
        tree_size(k + 1) == 8 * tree_size(k) + 1,
        (tree_size(k + 1) - 1) / 8 == tree_size(k),
{
}

/// Moving a cursor to the child holding `q` reaches `q`'s node one level
/// down.
pub proof fn lemma_cursor_child(c: TreeCursor, q: UVec3, level: int, bottom: int, top: int)
    requires
        at_node(c, q, level + 1, bottom, top),
        bottom <= level + 1 <= top,
        top - bottom <= 9,
    ensures
        c.tree_len >= 1,
        c.index + 1 + octant_of(q, level as u32) * ((c.tree_len - 1) / 8) <= u32::MAX,
        at_node(c.child(octant_of(q, level as u32)), q, level, bottom, top),
{
    lemma_tree_size_step(level - bottom);
    lemma_node_index_range(q, level, bottom, top);
    lemma_tree_size_bound(top - bottom);
}

/// Moving a cursor from `q`'s node to its parent reaches `q`'s node one
/// level up.
pub proof fn lemma_cursor_parent(c: TreeCursor, q: UVec3, level: int, bottom: int, top: int)
    requires
        at_node(c, q, level, bottom, top),
        bottom - 1 <= level < top,
        top - bottom <= 9,
    ensures
        c.index >= 1 + octant_of(q, level as u32) * c.tree_len,
        c.tree_len * 8 + 1 <= u32::MAX,
        at_node(c.parent(octant_of(q, level as u32)), q, level + 1, bottom, top),
{
    lemma_tree_size_step(level - bottom);
    lemma_node_index_range(q, level + 1, bottom, top);
    lemma_tree_size_bound(top - bottom);
    lemma_octant_lt_8(q, level);
    let o = octant_of(q, level as u32);
    let s = tree_size(level - bottom);
    assert(0 <= o * s) by (nonlinear_arith)
        requires 0 <= o, 0 <= s;
}

/// A cursor at a node on a level of the tree points inside the tree.
pub proof fn lemma_cursor_in_tree(c: TreeCursor, q: UVec3, level: int, bottom: int, top: int)
    requires
        at_node(c, q, level, bottom, top),
        bottom <= level <= top,
    ensures
        c.index < tree_size(top - bottom),
{
    lemma_node_index_range(q, level, bottom, top);
}

/// `x` with bit `n` replaced by `b`.
pub open spec fn with_bit(x: u32, n: u32, b: u32) -> u32 {
    (x & !(1u32 << n)) | (b << n)
}

proof fn lemma_with_bit(x: u32, n: u32, b: u32, k: u32)
    by (bit_vector)
    requires
        n < 32,
        b < 2,
        k < 32,
    ensures
        (with_bit(x, n, b) >> n) & 1u32 == b,
        k != n ==> (with_bit(x, n, b) >> k) & 1u32 == (x >> k) & 1u32,
{
}

proof fn lemma_octant_parts(o: u32)
    by (bit_vector)
    requires
        o < 8,
    ensures
        (o & 1u32) < 2,
        ((o >> 1u32) & 1u32) < 2,
        ((o >> 2u32) & 1u32) < 2,
        (o & 1u32) | (((o >> 1u32) & 1u32) << 1u32) | (((o >> 2u32) & 1u32) << 2u32) == o,
{
}

/// `p` moved into octant `o` on `level`, every other octant kept.
pub open spec fn with_octant(p: UVec3, level: u32, o: u32) -> UVec3 {
    UVec3 {
        x: with_bit(p.x, level, o & 1u32),
        y: with_bit(p.y, level, (o >> 1u32) & 1u32),
        z: with_bit(p.z, level, (o >> 2u32) & 1u32),
    }
}

pub proof fn lemma_with_octant(p: UVec3, level: u32, o: u32, k: u32)
    requires
        level < 32,
        k < 32,
        o < 8,
    ensures
        octant_of(with_octant(p, level, o), level) == o,
        k != level ==> octant_of(with_octant(p, level, o), k) == octant_of(p, k),
{
    lemma_octant_parts(o);
    let q = with_octant(p, level, o);
    lemma_with_bit(p.x, level, o & 1u32, k);
    lemma_with_bit(p.y, level, (o >> 1u32) & 1u32, k);
    lemma_with_bit(p.z, level, (o >> 2u32) & 1u32, k);
    lemma_with_bit(p.x, level, o & 1u32, level);
    lemma_with_bit(p.y, level, (o >> 1u32) & 1u32, level);
    lemma_with_bit(p.z, level, (o >> 2u32) & 1u32, level);
}

} // verus!
