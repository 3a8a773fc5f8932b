use vstd::prelude::*;
use bevy::platform::collections::HashMap;
use crate::vector::UVec3;
use crate::cursor::{tree_size, octant_of, key_of, LevelCursor, TreeCursor};
use crate::byte_tree::{
    CompleteByteOctree, bit_set, lemma_child_flag_update, lemma_same_node_flag, lemma_uniform_bytes,
};
use crate::layout::{
    node_index, same_node, at_node, lemma_node_index_range, lemma_cursor_child, lemma_cursor_parent,
    lemma_cursor_in_tree, lemma_octant_lt_8, lemma_same_node_index, with_bit, with_octant, lemma_with_octant,
};
use crate::cells::{in_cube, lemma_same_cell, lemma_cell_keys_distinct};
use crate::node_map::{
    NodeKey, node_values, node_values_new, node_values_get, node_values_insert, node_values_remove,
    node_values_clone,
};

verus! {

/// The sparse part of an octree: which nodes are split into children, which
/// nodes take their value from their parent, and the values of the nodes
/// that do not.
#[derive(Debug)]
#[verifier::reject_recursive_types(T)]
pub struct OctreeInner<T> {
    pub values: HashMap<NodeKey, T>,
    pub children_have_children: CompleteByteOctree,
    pub children_inherit_this: CompleteByteOctree,
}

/// The value found by walking up from the node of `q` on `level`: the value
/// of the first node that does not inherit from its parent, or `root` once
/// the walk reaches the children of the root.
pub open spec fn inherited_value(
    inherit: CompleteByteOctree,
    values: Map<NodeKey, u8>,
    root: u8,
    q: UVec3,
    level: int,
    top: int,
) -> u8
    decreases top - level,
{
    if level >= top - 1 {
        root
    } else if !inherit.child_flag(q, level, 1, top) {
        values[key_of(q, level as u32)]
    } else {
        inherited_value(inherit, values, root, q, level + 1, top)
    }
}

impl OctreeInner<u8> {
    /// The node of `q` on `level` is split into eight children.
    pub open spec fn split(self, top: int, q: UVec3, level: int) -> bool {
        self.children_have_children.child_flag(q, level, 2, top)
    }

    /// The node of `q` on `level` takes its value from its parent.
    pub open spec fn inherits(self, top: int, q: UVec3, level: int) -> bool {
        self.children_inherit_this.child_flag(q, level, 1, top)
    }

    /// The value of cell `q`: its own value where it holds one, else `root`.
    pub open spec fn cell_value(self, top: int, root: u8, q: UVec3) -> u8 {
        if self.inherits(top, q, 0) {
            root
        } else {
            node_values(self.values)[key_of(q, 0)]
        }
    }

    /// The layout is that of a tree of depth `top`; only cells hold values
    /// of their own; a node that is not split has no split node and no cell
    /// with a value of its own below it; and every cell that holds a value
    /// has it stored under its key, and the map stores nothing else.
    pub open spec fn wf(self, top: int) -> bool {
        &&& 2 <= top <= 8
        &&& self.children_have_children.vec@.len() == tree_size(top - 2)
        &&& self.children_inherit_this.vec@.len() == tree_size(top - 1)
        &&& forall|q: UVec3, l: int| in_cube(q, top) && 1 <= l < top ==> #[trigger] self.inherits(top, q, l)
        &&& forall|q: UVec3, l: int|
            in_cube(q, top) && 2 <= l < top && !#[trigger] self.split(top, q, l) ==> !self.split(top, q, l - 1)
        &&& forall|q: UVec3| in_cube(q, top) && !#[trigger] self.split(top, q, 1) ==> self.inherits(top, q, 0)
        &&& forall|q: UVec3|
            in_cube(q, top) && !#[trigger] self.inherits(top, q, 0) ==> node_values(self.values).dom().contains(
                key_of(q, 0),
            )
        &&& forall|k: NodeKey| #[trigger] node_values(self.values).dom().contains(k)
            ==> exists|q: UVec3| in_cube(q, top) && !#[trigger] self.inherits(top, q, 0) && key_of(q, 0) == k
    }

    /// Some cell on or below the node of `q` on `level` holds a value of its
    /// own.
    pub open spec fn holds_value_below(self, top: int, q: UVec3, level: int) -> bool {
        exists|c: UVec3| in_cube(c, top) && same_node(c, q, level, top) && !#[trigger] self.inherits(top, c, 0)
    }

    /// Some cell holds a value of its own.
    pub open spec fn holds_some_value(self, top: int) -> bool {
        exists|c: UVec3| in_cube(c, top) && !#[trigger] self.inherits(top, c, 0)
    }

    /// The tree keeps nothing it does not need: every split node that does
    /// not contain `pos` has a cell with a value of its own below it, and no
    /// cell's own value equals `root`.
    pub open spec fn sparse_except(self, top: int, root: u8, pos: UVec3) -> bool {
        &&& forall|q: UVec3, l: int|
            in_cube(q, top) && 1 <= l < top && #[trigger] self.split(top, q, l) && !same_node(q, pos, l, top)
                ==> self.holds_value_below(top, q, l)
        &&& forall|q: UVec3|
            in_cube(q, top) && !#[trigger] self.inherits(top, q, 0) ==> node_values(self.values)[key_of(q, 0)]
                != root
    }

    /// The tree keeps nothing it does not need: every split node has a cell
    /// with a value of its own below it, and no cell's own value equals
    /// `root`.
    pub open spec fn sparse(self, top: int, root: u8) -> bool {
        &&& forall|q: UVec3, l: int|
            in_cube(q, top) && 1 <= l < top && #[trigger] self.split(top, q, l) ==> self.holds_value_below(top, q, l)
        &&& forall|q: UVec3|
            in_cube(q, top) && !#[trigger] self.inherits(top, q, 0) ==> node_values(self.values)[key_of(q, 0)]
                != root
    }

    pub fn new(depth: u32) -> (r: Self)
        requires
            2 <= depth <= 10,
        ensures
            r.children_have_children.vec@.len() == tree_size(depth - 2),
            r.children_inherit_this.vec@.len() == tree_size(depth - 1),
            forall|i: int| 0 <= i < r.children_have_children.vec@.len() ==> r.children_have_children.vec@[i] == 0x00,
            forall|i: int| 0 <= i < r.children_inherit_this.vec@.len() ==> r.children_inherit_this.vec@[i] == 0xFF,
            node_values(r.values) == crate::node_map::empty_node_values(),
            depth <= 8 ==> r.wf(depth as int),
            depth <= 8 ==> forall|q: UVec3| in_cube(q, depth as int) ==> r.inherits(depth as int, q, 0),
            depth <= 8 ==> forall|q: UVec3, l: int| 1 <= l < depth ==> !#[trigger] r.split(depth as int, q, l),
            depth <= 8 ==> forall|root: u8| #[trigger] r.sparse(depth as int, root),
    {
        let r = Self {
            values: node_values_new(),
            children_have_children: CompleteByteOctree::new(depth - 2, 0x00),
            children_inherit_this: CompleteByteOctree::new(depth - 1, 0xFF),
        };
        proof {
            if depth <= 8 {
                let top = depth as int;
                assert forall|q: UVec3, l: int| 0 <= l < top implies #[trigger] r.inherits(top, q, l) by {
                    lemma_node_index_range(q, l + 1, 1, top);
                    lemma_octant_lt_8(q, l);
                    lemma_uniform_bytes(octant_of(q, l as u32));
                }
                assert forall|q: UVec3, l: int| 1 <= l < top implies !#[trigger] r.split(top, q, l) by {
                    lemma_node_index_range(q, l + 1, 2, top);
                    lemma_octant_lt_8(q, l);
                    lemma_uniform_bytes(octant_of(q, l as u32));
                }
            }
        }
        r
    }
}

impl Clone for OctreeInner<u8> {
    fn clone(&self) -> (r: Self)
        ensures
            r.children_have_children.vec@ == self.children_have_children.vec@,
            r.children_inherit_this.vec@ == self.children_inherit_this.vec@,
            node_values(r.values) == node_values(self.values),
    {
        OctreeInner {
            values: node_values_clone(&self.values),
            children_have_children: self.children_have_children.clone(),
            children_inherit_this: self.children_inherit_this.clone(),
        }
    }
}

impl OctreeInner<u8> {
    /// A node of the tree has a value stored under its key exactly when its
    /// flag in its parent's inherit byte is clear.
    pub proof fn law_entry_iff_flag_clear(self, top: int, q: UVec3, l: int)
        requires
            self.wf(top),
            in_cube(q, top),
            0 <= l < top,
        ensures
            node_values(self.values).dom().contains(key_of(q, l as u32)) <==> !self.inherits(top, q, l),
    {
        if l >= 1 {
            assert(self.inherits(top, q, l));
            if node_values(self.values).dom().contains(key_of(q, l as u32)) {
                let c = choose|c: UVec3|
                    in_cube(c, top) && !#[trigger] self.inherits(top, c, 0) && key_of(c, 0) == key_of(q, l as u32);
                assert(key_of(c, 0).3 == 0u8);
                assert(false);
            }
        } else if node_values(self.values).dom().contains(key_of(q, 0)) {
            let c = choose|c: UVec3|
                in_cube(c, top) && !#[trigger] self.inherits(top, c, 0) && key_of(c, 0) == key_of(q, 0);
            lemma_cell_keys_distinct(c, q, top);
        }
    }

    /// Below a node that is not split no node is split and every node takes
    /// its value from its parent.
    pub proof fn law_nothing_below_an_unsplit_node(self, top: int, q: UVec3, l: int, c: UVec3, m: int)
        requires
            self.wf(top),
            in_cube(q, top),
            in_cube(c, top),
            1 <= l < top,
            !self.split(top, q, l),
            same_node(c, q, l, top),
            0 <= m <= l,
        ensures
            m >= 1 ==> !self.split(top, c, m),
            self.inherits(top, c, m),
        decreases l - m,
    {
        lemma_same_node_flag(self.children_have_children, c, q, l, 2, top);
        if m < l {
            self.law_nothing_below_an_unsplit_node(top, q, l, c, m + 1);
            if m >= 1 {
                assert(!self.split(top, c, m + 1));
            }
        }
        if m == 0 {
            lemma_unsplit_inherits(self, top, c, l);
        }
    }
}

/// A cell that lies under a node that is not split holds no value of its
/// own.
proof fn lemma_unsplit_inherits(inner: OctreeInner<u8>, top: int, q: UVec3, l: int)
    requires
        inner.wf(top),
        in_cube(q, top),
        1 <= l < top,
        !inner.split(top, q, l),
    ensures
        inner.inherits(top, q, 0),
    decreases l,
{
    if l > 1 {
        lemma_unsplit_inherits(inner, top, q, l - 1);
    }
}

/// Above the cells every node inherits, so the walk up ends at the root.
proof fn lemma_inherited_from_root(inner: OctreeInner<u8>, top: int, root: u8, q: UVec3, l: int)
    requires
        inner.wf(top),
        in_cube(q, top),
        1 <= l <= top - 1,
    ensures
        inherited_value(inner.children_inherit_this, node_values(inner.values), root, q, l, top) == root,
    decreases top - l,
{
    if l < top - 1 {
        assert(inner.inherits(top, q, l));
        lemma_inherited_from_root(inner, top, root, q, l + 1);
    }
}

/// Walking down through split nodes and then up through inheriting nodes
/// finds the value of the cell.
proof fn lemma_lookup(inner: OctreeInner<u8>, top: int, root: u8, q: UVec3, s: int)
    requires
        inner.wf(top),
        in_cube(q, top),
        0 <= s <= top - 1,
        s == 0 || !inner.split(top, q, s),
    ensures
        inherited_value(inner.children_inherit_this, node_values(inner.values), root, q, s, top)
            == inner.cell_value(top, root, q),
{
    if s >= 1 {
        lemma_unsplit_inherits(inner, top, q, s);
        lemma_inherited_from_root(inner, top, root, q, s);
    } else if inner.inherits(top, q, 0) {
        lemma_inherited_from_root(inner, top, root, q, 1);
    }
}

/// Writing the flag of cell `pos` in the tree of inheritance flags changes
/// the flag of that cell alone.
proof fn lemma_cell_flag_update(before: CompleteByteOctree, after: CompleteByteOctree, pos: UVec3, top: int, value: bool)
    requires
        2 <= top <= 8,
        in_cube(pos, top),
        before.vec@.len() == tree_size(top - 1),
        after.vec@.len() == before.vec@.len(),
        forall|i: int| 0 <= i < before.vec@.len() && i != node_index(pos, 1, 1, top)
            ==> after.vec@[i] == before.vec@[i],
        bit_set(after.vec@[node_index(pos, 1, 1, top)], octant_of(pos, 0)) == value,
        forall|o: u32| o < 8 && o != octant_of(pos, 0)
            ==> #[trigger] bit_set(after.vec@[node_index(pos, 1, 1, top)], o)
                == bit_set(before.vec@[node_index(pos, 1, 1, top)], o),
    ensures
        forall|q: UVec3, k: int| in_cube(q, top) && 0 <= k < top ==> #[trigger] after.child_flag(q, k, 1, top)
            == if k == 0 && q == pos { value } else { before.child_flag(q, k, 1, top) },
{
    lemma_child_flag_update(before, after, pos, 0, 1, top, value);
    assert forall|q: UVec3, k: int| in_cube(q, top) && 0 <= k < top implies #[trigger] after.child_flag(q, k, 1, top)
        == if k == 0 && q == pos { value } else { before.child_flag(q, k, 1, top) } by {
        if k == 0 && same_node(q, pos, 0, top) {
            lemma_same_cell(q, pos, top);
        }
        if q == pos {
            assert(same_node(q, pos, 0, top));
        }
    }
}

/// Giving cell `pos`, under split nodes, a value of its own.
proof fn lemma_store_cell(before: OctreeInner<u8>, after: OctreeInner<u8>, top: int, root: u8, pos: UVec3, value: u8)
    requires
        before.wf(top),
        in_cube(pos, top),
        before.split(top, pos, 1),
        after.children_have_children.vec@ == before.children_have_children.vec@,
        after.children_inherit_this.vec@.len() == before.children_inherit_this.vec@.len(),
        forall|q: UVec3, k: int| in_cube(q, top) && 0 <= k < top ==> #[trigger] after.inherits(top, q, k)
            == if k == 0 && q == pos { false } else { before.inherits(top, q, k) },
        node_values(after.values) == node_values(before.values).insert(key_of(pos, 0), value),
        before.sparse_except(top, root, pos),
        value != root,
    ensures
        after.wf(top),
        after.sparse(top, root),
        after.holds_some_value(top),
        forall|q: UVec3| in_cube(q, top) ==> #[trigger] after.cell_value(top, root, q)
            == if q == pos { value } else { before.cell_value(top, root, q) },
{
    assert forall|k: NodeKey| #[trigger] node_values(after.values).dom().contains(k) implies exists|q: UVec3|
        in_cube(q, top) && !#[trigger] after.inherits(top, q, 0) && key_of(q, 0) == k by {
        if k == key_of(pos, 0) {
            assert(!after.inherits(top, pos, 0));
        } else {
            let q = choose|q: UVec3| in_cube(q, top) && !#[trigger] before.inherits(top, q, 0) && key_of(q, 0) == k;
            assert(q != pos);
            assert(!after.inherits(top, q, 0));
        }
    }
    assert(!after.inherits(top, pos, 0));
    assert forall|q: UVec3, l: int|
        in_cube(q, top) && 1 <= l < top && #[trigger] after.split(top, q, l) implies after.holds_value_below(top, q, l) by {
        if same_node(q, pos, l, top) {
            assert forall|k: int| l <= k < top implies #[trigger] octant_of(pos, k as u32) == octant_of(q, k as u32) by {
                assert(octant_of(q, k as u32) == octant_of(pos, k as u32));
            }
            assert(same_node(pos, q, l, top));
        } else {
            assert(before.split(top, q, l));
            let c = choose|c: UVec3| in_cube(c, top) && same_node(c, q, l, top) && !#[trigger] before.inherits(top, c, 0);
            assert(!after.inherits(top, c, 0));
        }
    }
    assert forall|q: UVec3| in_cube(q, top) && !#[trigger] after.inherits(top, q, 0)
        implies node_values(after.values)[key_of(q, 0)] != root by {
        if q != pos {
            assert(!before.inherits(top, q, 0));
            if key_of(q, 0) == key_of(pos, 0) {
                lemma_cell_keys_distinct(q, pos, top);
            }
        }
    }
    assert forall|q: UVec3, l: int| in_cube(q, top) && 1 <= l < top implies #[trigger] after.inherits(top, q, l) by {
        assert(before.inherits(top, q, l));
    }
    assert forall|q: UVec3, l: int| in_cube(q, top) && 2 <= l < top && !#[trigger] after.split(top, q, l)
        implies !after.split(top, q, l - 1) by {
        assert(!before.split(top, q, l));
    }
    assert forall|q: UVec3| in_cube(q, top) && !#[trigger] after.split(top, q, 1) implies after.inherits(top, q, 0) by {
        assert(!before.split(top, q, 1));
        assert(after.inherits(top, q, 0) == before.inherits(top, q, 0));
    }
    assert forall|q: UVec3| in_cube(q, top) && !#[trigger] after.inherits(top, q, 0)
        implies node_values(after.values).dom().contains(key_of(q, 0)) by {
        if q != pos {
            assert(!before.inherits(top, q, 0));
        }
    }
    assert forall|q: UVec3| in_cube(q, top) implies #[trigger] after.cell_value(top, root, q)
        == if q == pos { value } else { before.cell_value(top, root, q) } by {
        assert(after.inherits(top, q, 0) == if q == pos { false } else { before.inherits(top, q, 0) });
        if q != pos && key_of(q, 0) == key_of(pos, 0) {
            lemma_cell_keys_distinct(q, pos, top);
        }
    }
}

/// Dropping the own value of cell `pos`, which then takes the root value.
proof fn lemma_clear_cell(before: OctreeInner<u8>, after: OctreeInner<u8>, top: int, root: u8, pos: UVec3)
    requires
        before.wf(top),
        in_cube(pos, top),
        after.children_have_children.vec@ == before.children_have_children.vec@,
        after.children_inherit_this.vec@.len() == before.children_inherit_this.vec@.len(),
        forall|q: UVec3, k: int| in_cube(q, top) && 0 <= k < top ==> #[trigger] after.inherits(top, q, k)
            == if k == 0 && q == pos { true } else { before.inherits(top, q, k) },
        node_values(after.values) == node_values(before.values).remove(key_of(pos, 0)),
        before.sparse(top, root),
    ensures
        after.wf(top),
        after.sparse_except(top, root, pos),
        forall|q: UVec3| in_cube(q, top) ==> #[trigger] after.cell_value(top, root, q)
            == if q == pos { root } else { before.cell_value(top, root, q) },
{
    assert forall|k: NodeKey| #[trigger] node_values(after.values).dom().contains(k) implies exists|q: UVec3|
        in_cube(q, top) && !#[trigger] after.inherits(top, q, 0) && key_of(q, 0) == k by {
        assert(k != key_of(pos, 0));
        assert(node_values(before.values).dom().contains(k));
        let q = choose|q: UVec3| in_cube(q, top) && !#[trigger] before.inherits(top, q, 0) && key_of(q, 0) == k;
        assert(q != pos);
        assert(!after.inherits(top, q, 0));
    }
    assert forall|q: UVec3, l: int|
        in_cube(q, top) && 1 <= l < top && #[trigger] after.split(top, q, l) && !same_node(q, pos, l, top)
            implies after.holds_value_below(top, q, l) by {
        assert(before.split(top, q, l));
        let c = choose|c: UVec3| in_cube(c, top) && same_node(c, q, l, top) && !#[trigger] before.inherits(top, c, 0);
        if c == pos {
            assert forall|k: int| l <= k < top implies #[trigger] octant_of(q, k as u32) == octant_of(pos, k as u32) by {
                assert(octant_of(c, k as u32) == octant_of(q, k as u32));
            }
        }
        assert(!after.inherits(top, c, 0));
    }
    assert forall|q: UVec3| in_cube(q, top) && !#[trigger] after.inherits(top, q, 0)
        implies node_values(after.values)[key_of(q, 0)] != root by {
        assert(!before.inherits(top, q, 0));
        if key_of(q, 0) == key_of(pos, 0) {
            lemma_cell_keys_distinct(q, pos, top);
        }
    }
    assert forall|q: UVec3, l: int| in_cube(q, top) && 1 <= l < top implies #[trigger] after.inherits(top, q, l) by {
        assert(before.inherits(top, q, l));
    }
    assert forall|q: UVec3, l: int| in_cube(q, top) && 2 <= l < top && !#[trigger] after.split(top, q, l)
        implies !after.split(top, q, l - 1) by {
        assert(!before.split(top, q, l));
    }
    assert forall|q: UVec3| in_cube(q, top) && !#[trigger] after.split(top, q, 1) implies after.inherits(top, q, 0) by {
        assert(!before.split(top, q, 1));
        assert(after.inherits(top, q, 0) == (q == pos || before.inherits(top, q, 0)));
    }
    assert forall|q: UVec3| in_cube(q, top) && !#[trigger] after.inherits(top, q, 0)
        implies node_values(after.values).dom().contains(key_of(q, 0)) by {
        assert(!before.inherits(top, q, 0));
        if key_of(q, 0) == key_of(pos, 0) {
            lemma_cell_keys_distinct(q, pos, top);
        }
    }
    assert forall|q: UVec3| in_cube(q, top) implies #[trigger] after.cell_value(top, root, q)
        == if q == pos { root } else { before.cell_value(top, root, q) } by {
        assert(after.inherits(top, q, 0) == if q == pos { true } else { before.inherits(top, q, 0) });
        if q != pos && key_of(q, 0) == key_of(pos, 0) {
            lemma_cell_keys_distinct(q, pos, top);
        }
    }
}

/// Splitting the node of `pos` on `level`, whose ancestors are all split,
/// keeps the tree well formed and every cell's value.
proof fn lemma_split_node(before: OctreeInner<u8>, after: OctreeInner<u8>, top: int, root: u8, pos: UVec3, level: int)
    requires
        before.wf(top),
        in_cube(pos, top),
        1 <= level < top,
        forall|k: int| level < k < top ==> #[trigger] before.split(top, pos, k),
        after.children_inherit_this.vec@ == before.children_inherit_this.vec@,
        node_values(after.values) == node_values(before.values),
        after.children_have_children.vec@.len() == before.children_have_children.vec@.len(),
        forall|q: UVec3, k: int| 1 <= k < top ==> #[trigger] after.split(top, q, k)
            == if k == level && same_node(q, pos, level, top) { true } else { before.split(top, q, k) },
        before.sparse_except(top, root, pos),
    ensures
        after.wf(top),
        after.sparse_except(top, root, pos),
        forall|q: UVec3| #[trigger] after.cell_value(top, root, q) == before.cell_value(top, root, q),
{
    assert forall|k: NodeKey| #[trigger] node_values(after.values).dom().contains(k) implies exists|q: UVec3|
        in_cube(q, top) && !#[trigger] after.inherits(top, q, 0) && key_of(q, 0) == k by {
        let q = choose|q: UVec3| in_cube(q, top) && !#[trigger] before.inherits(top, q, 0) && key_of(q, 0) == k;
        assert(after.inherits(top, q, 0) == before.inherits(top, q, 0));
    }
    assert forall|q: UVec3, l: int|
        in_cube(q, top) && 1 <= l < top && #[trigger] after.split(top, q, l) && !same_node(q, pos, l, top)
            implies after.holds_value_below(top, q, l) by {
        assert(before.split(top, q, l));
        let c = choose|c: UVec3| in_cube(c, top) && same_node(c, q, l, top) && !#[trigger] before.inherits(top, c, 0);
        assert(!after.inherits(top, c, 0));
    }
    assert forall|q: UVec3| in_cube(q, top) && !#[trigger] after.inherits(top, q, 0)
        implies node_values(after.values)[key_of(q, 0)] != root by {
        assert(!before.inherits(top, q, 0));
    }
    assert forall|q: UVec3, l: int| in_cube(q, top) && 1 <= l < top implies #[trigger] after.inherits(top, q, l) by {
        assert(before.inherits(top, q, l));
    }
    assert forall|q: UVec3, l: int| in_cube(q, top) && 2 <= l < top && !#[trigger] after.split(top, q, l)
        implies !after.split(top, q, l - 1) by {
        if l - 1 == level && same_node(q, pos, level, top) {
            assert(same_node(q, pos, l, top));
            lemma_same_node_flag(before.children_have_children, q, pos, l, 2, top);
            assert(before.split(top, pos, l));
        } else {
            assert(!before.split(top, q, l));
        }
    }
    assert forall|q: UVec3| in_cube(q, top) && !#[trigger] after.split(top, q, 1) implies after.inherits(top, q, 0) by {
        assert(!before.split(top, q, 1));
    }
    assert forall|q: UVec3| in_cube(q, top) && !#[trigger] after.inherits(top, q, 0)
        implies node_values(after.values).dom().contains(key_of(q, 0)) by {
        assert(!before.inherits(top, q, 0));
    }
}

/// Merging the node of `pos` on `level`, whose children are neither split
/// nor hold values of their own, keeps the tree well formed and every cell's
/// value.
proof fn lemma_merge_node(before: OctreeInner<u8>, after: OctreeInner<u8>, top: int, root: u8, pos: UVec3, level: int)
    requires
        before.wf(top),
        in_cube(pos, top),
        1 <= level < top,
        level >= 2 ==> before.children_have_children.vec@[node_index(pos, level, 2, top)] == 0x00,
        level == 1 ==> before.children_inherit_this.vec@[node_index(pos, 1, 1, top)] == 0xFF,
        after.children_inherit_this.vec@ == before.children_inherit_this.vec@,
        node_values(after.values) == node_values(before.values),
        after.children_have_children.vec@.len() == before.children_have_children.vec@.len(),
        forall|q: UVec3, k: int| 1 <= k < top ==> #[trigger] after.split(top, q, k)
            == if k == level && same_node(q, pos, level, top) { false } else { before.split(top, q, k) },
        before.sparse_except(top, root, pos),
    ensures
        after.wf(top),
        after.sparse_except(top, root, pos),
        forall|q: UVec3| #[trigger] after.cell_value(top, root, q) == before.cell_value(top, root, q),
{
    assert forall|k: NodeKey| #[trigger] node_values(after.values).dom().contains(k) implies exists|q: UVec3|
        in_cube(q, top) && !#[trigger] after.inherits(top, q, 0) && key_of(q, 0) == k by {
        let q = choose|q: UVec3| in_cube(q, top) && !#[trigger] before.inherits(top, q, 0) && key_of(q, 0) == k;
        assert(after.inherits(top, q, 0) == before.inherits(top, q, 0));
    }
    assert forall|q: UVec3, l: int|
        in_cube(q, top) && 1 <= l < top && #[trigger] after.split(top, q, l) && !same_node(q, pos, l, top)
            implies after.holds_value_below(top, q, l) by {
        assert(before.split(top, q, l));
        let c = choose|c: UVec3| in_cube(c, top) && same_node(c, q, l, top) && !#[trigger] before.inherits(top, c, 0);
        assert(!after.inherits(top, c, 0));
    }
    assert forall|q: UVec3| in_cube(q, top) && !#[trigger] after.inherits(top, q, 0)
        implies node_values(after.values)[key_of(q, 0)] != root by {
        assert(!before.inherits(top, q, 0));
    }
    assert forall|q: UVec3, l: int| in_cube(q, top) && 1 <= l < top implies #[trigger] after.inherits(top, q, l) by {
        assert(before.inherits(top, q, l));
    }
    assert forall|q: UVec3, l: int| in_cube(q, top) && 2 <= l < top && !#[trigger] after.split(top, q, l)
        implies !after.split(top, q, l - 1) by {
        if l == level && same_node(q, pos, level, top) {
            lemma_same_node_index(q, pos, level, 2, top);
            lemma_node_index_range(pos, level, 2, top);
            lemma_octant_lt_8(q, l - 1);
            lemma_uniform_bytes(octant_of(q, (l - 1) as u32));
            assert(!before.split(top, q, l - 1));
        } else if !(l - 1 == level && same_node(q, pos, level, top)) {
            assert(!before.split(top, q, l));
        }
    }
    assert forall|q: UVec3| in_cube(q, top) && !#[trigger] after.split(top, q, 1) implies after.inherits(top, q, 0) by {
        if level == 1 && same_node(q, pos, 1, top) {
            lemma_same_node_index(q, pos, 1, 1, top);
            lemma_node_index_range(pos, 1, 1, top);
            lemma_octant_lt_8(q, 0);
            lemma_uniform_bytes(octant_of(q, 0));
        } else {
            assert(!before.split(top, q, 1));
        }
    }
    assert forall|q: UVec3| in_cube(q, top) && !#[trigger] after.inherits(top, q, 0)
        implies node_values(after.values).dom().contains(key_of(q, 0)) by {
        assert(!before.inherits(top, q, 0));
    }
}

/// When no child of the root is split, no cell holds a value of its own.
proof fn lemma_all_cells_inherit(inner: OctreeInner<u8>, top: int, root: u8)
    requires
        inner.wf(top),
        inner.children_have_children.vec@[0] == 0x00,
    ensures
        forall|q: UVec3| in_cube(q, top) ==> #[trigger] inner.cell_value(top, root, q) == root,
{
    assert forall|q: UVec3| in_cube(q, top) implies #[trigger] inner.cell_value(top, root, q) == root by {
        lemma_octant_lt_8(q, top - 1);
        lemma_uniform_bytes(octant_of(q, (top - 1) as u32));
        assert(node_index(q, top, 2, top) == 0);
        assert(!inner.split(top, q, top - 1));
        lemma_unsplit_inherits(inner, top, q, top - 1);
    }
}

proof fn lemma_with_bit_in_cube(x: u32, n: u32, b: u32, t: u32)
    by (bit_vector)
    requires
        t <= 8,
        n < t,
        b < 2,
        x < (1u32 << t),
    ensures
        with_bit(x, n, b) < (1u32 << t),
{
}

proof fn lemma_byte_bits(b: u8)
    by (bit_vector)
    ensures
        b != 0u8 ==> (b >> 0u32) & 1u8 == 1u8 || (b >> 1u32) & 1u8 == 1u8 || (b >> 2u32) & 1u8 == 1u8
            || (b >> 3u32) & 1u8 == 1u8 || (b >> 4u32) & 1u8 == 1u8 || (b >> 5u32) & 1u8 == 1u8
            || (b >> 6u32) & 1u8 == 1u8 || (b >> 7u32) & 1u8 == 1u8,
        b != 0xFFu8 ==> (b >> 0u32) & 1u8 != 1u8 || (b >> 1u32) & 1u8 != 1u8 || (b >> 2u32) & 1u8 != 1u8
            || (b >> 3u32) & 1u8 != 1u8 || (b >> 4u32) & 1u8 != 1u8 || (b >> 5u32) & 1u8 != 1u8
            || (b >> 6u32) & 1u8 != 1u8 || (b >> 7u32) & 1u8 != 1u8,
{
}

/// An octant whose flag in `b` is `flag`, where `b` is not uniformly the
/// other flag.
proof fn lemma_octant_with_flag(b: u8, flag: bool) -> (o: u32)
    requires
        flag ==> b != 0u8,
        !flag ==> b != 0xFFu8,
    ensures
        o < 8,
        bit_set(b, o) == flag,
{
    lemma_byte_bits(b);
    if bit_set(b, 0) == flag {
        0
    } else if bit_set(b, 1) == flag {
        1
    } else if bit_set(b, 2) == flag {
        2
    } else if bit_set(b, 3) == flag {
        3
    } else if bit_set(b, 4) == flag {
        4
    } else if bit_set(b, 5) == flag {
        5
    } else if bit_set(b, 6) == flag {
        6
    } else {
        7
    }
}

/// The cell `pos` moved into octant `o` on `level` lies in the cube and in
/// the node of `pos` one level up.
proof fn lemma_sibling(pos: UVec3, level: int, o: u32, top: int)
    requires
        in_cube(pos, top),
        0 <= level < top,
        o < 8,
    ensures
        in_cube(with_octant(pos, level as u32, o), top),
        same_node(with_octant(pos, level as u32, o), pos, level + 1, top),
        octant_of(with_octant(pos, level as u32, o), level as u32) == o,
{
    let q = with_octant(pos, level as u32, o);
    lemma_with_octant(pos, level as u32, o, level as u32);
    assert forall|k: int| level + 1 <= k < top implies #[trigger] octant_of(q, k as u32) == octant_of(pos, k as u32) by {
        lemma_with_octant(pos, level as u32, o, k as u32);
    }
    assert((o & 1u32) < 2 && ((o >> 1u32) & 1u32) < 2 && ((o >> 2u32) & 1u32) < 2) by (bit_vector)
        requires o < 8;
    lemma_with_bit_in_cube(pos.x, level as u32, o & 1u32, top as u32);
    lemma_with_bit_in_cube(pos.y, level as u32, (o >> 1u32) & 1u32, top as u32);
    lemma_with_bit_in_cube(pos.z, level as u32, (o >> 2u32) & 1u32, top as u32);
}

/// Where merging stops short of the root, a cell with a value of its own
/// lies below every split node on the path of `pos`, and the tree is sparse
/// again.
proof fn lemma_merge_stops(inner: OctreeInner<u8>, top: int, root: u8, pos: UVec3, level: int)
    requires
        inner.wf(top),
        in_cube(pos, top),
        inner.sparse_except(top, root, pos),
        0 <= level <= top - 1,
        forall|k: int| 1 <= k <= level ==> !#[trigger] inner.split(top, pos, k),
        level == 0 ==> inner.children_inherit_this.vec@[node_index(pos, 1, 1, top)] != 0xFFu8,
        level >= 1 ==> inner.children_have_children.vec@[node_index(pos, level + 1, 2, top)] != 0u8
            || inner.children_inherit_this.vec@[node_index(pos, level + 1, 1, top)] != 0xFFu8,
    ensures
        inner.sparse(top, root),
        inner.holds_some_value(top),
{
    // a cell with a value of its own inside the node of `pos` on `level + 1`
    let c: UVec3 = if level == 0 {
        let o = lemma_octant_with_flag(inner.children_inherit_this.vec@[node_index(pos, 1, 1, top)], false);
        lemma_sibling(pos, 0, o, top);
        let c = with_octant(pos, 0, o);
        lemma_same_node_index(c, pos, 1, 1, top);
        assert(!inner.inherits(top, c, 0));
        c
    } else {
        let hb = inner.children_have_children.vec@[node_index(pos, level + 1, 2, top)];
        if hb == 0u8 {
            let o = lemma_octant_with_flag(inner.children_inherit_this.vec@[node_index(pos, level + 1, 1, top)], false);
            lemma_sibling(pos, level, o, top);
            let q = with_octant(pos, level as u32, o);
            lemma_same_node_index(q, pos, level + 1, 1, top);
            assert(!inner.inherits(top, q, level));
            assert(false);
            pos
        } else {
            let o = lemma_octant_with_flag(hb, true);
            lemma_sibling(pos, level, o, top);
            let q = with_octant(pos, level as u32, o);
            lemma_same_node_index(q, pos, level + 1, 2, top);
            assert(inner.split(top, q, level));
            if same_node(q, pos, level, top) {
                lemma_same_node_flag(inner.children_have_children, q, pos, level, 2, top);
                assert(inner.split(top, pos, level));
            }
            let c = choose|c: UVec3| in_cube(c, top) && same_node(c, q, level, top) && !#[trigger] inner.inherits(top, c, 0);
            assert(same_node(c, pos, level + 1, top)) by {
                assert forall|k: int| level + 1 <= k < top implies #[trigger] octant_of(c, k as u32) == octant_of(pos, k as u32) by {
                    assert(octant_of(c, k as u32) == octant_of(q, k as u32));
                    assert(octant_of(q, k as u32) == octant_of(pos, k as u32));
                }
            }
            c
        }
    };
    assert(in_cube(c, top) && same_node(c, pos, level + 1, top) && !inner.inherits(top, c, 0));
    assert forall|q: UVec3, l: int|
        in_cube(q, top) && 1 <= l < top && #[trigger] inner.split(top, q, l) implies inner.holds_value_below(top, q, l) by {
        if same_node(q, pos, l, top) {
            if l <= level {
                lemma_same_node_flag(inner.children_have_children, q, pos, l, 2, top);
                assert(!inner.split(top, pos, l));
            }
            assert forall|k: int| l <= k < top implies #[trigger] octant_of(c, k as u32) == octant_of(q, k as u32) by {
                assert(octant_of(c, k as u32) == octant_of(pos, k as u32));
                assert(octant_of(q, k as u32) == octant_of(pos, k as u32));
            }
            assert(same_node(c, q, l, top));
        }
    }
    assert(inner.holds_some_value(top));
}

/// A sparse octree over the cube of side `2^D`: every cell holds a value,
/// and uniform regions share one.
#[derive(Debug, Default)]
#[verifier::reject_recursive_types(T)]
pub struct Octree<T, const D: u32> {
    root: T,
    inner: Option<OctreeInner<T>>,
}

impl<const D: u32> Clone for Octree<u8, D> {
    fn clone(&self) -> (r: Self)
        ensures
            self.wf() ==> r.wf(),
            r.root_value() == self.root_value(),
            r.is_bare() == self.is_bare(),
            forall|pos: UVec3| r.value_at(pos) == self.value_at(pos),
    {
        let inner = match &self.inner {
            Some(inner) => Some(inner.clone()),
            None => None,
        };
        let r = Octree { root: self.root, inner };
        proof {
            if self.inner is Some {
                let i = self.inner->0;
                let j = r.inner->0;
                let top = D as int;
                assert forall|q: UVec3, l: int| #[trigger] j.split(top, q, l) == i.split(top, q, l) by {}
                assert forall|q: UVec3, l: int| #[trigger] j.inherits(top, q, l) == i.inherits(top, q, l) by {}
                if self.wf() {
                    assert forall|q: UVec3, l: int|
                        in_cube(q, top) && 1 <= l < top && #[trigger] j.split(top, q, l) implies j.holds_value_below(top, q, l) by {
                        assert(i.split(top, q, l));
                        let c = choose|c: UVec3| in_cube(c, top) && same_node(c, q, l, top) && !#[trigger] i.inherits(top, c, 0);
                        assert(!j.inherits(top, c, 0));
                    }
                    assert forall|q: UVec3| in_cube(q, top) && !#[trigger] j.inherits(top, q, 0) implies node_values(j.values)[key_of(q, 0)]
                        != r.root by {
                        assert(!i.inherits(top, q, 0));
                    }
                    let c = choose|c: UVec3| in_cube(c, top) && !#[trigger] i.inherits(top, c, 0);
                    assert(!j.inherits(top, c, 0));
                }
                if i.wf(top) {
                    assert forall|q: UVec3, l: int| in_cube(q, top) && 1 <= l < top implies #[trigger] j.inherits(top, q, l) by {
                        assert(i.inherits(top, q, l));
                    }
                    assert forall|q: UVec3, l: int| in_cube(q, top) && 2 <= l < top && !#[trigger] j.split(top, q, l) implies !j.split(top, q, l - 1) by {
                        assert(!i.split(top, q, l));
                        assert(j.split(top, q, l - 1) == i.split(top, q, l - 1));
                    }
                    assert forall|q: UVec3| in_cube(q, top) && !#[trigger] j.split(top, q, 1) implies j.inherits(top, q, 0) by {
                        assert(!i.split(top, q, 1));
                        assert(j.inherits(top, q, 0) == i.inherits(top, q, 0));
                    }
                    assert forall|q: UVec3| in_cube(q, top) && !#[trigger] j.inherits(top, q, 0) implies node_values(j.values).dom().contains(key_of(q, 0)) by {
                        assert(!i.inherits(top, q, 0));
                    }
                    assert forall|k: NodeKey| #[trigger] node_values(j.values).dom().contains(k) implies exists|q: UVec3|
                        in_cube(q, top) && !#[trigger] j.inherits(top, q, 0) && key_of(q, 0) == k by {
                        let q = choose|q: UVec3| in_cube(q, top) && !#[trigger] i.inherits(top, q, 0) && key_of(q, 0) == k;
                        assert(!j.inherits(top, q, 0));
                    }
                }
            }
        }
        r
    }
}

impl<const D: u32> Octree<u8, D> {
    /// `pos` is a cell of the tree.
    pub open spec fn in_bounds(pos: UVec3) -> bool {
        in_cube(pos, D as int)
    }

    /// The tree's depth is in range, and its sparse part, where there is
    /// one, is well formed, keeps nothing it does not need and holds at least
    /// one cell whose value differs from the root.
    pub closed spec fn wf(self) -> bool {
        &&& 2 <= D <= 8
        &&& match self.inner {
            Some(inner) => inner.wf(D as int) && inner.sparse(D as int, self.root) && inner.holds_some_value(
                D as int,
            ),
            None => true,
        }
    }

    /// The value that the whole cube takes where nothing else is stored.
    pub closed spec fn root_value(self) -> u8 {
        self.root
    }

    /// The tree is a bare root: it stores no node below the root.
    pub closed spec fn is_bare(self) -> bool {
        self.inner is None
    }

    /// `after` holds `value` in cell `pos` and agrees with `before` on every
    /// other cell.
    pub open spec fn written(before: Self, after: Self, pos: UVec3, value: u8) -> bool {
        forall|q: UVec3| #[trigger] Self::in_bounds(q) ==> after.value_at(q)
            == if q == pos { value } else { before.value_at(q) }
    }

    /// `a` and `b` hold the same value in every cell.
    pub open spec fn same_cells(a: Self, b: Self) -> bool {
        forall|q: UVec3| #[trigger] Self::in_bounds(q) ==> a.value_at(q) == b.value_at(q)
    }

    /// The value of cell `pos`.
    pub closed spec fn value_at(self, pos: UVec3) -> u8 {
        match self.inner {
            Some(inner) => inner.cell_value(D as int, self.root, pos),
            None => self.root,
        }
    }

    pub fn new(root: u8) -> (r: Self)
        requires
            1 < D <= 8,
        ensures
            r.wf(),
            r.is_bare(),
            r.root_value() == root,
            forall|pos: UVec3| Self::in_bounds(pos) ==> r.value_at(pos) == root,
    {
        Self { root, inner: None }
    }

    fn have_root() -> (r: TreeCursor)
        requires
            2 <= D <= 8,
        ensures
            r.index == 0,
            r.tree_len == tree_size(D - 2),
    {
        TreeCursor::root(D - 2)
    }

    fn inherit_root() -> (r: TreeCursor)
        requires
            2 <= D <= 8,
        ensures
            r.index == 0,
            r.tree_len == tree_size(D - 1),
    {
        TreeCursor::root(D - 1)
    }

    fn level_root(pos: &UVec3) -> (r: LevelCursor)
        ensures
            r.level == D,
            r.pos == pos,
            r.octant == 0,
    {
        LevelCursor::root(D, pos)
    }

    /// Walks down from the node `n_level` while the node is split, moving the
    /// cursors of both trees along.
    fn scan_have(
        p_have: &mut TreeCursor,
        p_inherit: &mut TreeCursor,
        n_level: &mut LevelCursor,
        have: &CompleteByteOctree,
    )
        requires
            2 <= D <= 8,
            have.vec@.len() == tree_size(D - 2),
            old(n_level).wf(),
            old(n_level).level <= D - 1,
            at_node(*old(p_have), *old(n_level).pos, old(n_level).level + 1, 2, D as int),
            at_node(*old(p_inherit), *old(n_level).pos, old(n_level).level + 1, 1, D as int),
        ensures
            final(n_level).pos == old(n_level).pos,
            final(n_level).wf(),
            final(n_level).level <= old(n_level).level,
            at_node(*final(p_have), *old(n_level).pos, final(n_level).level + 1, 2, D as int),
            at_node(*final(p_inherit), *old(n_level).pos, final(n_level).level + 1, 1, D as int),
            final(n_level).level == 0 || !have.child_flag(*old(n_level).pos, final(n_level).level as int, 2, D as int),
            forall|k: int| final(n_level).level < k <= old(n_level).level ==> #[trigger] have.child_flag(*old(n_level).pos, k, 2, D as int),
    {
        let ghost pos = *n_level.pos;
        let ghost start = n_level.level as int;
        let ghost top = D as int;
        while n_level.level != 0
            invariant
                2 <= D <= 8,
                top == D as int,
                have.vec@.len() == tree_size(D - 2),
                n_level.wf(),
                *n_level.pos == pos,
                n_level.level <= start <= D - 1,
                at_node(*p_have, pos, n_level.level + 1, 2, top),
                at_node(*p_inherit, pos, n_level.level + 1, 1, top),
                forall|k: int| n_level.level < k <= start ==> #[trigger] have.child_flag(pos, k, 2, top),
            ensures
                n_level.wf(),
                *n_level.pos == pos,
                n_level.level <= start,
                at_node(*p_have, pos, n_level.level + 1, 2, top),
                at_node(*p_inherit, pos, n_level.level + 1, 1, top),
                n_level.level == 0 || !have.child_flag(pos, n_level.level as int, 2, top),
                forall|k: int| n_level.level < k <= start ==> #[trigger] have.child_flag(pos, k, 2, top),
            decreases n_level.level,
        {
            let ghost l = n_level.level as int;
            proof {
                lemma_cursor_in_tree(*p_have, pos, l + 1, 2, top);
                lemma_octant_lt_8(pos, l);
            }
            if !have.get_child(*p_have, *n_level) {
                break;
            }
            proof {
                lemma_cursor_child(*p_have, pos, l, 2, top);
                lemma_cursor_child(*p_inherit, pos, l, 1, top);
            }
            p_have.descend(&n_level);
            p_inherit.descend(&n_level);
            n_level.descend();
        }
    }

    /// Walks up from the node `n_level` while the node inherits from its
    /// parent, stopping below the root; returns the value found.
    fn scan_inheritance<'a>(
        p_inherit: &mut TreeCursor,
        n_level: &mut LevelCursor,
        inherit: &CompleteByteOctree,
        values: &'a HashMap<NodeKey, u8>,
        root: &'a u8,
    ) -> (r: &'a u8)
        requires
            2 <= D <= 8,
            inherit.vec@.len() == tree_size(D - 1),
            old(n_level).wf(),
            old(n_level).level <= D - 1,
            at_node(*old(p_inherit), *old(n_level).pos, old(n_level).level + 1, 1, D as int),
            forall|k: int|
                old(n_level).level <= k < D - 1 && !#[trigger] inherit.child_flag(*old(n_level).pos, k, 1, D as int)
                    ==> node_values(*values).dom().contains(key_of(*old(n_level).pos, k as u32)),
        ensures
            *r == inherited_value(*inherit, node_values(*values), *root, *old(n_level).pos, old(n_level).level as int, D as int),
            final(n_level).pos == old(n_level).pos,
            final(n_level).wf(),
            old(n_level).level <= final(n_level).level <= D - 1,
            at_node(*final(p_inherit), *old(n_level).pos, final(n_level).level + 1, 1, D as int),
            forall|k: int| old(n_level).level <= k < final(n_level).level
                ==> #[trigger] inherit.child_flag(*old(n_level).pos, k, 1, D as int),
            final(n_level).level < D - 1 ==> !inherit.child_flag(*old(n_level).pos, final(n_level).level as int, 1, D as int),
            final(n_level).level < D - 1 ==> *r == node_values(*values)[key_of(*old(n_level).pos, final(n_level).level)],
            final(n_level).level == D - 1 ==> *r == *root,
    {
        let ghost pos = *n_level.pos;
        let ghost start = n_level.level as int;
        let ghost top = D as int;
        let mut value = root;
        // stop before the root (level = D) since the root cannot inherit
        while n_level.level != D - 1
            invariant_except_break
                value == root,
                forall|k: int| start <= k < n_level.level ==> #[trigger] inherit.child_flag(pos, k, 1, top),
            invariant
                2 <= D <= 8,
                top == D as int,
                inherit.vec@.len() == tree_size(D - 1),
                n_level.wf(),
                *n_level.pos == pos,
                start <= n_level.level <= D - 1,
                at_node(*p_inherit, pos, n_level.level + 1, 1, top),
                forall|k: int|
                    start <= k < D - 1 && !#[trigger] inherit.child_flag(pos, k, 1, top)
                        ==> node_values(*values).dom().contains(key_of(pos, k as u32)),
                inherited_value(*inherit, node_values(*values), *root, pos, start, top)
                    == inherited_value(*inherit, node_values(*values), *root, pos, n_level.level as int, top),
            ensures
                *value == inherited_value(*inherit, node_values(*values), *root, pos, start, top),
                n_level.wf(),
                *n_level.pos == pos,
                start <= n_level.level <= D - 1,
                at_node(*p_inherit, pos, n_level.level + 1, 1, top),
                forall|k: int| start <= k < n_level.level ==> #[trigger] inherit.child_flag(pos, k, 1, top),
                n_level.level < D - 1 ==> !inherit.child_flag(pos, n_level.level as int, 1, top),
                n_level.level < D - 1 ==> *value == node_values(*values)[key_of(pos, n_level.level)],
                n_level.level == D - 1 ==> *value == *root,
            decreases D - n_level.level,
        {
            let ghost l = n_level.level as int;
            proof {
                lemma_cursor_in_tree(*p_inherit, pos, l + 1, 1, top);
                lemma_octant_lt_8(pos, l);
            }
            if !inherit.get_child(*p_inherit, *n_level) {
                value = node_values_get(values, n_level.key()).unwrap();
                break;
            }
            n_level.ascend();
            proof {
                lemma_cursor_parent(*p_inherit, pos, l + 1, 1, top);
            }
            p_inherit.ascend(&n_level);
        }
        value
    }

    /// Every node on the path of `pos` that does not inherit has its value
    /// stored.
    proof fn lemma_values_present(inner: OctreeInner<u8>, pos: UVec3)
        requires
            inner.wf(D as int),
            in_cube(pos, D as int),
        ensures
            forall|k: int|
                0 <= k < D - 1 && !#[trigger] inner.children_inherit_this.child_flag(pos, k, 1, D as int)
                    ==> node_values(inner.values).dom().contains(key_of(pos, k as u32)),
    {
        let top = D as int;
        assert forall|k: int|
            0 <= k < D - 1 && !#[trigger] inner.children_inherit_this.child_flag(pos, k, 1, top)
                implies node_values(inner.values).dom().contains(key_of(pos, k as u32)) by {
            if k >= 1 {
                assert(inner.inherits(top, pos, k));
            } else {
                assert(!inner.inherits(top, pos, 0));
            }
        }
    }

    /// The value of cell `pos`.
    pub fn get(&self, pos: UVec3) -> (r: &u8)
        requires
            self.wf(),
            Self::in_bounds(pos),
        ensures
            *r == self.value_at(pos),
    {
        match &self.inner {
            None => &self.root,
            Some(inner) => {
                let ghost top = D as int;
                let mut p_have = Self::have_root();
                let mut p_inherit = Self::inherit_root();
                let mut n_level = Self::level_root(&pos).descended();
                Self::scan_have(&mut p_have, &mut p_inherit, &mut n_level, &inner.children_have_children);
                proof {
                    lemma_lookup(*inner, top, self.root, pos, n_level.level as int);
                    Self::lemma_values_present(*inner, pos);
                }
                Self::scan_inheritance(&mut p_inherit, &mut n_level, &inner.children_inherit_this, &inner.values, &self.root)
            },
        }
    }

    /// Sets cell `pos` to `value`, splitting nodes down to the cell where the
    /// value differs from its surroundings and merging nodes back where all
    /// their cells share the root value again.
    pub fn set(&mut self, pos: UVec3, value: u8)
        requires
            old(self).wf(),
            Self::in_bounds(pos),
        ensures
            final(self).wf(),
            Self::written(*old(self), *final(self), pos, value),
            final(self).root_value() == old(self).root_value(),
            final(self).is_bare() <==> forall|q: UVec3|
                #[trigger] Self::in_bounds(q) ==> final(self).value_at(q) == final(self).root_value(),
            old(self).value_at(pos) == value ==> *final(self) == *old(self),
    {
        let ghost top = D as int;
        let ghost fresh = old(self).inner is None;
        let mut inner = match self.inner.take() {
            Some(inner) => inner,
            None => {
                if self.root == value {
                    proof {
                        Self::law_bare_iff_uniform(*self);
                    }
                    return;
                }
                OctreeInner::new(D)
            },
        };
        let ghost start = inner;
        assert(start.wf(top));
        assert(start.sparse(top, self.root));
        assert(fresh ==> forall|q: UVec3| in_cube(q, top) ==> #[trigger] start.inherits(top, q, 0));
        assert(fresh ==> self.root != value);
        assert(!fresh ==> old(self).inner == Some(start) && start.holds_some_value(top));
        assert(forall|q: UVec3| in_cube(q, top) ==> #[trigger] start.cell_value(top, self.root, q) == old(self).value_at(q));

        let mut p_have = Self::have_root();
        let mut p_inherit = Self::inherit_root();
        let mut n_level = Self::level_root(&pos).descended();
        Self::scan_have(&mut p_have, &mut p_inherit, &mut n_level, &inner.children_have_children);

        let base_p_have = p_have;
        let base_p_inherit = p_inherit;
        let base_n_level = n_level;
        let ghost base = base_n_level.level as int;

        proof {
            lemma_lookup(inner, top, self.root, pos, base);
            Self::lemma_values_present(inner, pos);
        }
        let unchanged = {
            let old_value = Self::scan_inheritance(
                &mut p_inherit,
                &mut n_level,
                &inner.children_inherit_this,
                &inner.values,
                &self.root,
            );
            *old_value == value
        };
        if unchanged {
            proof {
                if fresh {
                    assert(start.cell_value(top, self.root, pos) == self.root);
                }
            }
            self.inner = Some(inner);
            proof {
                Self::law_bare_iff_uniform(*self);
            }
            return;
        }
        assert(old(self).value_at(pos) != value);

        if base_n_level.level == 0 {
            proof {
                lemma_cursor_in_tree(base_p_inherit, pos, 1, 1, top);
                lemma_octant_lt_8(pos, 0);
            }
            let inheritor = inner.children_inherit_this.get_child(base_p_inherit, base_n_level);
            if !inheritor {
                // check the chain of inheritance of the parent
                let parent_is_value = {
                    let mut n_level = base_n_level.ascended();
                    proof {
                        lemma_cursor_parent(base_p_inherit, pos, 1, 1, top);
                    }
                    let mut p_inherit = base_p_inherit.ascended(&n_level);
                    proof {
                        lemma_inherited_from_root(inner, top, self.root, pos, 1);
                    }
                    let parent_value = Self::scan_inheritance(
                        &mut p_inherit,
                        &mut n_level,
                        &inner.children_inherit_this,
                        &inner.values,
                        &self.root,
                    );
                    *parent_value == value
                };

                if parent_is_value {
                    let ghost before_clear = inner;
                    let removed = node_values_remove(&mut inner.values, base_n_level.key());
                    let _ = removed.unwrap();
                    inner.children_inherit_this.set_child(base_p_inherit, base_n_level, true);
                    proof {
                        lemma_cell_flag_update(
                            before_clear.children_inherit_this,
                            inner.children_inherit_this,
                            pos,
                            top,
                            true,
                        );
                        lemma_clear_cell(before_clear, inner, top, self.root, pos);
                    }

                    // l1 has an implicit 0x00 for the have byte indicating that all l0 nodes are leafs
                    let mut have_val: u8 = 0x00;
                    let mut p_inherit = base_p_inherit;
                    let mut p_have = base_p_have;
                    let mut n_level = base_n_level;

                    // try to merge uniform regions
                    loop
                        invariant
                            2 <= D <= 8,
                            top == D as int,
                            in_cube(pos, top),
                            n_level.wf(),
                            *n_level.pos == pos,
                            n_level.level <= D - 1,
                            at_node(p_inherit, pos, n_level.level + 1, 1, top),
                            at_node(p_have, pos, n_level.level + 1, 2, top),
                            n_level.level == 0 ==> have_val == 0x00,
                            n_level.level >= 1 ==> have_val
                                == inner.children_have_children.vec@[node_index(pos, n_level.level + 1, 2, top)],
                            inner.wf(top),
                            forall|q: UVec3| in_cube(q, top) ==> #[trigger] inner.cell_value(top, self.root, q)
                                == if q == pos { value } else { old(self).value_at(q) },
                            self.inner is None,
                            inner.sparse_except(top, self.root, pos),
                            forall|k: int| 1 <= k <= n_level.level ==> !#[trigger] inner.split(top, pos, k),
                            self.root == old(self).root,
                            old(self).value_at(pos) != value,
                        ensures
                            inner.wf(top),
                            forall|q: UVec3| in_cube(q, top) ==> #[trigger] inner.cell_value(top, self.root, q)
                                == if q == pos { value } else { old(self).value_at(q) },
                            self.inner is None,
                            self.root == old(self).root,
                            old(self).value_at(pos) != value,
                            inner.sparse(top, self.root),
                            inner.holds_some_value(top),
                        decreases D - n_level.level,
                    {
                        let ghost l = n_level.level as int;
                        proof {
                            lemma_cursor_in_tree(p_inherit, pos, l + 1, 1, top);
                        }
                        let siblings_leafs = have_val == 0x00;
                        let siblings_inherit = *inner.children_inherit_this.index(p_inherit) == 0xFF;
                        if !(siblings_leafs && siblings_inherit) {
                            proof {
                                lemma_merge_stops(inner, top, self.root, pos, l);
                            }
                            break;
                        }

                        if n_level.level == D - 1 {
                            proof {
                                assert(node_index(pos, top, 2, top) == 0);
                                assert(inner.children_have_children.vec@[0] == 0x00);
                                lemma_all_cells_inherit(inner, top, self.root);
                            }
                            self.inner = None;
                            assert forall|q: UVec3| #[trigger] Self::in_bounds(q) implies self.value_at(q)
                                == if q == pos { value } else { old(self).value_at(q) } by {
                                assert(inner.cell_value(top, self.root, q) == self.root);
                            }
                            proof {
                                Self::law_bare_iff_uniform(*self);
                            }
                            return;
                        }

                        let ghost before_merge = inner;
                        n_level.ascend();
                        proof {
                            lemma_cursor_parent(p_inherit, pos, l + 1, 1, top);
                            lemma_cursor_parent(p_have, pos, l + 1, 2, top);
                        }
                        p_inherit.ascend(&n_level);
                        p_have.ascend(&n_level);

                        proof {
                            lemma_cursor_in_tree(p_have, pos, l + 2, 2, top);
                            lemma_octant_lt_8(pos, l + 1);
                        }
                        inner.children_have_children.set_child(p_have, n_level, false);
                        proof {
                            lemma_child_flag_update(
                                before_merge.children_have_children,
                                inner.children_have_children,
                                pos,
                                l + 1,
                                2,
                                top,
                                false,
                            );
                            lemma_merge_node(before_merge, inner, top, self.root, pos, l + 1);
                            assert(same_node(pos, pos, l + 1, top));
                            assert forall|k: int| 1 <= k <= l + 1 implies !#[trigger] inner.split(top, pos, k) by {
                                if k <= l {
                                    assert(!before_merge.split(top, pos, k));
                                }
                            }
                        }
                        have_val = *inner.children_have_children.index(p_have);
                    }
                    self.inner = Some(inner);
                    proof {
                        Self::law_bare_iff_uniform(*self);
                    }
                    return;
                }
            } else {
                let ghost before_flag = inner;
                inner.children_inherit_this.set_child(base_p_inherit, base_n_level, false);
                proof {
                    lemma_cell_flag_update(
                        before_flag.children_inherit_this,
                        inner.children_inherit_this,
                        pos,
                        top,
                        false,
                    );
                }
            }
            node_values_insert(&mut inner.values, base_n_level.key(), value);
            proof {
                assert(start.split(top, pos, 1));
                lemma_store_cell(start, inner, top, self.root, pos, value);
            }
        } else {
            proof {
                lemma_unsplit_inherits(start, top, pos, base);
                assert(start.cell_value(top, self.root, pos) == self.root);
            }
            let mut p_have = base_p_have;
            let mut p_inherit = base_p_inherit;
            let mut n_level = base_n_level;

            while n_level.level != 0
                invariant
                    2 <= D <= 8,
                    top == D as int,
                    in_cube(pos, top),
                    n_level.wf(),
                    *n_level.pos == pos,
                    n_level.level <= D - 1,
                    at_node(p_inherit, pos, n_level.level + 1, 1, top),
                    at_node(p_have, pos, n_level.level + 1, 2, top),
                    inner.wf(top),
                    forall|k: int| n_level.level < k < top ==> #[trigger] inner.split(top, pos, k),
                    inner.children_inherit_this.vec@ == start.children_inherit_this.vec@,
                    node_values(inner.values) == node_values(start.values),
                    forall|q: UVec3| #[trigger] inner.cell_value(top, self.root, q) == start.cell_value(top, self.root, q),
                    inner.sparse_except(top, self.root, pos),
                    value != self.root,
                decreases n_level.level,
            {
                let ghost l = n_level.level as int;
                let ghost before_split = inner;
                proof {
                    lemma_cursor_in_tree(p_have, pos, l + 1, 2, top);
                    lemma_octant_lt_8(pos, l);
                }
                inner.children_have_children.set_child(p_have, n_level, true);
                proof {
                    lemma_child_flag_update(
                        before_split.children_have_children,
                        inner.children_have_children,
                        pos,
                        l,
                        2,
                        top,
                        true,
                    );
                    lemma_split_node(before_split, inner, top, self.root, pos, l);
                    lemma_cursor_child(p_have, pos, l, 2, top);
                    lemma_cursor_child(p_inherit, pos, l, 1, top);
                }
                p_have.descend(&n_level);
                p_inherit.descend(&n_level);
                n_level.descend();
            }

            let ghost before_store = inner;
            node_values_insert(&mut inner.values, n_level.key(), value);
            proof {
                lemma_cursor_in_tree(p_inherit, pos, 1, 1, top);
                lemma_octant_lt_8(pos, 0);
            }
            inner.children_inherit_this.set_child(p_inherit, n_level, false);
            proof {
                lemma_cell_flag_update(
                    before_store.children_inherit_this,
                    inner.children_inherit_this,
                    pos,
                    top,
                    false,
                );
                lemma_store_cell(before_store, inner, top, self.root, pos, value);
            }
        }
        self.inner = Some(inner);
        proof {
            Self::law_bare_iff_uniform(*self);
        }
    }

    /// Writing back the root value into the one cell that a bare tree had
    /// changed leaves a bare tree again.
    pub proof fn law_reset_restores_bare(a: Self, b: Self, c: Self, pos: UVec3, v: u8)
        requires
            a.wf(),
            c.wf(),
            a.is_bare(),
            Self::in_bounds(pos),
            Self::written(a, b, pos, v),
            Self::written(b, c, pos, a.root_value()),
            c.root_value() == a.root_value(),
        ensures
            c.is_bare(),
    {
        Self::law_bare_iff_uniform(a);
        Self::law_bare_iff_uniform(c);
        assert forall|q: UVec3| #[trigger] Self::in_bounds(q) implies c.value_at(q) == c.root_value() by {
            assert(Self::in_bounds(q));
        }
    }

    /// A tree is a bare root exactly when every cell holds the root value.
    pub proof fn law_bare_iff_uniform(t: Self)
        requires
            t.wf(),
        ensures
            t.is_bare() <==> forall|q: UVec3| #[trigger] Self::in_bounds(q) ==> t.value_at(q) == t.root_value(),
    {
        if t.inner is Some {
            let inner = t.inner->0;
            let c = choose|c: UVec3| in_cube(c, D as int) && !#[trigger] inner.inherits(D as int, c, 0);
            assert(Self::in_bounds(c));
            assert(t.value_at(c) != t.root_value());
        }
    }

    /// A read gives back the last write to the cell, and a write leaves
    /// every other cell as it was.
    pub proof fn law_read_after_write(before: Self, after: Self, pos: UVec3, value: u8, other: UVec3)
        requires
            Self::written(before, after, pos, value),
            Self::in_bounds(pos),
            Self::in_bounds(other),
            other != pos,
        ensures
            after.value_at(pos) == value,
            after.value_at(other) == before.value_at(other),
    {
    }

    /// Of two writes to one cell, the later one wins.
    pub proof fn law_last_write_wins(a: Self, b: Self, c: Self, pos: UVec3, v: u8, w: u8)
        requires
            Self::written(a, b, pos, v),
            Self::written(b, c, pos, w),
        ensures
            Self::written(a, c, pos, w),
    {
    }

    /// Writes to two different cells can be made in either order.
    pub proof fn law_writes_commute(
        a: Self,
        b: Self,
        c: Self,
        b2: Self,
        c2: Self,
        p: UVec3,
        v: u8,
        q: UVec3,
        w: u8,
    )
        requires
            p != q,
            Self::written(a, b, p, v),
            Self::written(b, c, q, w),
            Self::written(a, b2, q, w),
            Self::written(b2, c2, p, v),
        ensures
            Self::same_cells(c, c2),
    {
    }

    /// Writing back the value a cell held undoes a write to it.
    pub proof fn law_write_back_restores(a: Self, b: Self, c: Self, pos: UVec3, v: u8)
        requires
            Self::in_bounds(pos),
            Self::written(a, b, pos, v),
            Self::written(b, c, pos, a.value_at(pos)),
        ensures
            Self::same_cells(a, c),
    {
    }

    /// Writing to a cell the value it holds changes no cell.
    pub proof fn law_rewrite_changes_nothing(a: Self, b: Self, pos: UVec3)
        requires
            Self::in_bounds(pos),
            Self::written(a, b, pos, a.value_at(pos)),
        ensures
            Self::same_cells(a, b),
    {
    }
}

} // verus!
