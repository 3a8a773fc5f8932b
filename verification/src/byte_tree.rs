use vstd::prelude::*;
use crate::vector::UVec3;
use crate::cursor::{tree_len, tree_size, octant_of, LevelCursor, TreeCursor};
use crate::layout::{node_index, same_node, lemma_node_index_range, lemma_node_index_injective, lemma_same_node_index, lemma_octant_lt_8};

verus! {

/// Whether bit `octant` of `byte` is set.
pub open spec fn bit_set(byte: u8, octant: u32) -> bool {
    (byte >> octant) & 1u8 == 1u8
}

/// Reads the flag of child `octant` from a byte holding one flag per child.
pub fn get_child(byte: &u8, octant: u32) -> (r: bool)
    requires
        octant < 8,
    ensures
        r == bit_set(*byte, octant),
{
    let b: u8 = *byte;
    let bit: u8 = (b >> octant) & 1;
    proof {
        assert(bit == 0 || bit == 1) by (bit_vector)
            requires bit == (b >> octant) & 1u8;
    }
    bit != 0
}

/// Writes the flag of child `octant` in a byte holding one flag per child.
pub fn set_child(byte: &mut u8, octant: u32, value: bool)
    requires
        octant < 8,
    ensures
        *final(byte) == (if value { *old(byte) | (1u8 << octant) } else { *old(byte) & !(1u8 << octant) }),
        bit_set(*final(byte), octant) == value,
        forall|o: u32| o < 8 && o != octant ==> bit_set(*final(byte), o) == bit_set(*old(byte), o),
{
    let ghost b0: u8 = *byte;
    if value {
        *byte |= 1u8 << octant;
    } else {
        *byte &= !(1u8 << octant);
    }
    proof {
        let b1: u8 = *byte;
        if value {
            assert(bit_set(b1, octant)) by (bit_vector)
                requires b1 == b0 | (1u8 << octant), octant < 8;
            assert forall|o: u32| o < 8 && o != octant implies bit_set(b1, o) == bit_set(b0, o) by {
                assert(bit_set(b1, o) == bit_set(b0, o)) by (bit_vector)
                    requires b1 == b0 | (1u8 << octant), octant < 8, o < 8, o != octant;
            }
        } else {
            assert(!bit_set(b1, octant)) by (bit_vector)
                requires b1 == b0 & !(1u8 << octant), octant < 8;
            assert forall|o: u32| o < 8 && o != octant implies bit_set(b1, o) == bit_set(b0, o) by {
                assert(bit_set(b1, o) == bit_set(b0, o)) by (bit_vector)
                    requires b1 == b0 & !(1u8 << octant), octant < 8, o < 8, o != octant;
            }
        }
    }
}


/// A complete octree storing one byte per node in preorder; bit `o` of a
/// node's byte is a flag of the node's child in octant `o`.
#[derive(Debug)]
pub struct CompleteByteOctree {
    pub vec: Vec<u8>,
}

impl Clone for CompleteByteOctree {
    fn clone(&self) -> (r: Self)
        ensures
            r.vec@ == self.vec@,
    {
        CompleteByteOctree { vec: self.vec.clone() }
    }
}

impl CompleteByteOctree {
    /// The flag of the child holding `q` on `level`, in the tree spanning
    /// levels `bottom..=top`: read from the byte of the parent node.
    pub open spec fn child_flag(self, q: UVec3, level: int, bottom: int, top: int) -> bool {
        bit_set(self.vec@[node_index(q, level + 1, bottom, top)], octant_of(q, level as u32))
    }

    pub fn new(depth: u32, fill: u8) -> (r: Self)
        requires
            depth <= 9,
        ensures
            r.vec@.len() == tree_size(depth as int),
            forall|i: int| 0 <= i < r.vec@.len() ==> r.vec@[i] == fill,
    {
        let len = tree_len(depth) as usize;
        let vec = vec![fill; len];
        Self { vec }
    }

    pub fn get_child(&self, cursor: TreeCursor, child: LevelCursor) -> (r: bool)
        requires
            cursor.index < self.vec@.len(),
            child.octant < 8,
        ensures
            r == bit_set(self.vec@[cursor.index as int], child.octant),
    {
        get_child(self.index(cursor), child.octant)
    }

    pub fn set_child(&mut self, cursor: TreeCursor, child: LevelCursor, value: bool)
        requires
            cursor.index < old(self).vec@.len(),
            child.octant < 8,
        ensures
            final(self).vec@.len() == old(self).vec@.len(),
            forall|i: int| 0 <= i < old(self).vec@.len() && i != cursor.index ==> final(self).vec@[i] == old(self).vec@[i],
            bit_set(final(self).vec@[cursor.index as int], child.octant) == value,
            forall|o: u32| o < 8 && o != child.octant
                ==> bit_set(final(self).vec@[cursor.index as int], o) == bit_set(old(self).vec@[cursor.index as int], o),
    {
        set_child(self.index_mut(cursor), child.octant, value);
    }

    pub fn index(&self, cursor: TreeCursor) -> (r: &u8)
        requires
            cursor.index < self.vec@.len(),
        ensures
            *r == self.vec@[cursor.index as int],
    {
        &self.vec[cursor.index as usize]
    }

    pub fn index_mut(&mut self, cursor: TreeCursor) -> (r: &mut u8)
        requires
            cursor.index < old(self).vec@.len(),
        ensures
            *r == old(self).vec@[cursor.index as int],
            final(self).vec@ == old(self).vec@.update(cursor.index as int, *final(r)),
    {
        &mut self.vec[cursor.index as usize]
    }
}

/// Writing the flag of the child holding `pos` on `level` changes exactly
/// the flags of the positions in that child's node.
pub proof fn lemma_child_flag_update(
    before: CompleteByteOctree,
    after: CompleteByteOctree,
    pos: UVec3,
    level: int,
    bottom: int,
    top: int,
    value: bool,
)
    requires
        bottom - 1 <= level < top,
        before.vec@.len() == tree_size(top - bottom),
        after.vec@.len() == before.vec@.len(),
        forall|i: int| 0 <= i < before.vec@.len() && i != node_index(pos, level + 1, bottom, top)
            ==> after.vec@[i] == before.vec@[i],
        bit_set(after.vec@[node_index(pos, level + 1, bottom, top)], octant_of(pos, level as u32)) == value,
        forall|o: u32| o < 8 && o != octant_of(pos, level as u32)
            ==> #[trigger] bit_set(after.vec@[node_index(pos, level + 1, bottom, top)], o)
                == bit_set(before.vec@[node_index(pos, level + 1, bottom, top)], o),
    ensures
        forall|q: UVec3, k: int| bottom - 1 <= k < top ==> #[trigger] after.child_flag(q, k, bottom, top)
            == if k == level && same_node(q, pos, level, top) { value } else { before.child_flag(q, k, bottom, top) },
{
    let i = node_index(pos, level + 1, bottom, top);
    assert forall|q: UVec3, k: int| bottom - 1 <= k < top implies #[trigger] after.child_flag(q, k, bottom, top)
        == if k == level && same_node(q, pos, level, top) { value } else { before.child_flag(q, k, bottom, top) } by {
        let j = node_index(q, k + 1, bottom, top);
        lemma_node_index_range(q, k + 1, bottom, top);
        lemma_octant_lt_8(q, k);
        if j == i {
            lemma_node_index_injective(q, k + 1, pos, level + 1, bottom, top);
            if octant_of(q, k as u32) == octant_of(pos, level as u32) {
                assert(same_node(q, pos, level, top)) by {
                    assert forall|m: int| level <= m < top implies #[trigger] octant_of(q, m as u32) == octant_of(pos, m as u32) by {
                        if m > level {
                            assert(octant_of(q, m as u32) == octant_of(pos, m as u32));
                        }
                    }
                }
            } else {
                assert(!same_node(q, pos, level, top)) by {
                    assert(octant_of(q, level as u32) != octant_of(pos, level as u32));
                }
            }
        } else {
            if k == level && same_node(q, pos, level, top) {
                assert(same_node(q, pos, level + 1, top));
                lemma_same_node_index(q, pos, level + 1, bottom, top);
            }
        }
    }
}

/// Positions in the same node read the same flag for it.
pub proof fn lemma_same_node_flag(t: CompleteByteOctree, q: UVec3, pos: UVec3, level: int, bottom: int, top: int)
    requires
        0 <= level < top,
        same_node(q, pos, level, top),
    ensures
        t.child_flag(q, level, bottom, top) == t.child_flag(pos, level, bottom, top),
{
    assert(same_node(q, pos, level + 1, top));
    lemma_same_node_index(q, pos, level + 1, bottom, top);
    assert(octant_of(q, level as u32) == octant_of(pos, level as u32));
}

/// In a byte of all ones every flag is set; in a zero byte none is.
pub proof fn lemma_uniform_bytes(o: u32)
    requires
        o < 8,
    ensures
        bit_set(0xFFu8, o),
        !bit_set(0u8, o),
{
    assert((0xFFu8 >> o) & 1u8 == 1u8 && (0u8 >> o) & 1u8 != 1u8) by (bit_vector)
        requires o < 8;
}

} // verus!
