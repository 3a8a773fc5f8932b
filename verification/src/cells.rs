use vstd::prelude::*;
use crate::vector::UVec3;
use crate::cursor::{octant_of, key_of};
use crate::layout::same_node;

verus! {

/// `pos` lies in the cube of side `2^depth` at the origin.
pub open spec fn in_cube(pos: UVec3, depth: int) -> bool {
    &&& 0 <= depth <= 8
    &&& pos.x < (1u32 << (depth as u32))
    &&& pos.y < (1u32 << (depth as u32))
    &&& pos.z < (1u32 << (depth as u32))
}

proof fn lemma_octant_coordinates(x1: u32, y1: u32, z1: u32, x2: u32, y2: u32, z2: u32, k: u32)
    by (bit_vector)
    requires
        ((x1 >> k) & 1u32) | (((y1 >> k) & 1u32) << 1u32) | (((z1 >> k) & 1u32) << 2u32)
            == ((x2 >> k) & 1u32) | (((y2 >> k) & 1u32) << 1u32) | (((z2 >> k) & 1u32) << 2u32),
    ensures
        (x1 >> k) & 1u32 == (x2 >> k) & 1u32,
        (y1 >> k) & 1u32 == (y2 >> k) & 1u32,
        (z1 >> k) & 1u32 == (z2 >> k) & 1u32,
{
}

proof fn lemma_shift_step(x: u32, y: u32, k: u32)
    by (bit_vector)
    requires
        k < 31,
        x >> (k + 1) == y >> (k + 1),
        (x >> k) & 1u32 == (y >> k) & 1u32,
    ensures
        x >> k == y >> k,
{
}

proof fn lemma_below_shift_zero(x: u32, t: u32)
    by (bit_vector)
    requires
        t < 32,
        x < (1u32 << t),
    ensures
        x >> t == 0,
{
}

proof fn lemma_cube_coordinate_byte(x: u32, t: u32)
    by (bit_vector)
    requires
        t <= 8,
        x < (1u32 << t),
    ensures
        x < 256,
{
}

proof fn lemma_byte_key(x: u32, y: u32)
    by (bit_vector)
    requires
        x < 256,
        y < 256,
        (x >> 0u32) as u8 == (y >> 0u32) as u8,
    ensures
        x == y,
{
}

proof fn lemma_shift_zero(x: u32)
    by (bit_vector)
    ensures
        x >> 0u32 == x,
{
}

proof fn lemma_same_shift_from(p: UVec3, q: UVec3, k: int, top: int)
    requires
        0 <= k <= top <= 8,
        in_cube(p, top),
        in_cube(q, top),
        same_node(p, q, k, top),
    ensures
        p.x >> (k as u32) == q.x >> (k as u32),
        p.y >> (k as u32) == q.y >> (k as u32),
        p.z >> (k as u32) == q.z >> (k as u32),
    decreases top - k,
{
    if k == top {
        lemma_below_shift_zero(p.x, top as u32);
        lemma_below_shift_zero(p.y, top as u32);
        lemma_below_shift_zero(p.z, top as u32);
        lemma_below_shift_zero(q.x, top as u32);
        lemma_below_shift_zero(q.y, top as u32);
        lemma_below_shift_zero(q.z, top as u32);
    } else {
        assert(same_node(p, q, k + 1, top));
        lemma_same_shift_from(p, q, k + 1, top);
        assert(octant_of(p, k as u32) == octant_of(q, k as u32));
        lemma_octant_coordinates(p.x, p.y, p.z, q.x, q.y, q.z, k as u32);
        assert((k + 1) as u32 == (k as u32) + 1);
        lemma_shift_step(p.x, q.x, k as u32);
        lemma_shift_step(p.y, q.y, k as u32);
        lemma_shift_step(p.z, q.z, k as u32);
    }
}

/// Within the cube, the node on level 0 is a single cell.
pub proof fn lemma_same_cell(p: UVec3, q: UVec3, top: int)
    requires
        0 <= top <= 8,
        in_cube(p, top),
        in_cube(q, top),
        same_node(p, q, 0, top),
    ensures
        p == q,
{
    lemma_same_shift_from(p, q, 0, top);
    lemma_shift_zero(p.x);
    lemma_shift_zero(p.y);
    lemma_shift_zero(p.z);
    lemma_shift_zero(q.x);
    lemma_shift_zero(q.y);
    lemma_shift_zero(q.z);
}

/// Within the cube, distinct cells have distinct keys on level 0.
pub proof fn lemma_cell_keys_distinct(p: UVec3, q: UVec3, top: int)
    requires
        0 <= top <= 8,
        in_cube(p, top),
        in_cube(q, top),
        key_of(p, 0) == key_of(q, 0),
    ensures
        p == q,
{
    lemma_cube_coordinate_byte(p.x, top as u32);
    lemma_cube_coordinate_byte(p.y, top as u32);
    lemma_cube_coordinate_byte(p.z, top as u32);
    lemma_cube_coordinate_byte(q.x, top as u32);
    lemma_cube_coordinate_byte(q.y, top as u32);
    lemma_cube_coordinate_byte(q.z, top as u32);
    lemma_byte_key(p.x, q.x);
    lemma_byte_key(p.y, q.y);
    lemma_byte_key(p.z, q.z);
}

} // verus!
