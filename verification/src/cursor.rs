use vstd::prelude::*;
use vstd::arithmetic::power::pow;
use crate::vector::UVec3;

verus! {

/// Number of nodes of a complete octree whose leaves lie `depth` levels
/// below its root; zero for a negative depth.
pub open spec fn tree_size(depth: int) -> nat
    decreases depth,
{
    if depth < 0 {
        0
    } else if depth == 0 {
        1
    } else {
        8 * tree_size(depth - 1) + 1
    }
}

/// The sum `8^0 + 8^1 + ... + 8^depth`.
pub open spec fn geometric_sum(depth: nat) -> int
    decreases depth,
{
    if depth == 0 {
        1
    } else {
        geometric_sum((depth - 1) as nat) + pow(8, depth)
    }
}

proof fn lemma_pow8_step(e: nat)
    ensures
        pow(8, e + 1) == 8 * pow(8, e),
{
    reveal(pow);
    assert(pow(8, e + 1) == 8 * pow(8, ((e + 1) - 1) as nat));
}

/// `tree_size(depth) == (8^(depth+1) - 1) / 7`, stated without the division.
pub proof fn lemma_tree_size_closed_form(depth: nat)
    ensures
        7 * tree_size(depth as int) + 1 == pow(8, depth + 1),
    decreases depth,
{
    lemma_pow8_step(depth);
    reveal(pow);
    if depth == 0 {
        assert(pow(8, 0) == 1);
    } else {
        lemma_tree_size_closed_form((depth - 1) as nat);
    }
}

/// The number of nodes of a complete octree is the geometric sum of the
/// number of nodes on each of its levels.
pub proof fn lemma_tree_size_is_geometric_sum(depth: nat)
    ensures
        tree_size(depth as int) == geometric_sum(depth),
    decreases depth,
{
    if depth > 0 {
        lemma_tree_size_is_geometric_sum((depth - 1) as nat);
        lemma_tree_size_closed_form((depth - 1) as nat);
    }
}

pub proof fn lemma_tree_size_bound(depth: int)
    requires
        depth <= 9,
    ensures
        tree_size(depth) <= 153391689,
        tree_size(depth) <= tree_size(9),
    decreases 9 - depth,
{
    reveal_with_fuel(tree_size, 11);
    if depth < 9 {
        lemma_tree_size_bound(depth + 1);
    }
}

/// Returns the number of nodes in the tree with the given depth.
///
/// Equal to \sum_{d=0}^{D} 8^{d} = \frac{8^{D+1}-1}{7}
pub fn tree_len(depth: u32) -> (r: u32)
    requires
        depth <= 9,
    ensures
        r == tree_size(depth as int),
{
    // 8^(depth + 1)
    let mut p: u32 = 1;
    let mut i: u32 = 0;
    proof {
        reveal(pow);
    }
    while i < depth + 1
        invariant
            depth <= 9,
            i <= depth + 1,
            p == pow(8, i as nat),
        decreases depth + 1 - i,
    {
        proof {
            lemma_pow8_step(i as nat);
            lemma_tree_size_closed_form(i as nat);
            lemma_tree_size_bound(i as int);
        }
        p = p * 8;
        i = i + 1;
    }
    proof {
        lemma_tree_size_closed_form(depth as nat);
    }
    (p - 1) / 7
}

/// The octant (0..8) of `pos` within its node on `level + 1`: bit `level`
/// of x, y and z, packed as x | y << 1 | z << 2.
pub open spec fn octant_of(pos: UVec3, level: u32) -> u32 {
    ((pos.x >> level) & 1u32) | (((pos.y >> level) & 1u32) << 1u32) | (((pos.z >> level) & 1u32) << 2u32)
}

pub proof fn lemma_octant_of_bound(x: u32, y: u32, z: u32, level: u32)
    by (bit_vector)
    ensures
        ((x >> level) & 1u32) | (((y >> level) & 1u32) << 1u32) | (((z >> level) & 1u32) << 2u32) < 8,
{
}

/// Returns the octant of `pos` on `level`.
pub fn get_octant(pos: UVec3, level: u32) -> (r: u32)
    requires
        level < 32,
    ensures
        r == octant_of(pos, level),
        r < 8,
{
    proof {
        lemma_octant_of_bound(pos.x, pos.y, pos.z, level);
    }
    let x = (pos.x >> level) & 1;
    let y = (pos.y >> level) & 1;
    let z = (pos.z >> level) & 1;
    x | y << 1 | z << 2
}

/// The key under which the value of the node of `pos` on `level` is stored:
/// the node's coordinates on that level, then the level.
pub open spec fn key_of(pos: UVec3, level: u32) -> (u8, u8, u8, u8) {
    ((pos.x >> level) as u8, (pos.y >> level) as u8, (pos.z >> level) as u8, level as u8)
}

proof fn lemma_shifted_byte(x: u32, l: u32)
    by (bit_vector)
    requires
        x < 256,
        l <= 8,
    ensures
        x >> l < 256,
{
}

/// For coordinates below 256 and levels up to 8, two nodes on one level
/// share a key exactly when their shifted coordinates agree, and nodes on
/// different levels never share a key.
pub proof fn law_key_names_one_node(p: UVec3, l: u32, q: UVec3, m: u32)
    requires
        p.x < 256 && p.y < 256 && p.z < 256,
        q.x < 256 && q.y < 256 && q.z < 256,
        l <= 8,
        m <= 8,
    ensures
        l == m ==> (key_of(p, l) == key_of(q, m) <==> (p.x >> l == q.x >> l && p.y >> l == q.y >> l && p.z >> l
            == q.z >> l)),
        l != m ==> key_of(p, l) != key_of(q, m),
{
    lemma_shifted_byte(p.x, l);
    lemma_shifted_byte(p.y, l);
    lemma_shifted_byte(p.z, l);
    lemma_shifted_byte(q.x, m);
    lemma_shifted_byte(q.y, m);
    lemma_shifted_byte(q.z, m);
}

/// Tracks the `level` we're on and the `octant` of `pos` in the level.
#[derive(Clone, Copy, PartialEq, Eq, Debug)]
pub struct LevelCursor<'a> {
    pub level: u32,
    pub pos: &'a UVec3,
    pub octant: u32,
}

impl<'a> LevelCursor<'a> {
    /// The cursor agrees with its position: `octant` is the octant of `pos`
    /// on `level`.
    pub open spec fn wf(self) -> bool {
        &&& self.level < 32
        &&& self.octant == octant_of(*self.pos, self.level)
    }

    pub fn root(depth: u32, pos: &'a UVec3) -> (r: Self)
        ensures
            r.level == depth,
            r.pos == pos,
            r.octant == 0,
    {
        LevelCursor {
            // The octant of `pos` in the root level is always 0.
            octant: 0,
            level: depth,
            pos,
        }
    }

    pub fn key(&self) -> (r: (u8, u8, u8, u8))
        requires
            self.level < 32,
        ensures
            r == key_of(*self.pos, self.level),
    {
        node_key(*self.pos, self.level)
    }

    pub fn descend(&mut self)
        requires
            1 <= old(self).level < 33,
        ensures
            final(self).level == old(self).level - 1,
            final(self).pos == old(self).pos,
            final(self).octant == octant_of(*old(self).pos, final(self).level),
            final(self).wf(),
    {
        self.level -= 1;
        self.octant = get_octant(*self.pos, self.level);
    }

    pub fn descended(self) -> (r: Self)
        requires
            1 <= self.level < 33,
        ensures
            r.level == self.level - 1,
            r.pos == self.pos,
            r.octant == octant_of(*self.pos, r.level),
            r.wf(),
    {
        let mut c = self;
        c.descend();
        c
    }

    pub fn ascend(&mut self)
        requires
            old(self).level < 31,
        ensures
            final(self).level == old(self).level + 1,
            final(self).pos == old(self).pos,
            final(self).octant == octant_of(*old(self).pos, final(self).level),
            final(self).wf(),
    {
        self.level += 1;
        self.octant = get_octant(*self.pos, self.level);
    }

    pub fn ascended(self) -> (r: Self)
        requires
            self.level < 31,
        ensures
            r.level == self.level + 1,
            r.pos == self.pos,
            r.octant == octant_of(*self.pos, r.level),
            r.wf(),
    {
        let mut c = self;
        c.ascend();
        c
    }
}

/// Returns the key of the node of `pos` on `level`.
pub fn node_key(pos: UVec3, level: u32) -> (r: (u8, u8, u8, u8))
    requires
        level < 32,
    ensures
        r == key_of(pos, level),
{
    let level8 = level as u8;
    ((pos.x >> level) as u8, (pos.y >> level) as u8, (pos.z >> level) as u8, level8)
}

/// Tracks the `index` and `tree_len` of the level we're on.
#[derive(Clone, Copy, PartialEq, Eq, PartialOrd, Ord, Debug)]
pub struct TreeCursor {
    pub index: u32,
    pub tree_len: u32,
}

impl TreeCursor {
    /// The cursor after moving to child `octant`.
    pub open spec fn child(self, octant: u32) -> TreeCursor {
        let len = ((self.tree_len - 1) / 8) as u32;
        TreeCursor { index: (self.index + 1 + octant * len) as u32, tree_len: len }
    }

    /// The cursor after moving from child `octant` to its parent.
    pub open spec fn parent(self, octant: u32) -> TreeCursor {
        TreeCursor { index: (self.index - 1 - octant * self.tree_len) as u32, tree_len: (self.tree_len * 8 + 1) as u32 }
    }

    pub fn root(depth: u32) -> (r: Self)
        requires
            depth <= 9,
        ensures
            r.index == 0,
            r.tree_len == tree_size(depth as int),
    {
        TreeCursor { index: 0, tree_len: tree_len(depth) }
    }

    pub fn descend(&mut self, child: &LevelCursor)
        requires
            old(self).tree_len >= 1,
            old(self).index + 1 + child.octant * ((old(self).tree_len - 1) / 8) <= u32::MAX,
        ensures
            *final(self) == old(self).child(child.octant),
    {
        self.tree_len = (self.tree_len - 1) / 8;
        proof {
            assert(child.octant * self.tree_len <= u32::MAX - 1 - old(self).index);
        }
        self.index += 1 + child.octant * self.tree_len;
    }

    pub fn descended(self, child: &LevelCursor) -> (r: Self)
        requires
            self.tree_len >= 1,
            self.index + 1 + child.octant * ((self.tree_len - 1) / 8) <= u32::MAX,
        ensures
            r == self.child(child.octant),
    {
        let mut c = self;
        c.descend(child);
        c
    }

    pub fn ascend(&mut self, this: &LevelCursor)
        requires
            old(self).index >= 1 + this.octant * old(self).tree_len,
            old(self).tree_len * 8 + 1 <= u32::MAX,
        ensures
            *final(self) == old(self).parent(this.octant),
    {
        proof {
            assert(this.octant * self.tree_len <= self.index - 1);
        }
        self.index -= 1 + this.octant * self.tree_len;
        self.tree_len = self.tree_len * 8 + 1;
    }

    pub fn ascended(self, this: &LevelCursor) -> (r: Self)
        requires
            self.index >= 1 + this.octant * self.tree_len,
            self.tree_len * 8 + 1 <= u32::MAX,
        ensures
            r == self.parent(this.octant),
    {
        let mut c = self;
        c.ascend(this);
        c
    }
}

/// Moving to a child and back to the parent returns to the same node, for a
/// node whose subtree is a complete octree of depth at least one.
pub proof fn lemma_child_then_parent(c: TreeCursor, depth: int, octant: u32)
    requires
        1 <= depth <= 9,
        c.tree_len == tree_size(depth),
        octant < 8,
        c.index + tree_size(depth) <= tree_size(9),
    ensures
        c.child(octant).tree_len == tree_size(depth - 1),
        c.child(octant).index == c.index + 1 + octant * tree_size(depth - 1),
        c.child(octant).parent(octant) == c,
{
    lemma_tree_size_bound(depth);
    lemma_tree_size_bound(depth - 1);
    lemma_tree_size_bound(9);
    assert(tree_size(depth) == 8 * tree_size(depth - 1) + 1);
    let len = tree_size(depth - 1);
    assert(octant * len <= 7 * len) by (nonlinear_arith)
        requires octant < 8;
    assert((c.tree_len - 1) / 8 == len);
    let ch = c.child(octant);
    assert(ch.tree_len == len);
    assert(ch.index == c.index + 1 + octant * len);
    assert(ch.parent(octant).index == c.index);
}

/// The indexes that a walk records when it visits the node at cursor `c`
/// and then, where `k > 0`, the subtrees of its eight children in octant
/// order, each with `k - 1` levels below it.
pub open spec fn visit_indexes(c: TreeCursor, k: nat) -> Seq<int>
    decreases k, 0nat,
{
    if k == 0 {
        seq![c.index as int]
    } else {
        seq![c.index as int] + children_indexes(c, (k - 1) as nat, 8)
    }
}

/// The indexes that the walks through the first `n` children of `c` record,
/// each child with `k` levels below it.
pub open spec fn children_indexes(c: TreeCursor, k: nat, n: nat) -> Seq<int>
    decreases k, n,
{
    if n == 0 {
        Seq::empty()
    } else {
        children_indexes(c, k, (n - 1) as nat) + visit_indexes(c.child((n - 1) as u32), k)
    }
}

proof fn lemma_visit_indexes(c: TreeCursor, k: nat)
    requires
        k <= 9,
        c.tree_len == tree_size(k as int),
        c.index + tree_size(k as int) <= tree_size(9),
    ensures
        visit_indexes(c, k) == Seq::new(tree_size(k as int), |i: int| c.index + i),
    decreases k, 0nat,
{
    if k > 0 {
        let km = (k - 1) as nat;
        lemma_children_indexes(c, km, 8);
        assert(tree_size(k as int) == 8 * tree_size(km as int) + 1);
        assert(visit_indexes(c, k) =~= Seq::new(tree_size(k as int), |i: int| c.index + i));
    } else {
        assert(visit_indexes(c, k) =~= Seq::new(tree_size(k as int), |i: int| c.index + i));
    }
}

proof fn lemma_children_indexes(c: TreeCursor, k: nat, n: nat)
    requires
        k + 1 <= 9,
        n <= 8,
        c.tree_len == tree_size(k as int + 1),
        c.index + tree_size(k as int + 1) <= tree_size(9),
    ensures
        children_indexes(c, k, n) == Seq::new(n * tree_size(k as int), |i: int| c.index + 1 + i),
    decreases k, n,
{
    if n > 0 {
        let m = (n - 1) as nat;
        let s = tree_size(k as int);
        lemma_children_indexes(c, k, m);
        lemma_child_then_parent(c, k as int + 1, m as u32);
        let ch = c.child(m as u32);
        assert(m * s + s == n * s) by (nonlinear_arith)
            requires m == n - 1;
        assert(m * s <= 7 * s) by (nonlinear_arith)
            requires m < 8;
        assert(tree_size(k as int + 1) == 8 * s + 1);
        lemma_visit_indexes(ch, k);
        let a = children_indexes(c, k, m);
        let b = visit_indexes(ch, k);
        assert(ch.index == c.index + 1 + m * s);
        assert(children_indexes(c, k, n) == a + b);
        assert forall|i: int| 0 <= i < n * s implies #[trigger] (a + b)[i] == c.index + 1 + i by {
            if i >= m * s {
                assert((a + b)[i] == b[i - m * s]);
            } else {
                assert((a + b)[i] == a[i]);
            }
        }
        assert(children_indexes(c, k, n) =~= Seq::new(n * s, |i: int| c.index + 1 + i));
    } else {
        assert(n * tree_size(k as int) == 0) by (nonlinear_arith)
            requires n == 0;
        assert(children_indexes(c, k, n) == Seq::<int>::empty());
        assert(children_indexes(c, k, n) =~= Seq::new(n * tree_size(k as int), |i: int| c.index + 1 + i));
    }
}

/// A walk that starts at the root cursor of a complete octree of depth
/// `depth` and descends into every child visits every index of the tree
/// exactly once, in increasing order.
pub proof fn law_visit_covers_each_index_once(depth: nat)
    requires
        depth <= 9,
    ensures
        visit_indexes(TreeCursor { index: 0, tree_len: tree_size(depth as int) as u32 }, depth)
            == Seq::new(tree_size(depth as int), |i: int| i),
{
    lemma_tree_size_bound(depth as int);
    let c = TreeCursor { index: 0, tree_len: tree_size(depth as int) as u32 };
    lemma_visit_indexes(c, depth);
    assert(Seq::new(tree_size(depth as int), |i: int| c.index + i) =~= Seq::new(tree_size(depth as int), |i: int| i));
}

} // verus!
