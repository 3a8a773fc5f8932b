use vstd::prelude::*;
use ndshape::{RuntimeShape, Shape};
use crate::vector::{IVec2, UVec2};

verus! {

broadcast use vstd::array::group_array_axioms;

/// The number of cells of a shape with dimensions `dims`.
pub open spec fn shape_size(dims: [u32; 2]) -> int {
    dims[0] * dims[1]
}

/// The index of `p` in a shape of width `dims[0]`, rows one after another.
pub open spec fn shape_index(dims: [u32; 2], p: [u32; 2]) -> int {
    p[0] + dims[0] * p[1]
}

/// `RuntimeShape::linearize`: the index of `p` in a shape of dimensions
/// `dims`.
#[verifier::external_body]
fn shape_linearize(dims: [u32; 2], p: [u32; 2]) -> (r: u32)
    requires
        shape_size(dims) <= u32::MAX,
        shape_index(dims, p) <= u32::MAX,
    ensures
        r == shape_index(dims, p),
{
    RuntimeShape::<u32, 2>::new(dims).linearize(p)
}

/// `RuntimeShape::delinearize`: the position at index `i` in a shape of
/// dimensions `dims`.
#[verifier::external_body]
fn shape_delinearize(dims: [u32; 2], i: u32) -> (r: [u32; 2])
    requires
        shape_size(dims) <= u32::MAX,
        dims[0] > 0,
    ensures
        r[0] == i % dims[0],
        r[1] == i / dims[0],
{
    RuntimeShape::<u32, 2>::new(dims).delinearize(i)
}

proof fn lemma_index_in_shape(dims: [u32; 2], p: [u32; 2])
    requires
        p[0] < dims[0],
        p[1] < dims[1],
    ensures
        0 <= shape_index(dims, p) < shape_size(dims),
{
    assert(p[0] + dims[0] * p[1] < dims[0] * dims[1]) by (nonlinear_arith)
        requires p[0] < dims[0], p[1] < dims[1];
    assert(0 <= dims[0] * p[1]) by (nonlinear_arith);
}

proof fn lemma_position_in_shape(dims: [u32; 2], i: int)
    requires
        0 <= i < shape_size(dims),
        dims[0] > 0,
    ensures
        i % (dims[0] as int) < dims[0],
        i / (dims[0] as int) < dims[1],
        (i % (dims[0] as int)) + dims[0] * (i / (dims[0] as int)) == i,
{
    let w = dims[0] as int;
    assert(i == w * (i / w) + i % w && 0 <= i % w < w) by (nonlinear_arith)
        requires w > 0, i >= 0;
    assert(i / w < dims[1]) by (nonlinear_arith)
        requires w > 0, 0 <= i < w * dims[1], i == w * (i / w) + i % w, 0 <= i % w;
}

/// The index and position of every cell of a shape, row by row.
pub fn iter_tuple_idx_pos(shape: &[u32; 2]) -> (r: Vec<(u32, UVec2)>)
    requires
        shape_size(*shape) <= u32::MAX,
    ensures
        r@.len() == shape_size(*shape),
        forall|k: int| 0 <= k < r@.len() ==> #[trigger] r@[k] == (k as u32, UVec2 { x: (k % (shape[0] as int)) as u32, y: (k / (shape[0] as int)) as u32 }),
{
    let x_len = shape[0];
    let y_len = shape[1];
    let mut r: Vec<(u32, UVec2)> = Vec::new();
    for y in 0..y_len
        invariant
            x_len == shape[0],
            y_len == shape[1],
            shape_size(*shape) <= u32::MAX,
            r@.len() == x_len * y,
            forall|k: int| 0 <= k < r@.len() ==> #[trigger] r@[k] == (k as u32, UVec2 { x: (k % (shape[0] as int)) as u32, y: (k / (shape[0] as int)) as u32 }),
    {
        for x in 0..x_len
            invariant
                x_len == shape[0],
                y_len == shape[1],
                y < y_len,
                shape_size(*shape) <= u32::MAX,
                r@.len() == x_len * y + x,
                forall|k: int| 0 <= k < r@.len() ==> #[trigger] r@[k] == (k as u32, UVec2 { x: (k % (shape[0] as int)) as u32, y: (k / (shape[0] as int)) as u32 }),
        {
            proof {
                lemma_index_in_shape(*shape, [x, y]);
                assert((x + x_len * y) % (x_len as int) == x && (x + x_len * y) / (x_len as int) == y) by (nonlinear_arith)
                    requires x < x_len, 0 <= y;
            }
            let idx = shape_linearize(*shape, [x, y]);
            r.push((idx, UVec2::new(x, y)));
        }
        proof {
            assert(x_len * y + x_len == x_len * (y + 1)) by (nonlinear_arith);
        }
    }
    r
}

proof fn lemma_negative_as_u32(v: i32)
    by (bit_vector)
    requires
        v < 0,
    ensures
        v as u32 >= 0x8000_0000u32,
{
}

proof fn lemma_nonnegative_as_u32(v: i32)
    by (bit_vector)
    requires
        v >= 0,
    ensures
        v as u32 == v,
{
}

/// The smallest box of cells, at `r.0` with size `r.1`, holding every corner
/// cell: from the least of `floors` to the greatest of `ceils` on each axis.
pub fn destination_frame(floors: &[IVec2; 4], ceils: &[IVec2; 4]) -> (r: (IVec2, UVec2))
    requires
        forall|k: int| 0 <= k < 4 ==> (#[trigger] floors@[k]).x <= ceils@[k].x && floors@[k].y <= ceils@[k].y,
        forall|a: int, b: int| 0 <= a < 4 && 0 <= b < 4 ==> (#[trigger] ceils@[a]).x - (#[trigger] floors@[b]).x <= i32::MAX
            && ceils@[a].y - floors@[b].y <= i32::MAX,
    ensures
        forall|k: int| 0 <= k < 4 ==> r.0.x <= (#[trigger] floors@[k]).x && r.0.y <= floors@[k].y,
        exists|k: int| 0 <= k < 4 && r.0.x == (#[trigger] floors@[k]).x,
        exists|k: int| 0 <= k < 4 && r.0.y == (#[trigger] floors@[k]).y,
        forall|k: int| 0 <= k < 4 ==> (#[trigger] ceils@[k]).x <= r.0.x + r.1.x - 1 && ceils@[k].y <= r.0.y + r.1.y - 1,
        exists|k: int| 0 <= k < 4 && r.0.x + r.1.x - 1 == (#[trigger] ceils@[k]).x,
        exists|k: int| 0 <= k < 4 && r.0.y + r.1.y - 1 == (#[trigger] ceils@[k]).y,
{
    let mut min = IVec2::new(i32::MAX, i32::MAX);
    let mut max = IVec2::new(i32::MIN, i32::MIN);
    let ghost mut min_x_at: int = 0;
    let ghost mut min_y_at: int = 0;
    let ghost mut max_x_at: int = 0;
    let ghost mut max_y_at: int = 0;
    for k in 0..4usize
        invariant
            k == 0 ==> min.x == i32::MAX && min.y == i32::MAX && max.x == i32::MIN && max.y == i32::MIN,
            forall|j: int| 0 <= j < k ==> min.x <= (#[trigger] floors@[j]).x && min.y <= floors@[j].y,
            forall|j: int| 0 <= j < k ==> (#[trigger] ceils@[j]).x <= max.x && ceils@[j].y <= max.y,
            k > 0 ==> 0 <= min_x_at < k && min.x == floors@[min_x_at].x,
            k > 0 ==> 0 <= min_y_at < k && min.y == floors@[min_y_at].y,
            k > 0 ==> 0 <= max_x_at < k && max.x == ceils@[max_x_at].x,
            k > 0 ==> 0 <= max_y_at < k && max.y == ceils@[max_y_at].y,
    {
        let floor = floors[k];
        let ceil = ceils[k];
        if floor.x <= min.x {
            min.x = floor.x;
            proof { min_x_at = k as int; }
        }
        if floor.y <= min.y {
            min.y = floor.y;
            proof { min_y_at = k as int; }
        }
        if ceil.x >= max.x {
            max.x = ceil.x;
            proof { max_x_at = k as int; }
        }
        if ceil.y >= max.y {
            max.y = ceil.y;
            proof { max_y_at = k as int; }
        }
    }
    assert(floors@[0].x <= ceils@[0].x && floors@[0].y <= ceils@[0].y);
    assert(ceils@[max_x_at].x - floors@[min_x_at].x <= i32::MAX);
    assert(ceils@[max_y_at].y - floors@[min_y_at].y <= i32::MAX);
    let dst_origin = min;
    let span_x = max.x - min.x;
    let span_y = max.y - min.y;
    proof {
        lemma_nonnegative_as_u32(span_x);
        lemma_nonnegative_as_u32(span_y);
    }
    let dst_size = UVec2::new(span_x as u32 + 1, span_y as u32 + 1);
    (dst_origin, dst_size)
}

/// The indices, in the destination shape `dst_shape` placed at `dst_origin`,
/// of the four cells `points`.
pub fn destination_columns(points: &[IVec2; 4], dst_origin: IVec2, dst_shape: [u32; 2]) -> (r: [u32; 4])
    requires
        shape_size(dst_shape) <= u32::MAX,
        dst_shape[0] <= 0x8000_0000u32,
        dst_shape[1] <= 0x8000_0000u32,
        forall|k: int| 0 <= k < 4 ==> 0 <= (#[trigger] points@[k]).x - dst_origin.x < dst_shape[0]
            && 0 <= points@[k].y - dst_origin.y < dst_shape[1],
    ensures
        forall|k: int| 0 <= k < 4 ==> #[trigger] r@[k] == (points@[k].x - dst_origin.x) + dst_shape[0] * (points@[k].y - dst_origin.y),
{
    let mut columns: [u32; 4] = [0, 0, 0, 0];
    for k in 0..4usize
        invariant
            shape_size(dst_shape) <= u32::MAX,
            dst_shape[0] <= 0x8000_0000u32,
            dst_shape[1] <= 0x8000_0000u32,
            forall|j: int| 0 <= j < 4 ==> 0 <= (#[trigger] points@[j]).x - dst_origin.x < dst_shape[0]
                && 0 <= points@[j].y - dst_origin.y < dst_shape[1],
            forall|j: int| 0 <= j < k ==> #[trigger] columns@[j] == (points@[j].x - dst_origin.x) + dst_shape[0] * (points@[j].y - dst_origin.y),
    {
        let p = points[k];
        let lx = p.x - dst_origin.x;
        let ly = p.y - dst_origin.y;
        proof {
            lemma_nonnegative_as_u32(lx);
            lemma_nonnegative_as_u32(ly);
            lemma_index_in_shape(dst_shape, [lx as u32, ly as u32]);
        }
        columns[k] = shape_linearize(dst_shape, [lx as u32, ly as u32]);
    }
    columns
}

/// An assignment of source cells to destination cells, one to one.
pub struct Solution {
    src_to_dst: Vec<u32>,
    dst_to_src: Vec<u32>,
    src_shape: [u32; 2],
    dst_shape: [u32; 2],
    dst_origin: IVec2,
}

impl Solution {
    /// The assignment's parts: source to destination indices, destination to
    /// source indices, the two shapes, and where the destination starts.
    pub closed spec fn parts(self) -> (Seq<u32>, Seq<u32>, [u32; 2], [u32; 2], IVec2) {
        (self.src_to_dst@, self.dst_to_src@, self.src_shape, self.dst_shape, self.dst_origin)
    }

    /// For each source index, the destination index assigned to it.
    pub open spec fn src_table(self) -> Seq<u32> {
        self.parts().0
    }

    /// For each destination index, the source index assigned to it, or
    /// `u32::MAX` where there is none.
    pub open spec fn dst_table(self) -> Seq<u32> {
        self.parts().1
    }

    /// The dimensions of the source shape.
    pub open spec fn src_dims(self) -> [u32; 2] {
        self.parts().2
    }

    /// The dimensions of the destination shape.
    pub open spec fn dst_dims(self) -> [u32; 2] {
        self.parts().3
    }

    /// Where the destination shape starts.
    pub open spec fn origin(self) -> IVec2 {
        self.parts().4
    }

    /// The assignment fits its shapes: every source cell goes to a
    /// destination cell, every destination cell comes from a source cell or
    /// from none (`u32::MAX`), and the destination lies within `i32`
    /// coordinates.
    pub open spec fn wf(self) -> bool {
        Self::consistent(self.src_table(), self.dst_table(), self.src_dims(), self.dst_dims(), self.origin())
    }

    /// The parts of an assignment fit together; see `wf`.
    pub open spec fn consistent(
        src_to_dst: Seq<u32>,
        dst_to_src: Seq<u32>,
        src_shape: [u32; 2],
        dst_shape: [u32; 2],
        dst_origin: IVec2,
    ) -> bool {
        &&& src_shape[0] > 0
        &&& src_shape[1] > 0
        &&& dst_shape[0] > 0
        &&& dst_shape[1] > 0
        &&& shape_size(src_shape) <= u32::MAX
        &&& shape_size(dst_shape) <= u32::MAX
        &&& dst_shape[0] <= 0x8000_0000u32
        &&& dst_shape[1] <= 0x8000_0000u32
        &&& dst_origin.x + dst_shape[0] - 1 <= i32::MAX
        &&& dst_origin.y + dst_shape[1] - 1 <= i32::MAX
        &&& src_to_dst.len() == shape_size(src_shape)
        &&& dst_to_src.len() == shape_size(dst_shape)
        &&& forall|i: int| 0 <= i < src_to_dst.len() ==> #[trigger] src_to_dst[i] < shape_size(dst_shape)
        &&& forall|i: int| 0 <= i < dst_to_src.len() ==> #[trigger] dst_to_src[i] < shape_size(src_shape)
            || dst_to_src[i] == u32::MAX
    }

    /// The destination cell of source cell `pos`, if `pos` lies in the
    /// source shape.
    pub open spec fn spec_src_to_dst(self, pos: UVec2) -> Option<IVec2> {
        if pos.x < self.src_dims()[0] && pos.y < self.src_dims()[1] {
            let d = self.src_table()[shape_index(self.src_dims(), [pos.x, pos.y])] as int;
            let w = self.dst_dims()[0] as int;
            Some(IVec2 { x: (d % w + self.origin().x) as i32, y: (d / w + self.origin().y) as i32 })
        } else {
            None
        }
    }

    /// The source cell assigned to destination cell `pos`, if `pos` lies in
    /// the destination and a source cell is assigned to it.
    pub open spec fn spec_dst_to_src(self, pos: IVec2) -> Option<UVec2> {
        let lx = pos.x - self.origin().x;
        let ly = pos.y - self.origin().y;
        if 0 <= lx < self.dst_dims()[0] && 0 <= ly < self.dst_dims()[1] {
            let s = self.dst_table()[lx + self.dst_dims()[0] * ly] as int;
            let w = self.src_dims()[0] as int;
            if s == u32::MAX as int {
                None
            } else {
                Some(UVec2 { x: (s % w) as u32, y: (s / w) as u32 })
            }
        } else {
            None
        }
    }

    /// Whether the parts fit together as an assignment.
    pub fn is_consistent(
        src_to_dst: &Vec<u32>,
        dst_to_src: &Vec<u32>,
        src_shape: [u32; 2],
        dst_shape: [u32; 2],
        dst_origin: IVec2,
    ) -> (r: bool)
        ensures
            r == Self::consistent(src_to_dst@, dst_to_src@, src_shape, dst_shape, dst_origin),
    {
        if src_shape[0] == 0 || src_shape[1] == 0 || dst_shape[0] == 0 || dst_shape[1] == 0 {
            return false;
        }
        proof {
            assert(src_shape[0] * src_shape[1] <= u64::MAX) by (nonlinear_arith)
                requires src_shape[0] <= u32::MAX, src_shape[1] <= u32::MAX;
            assert(dst_shape[0] * dst_shape[1] <= u64::MAX) by (nonlinear_arith)
                requires dst_shape[0] <= u32::MAX, dst_shape[1] <= u32::MAX;
        }
        let src_size = src_shape[0] as u64 * src_shape[1] as u64;
        let dst_size = dst_shape[0] as u64 * dst_shape[1] as u64;
        if src_size > u32::MAX as u64 || dst_size > u32::MAX as u64 {
            return false;
        }
        if dst_shape[0] > 0x8000_0000u32 || dst_shape[1] > 0x8000_0000u32 {
            return false;
        }
        if dst_origin.x as i64 + dst_shape[0] as i64 - 1 > i32::MAX as i64
            || dst_origin.y as i64 + dst_shape[1] as i64 - 1 > i32::MAX as i64 {
            return false;
        }
        if src_to_dst.len() as u64 != src_size || dst_to_src.len() as u64 != dst_size {
            return false;
        }
        for i in 0..src_to_dst.len()
            invariant
                dst_size == shape_size(dst_shape),
                forall|j: int| 0 <= j < i ==> #[trigger] src_to_dst@[j] < shape_size(dst_shape),
        {
            if src_to_dst[i] as u64 >= dst_size {
                return false;
            }
        }
        for i in 0..dst_to_src.len()
            invariant
                src_size == shape_size(src_shape),
                forall|j: int| 0 <= j < i ==> #[trigger] dst_to_src@[j] < shape_size(src_shape) || dst_to_src@[j] == u32::MAX,
        {
            if dst_to_src[i] as u64 >= src_size && dst_to_src[i] != u32::MAX {
                return false;
            }
        }
        true
    }

    /// Puts an assignment together from its parts.
    pub fn new(
        src_to_dst: Vec<u32>,
        dst_to_src: Vec<u32>,
        src_shape: [u32; 2],
        dst_shape: [u32; 2],
        dst_origin: IVec2,
    ) -> (r: Self)
        requires
            Self::consistent(src_to_dst@, dst_to_src@, src_shape, dst_shape, dst_origin),
        ensures
            r.wf(),
            r.src_table() == src_to_dst@,
            r.dst_table() == dst_to_src@,
            r.src_dims() == src_shape,
            r.dst_dims() == dst_shape,
            r.origin() == dst_origin,
    {
        Solution { src_to_dst, dst_to_src, src_shape, dst_shape, dst_origin }
    }

    /// The destination cell of source cell `pos`; `None` where `pos` lies
    /// outside the source shape.
    pub fn src_to_dst(&self, pos: UVec2) -> (r: Option<IVec2>)
        requires
            self.wf(),
        ensures
            r == self.spec_src_to_dst(pos),
            r is None <==> !(pos.x < self.src_dims()[0] && pos.y < self.src_dims()[1]),
    {
        if !(pos.x < self.src_shape[0] && pos.y < self.src_shape[1]) {
            return None;
        }
        proof {
            lemma_index_in_shape(self.src_shape, [pos.x, pos.y]);
        }
        let src_idx = shape_linearize(self.src_shape, [pos.x, pos.y]) as usize;
        let dst_idx = self.src_to_dst[src_idx];
        proof {
            lemma_position_in_shape(self.dst_shape, dst_idx as int);
        }
        let local_pos = shape_delinearize(self.dst_shape, dst_idx);
        let pos = IVec2::new(local_pos[0] as i32 + self.dst_origin.x, local_pos[1] as i32 + self.dst_origin.y);
        Some(pos)
    }

    /// The source cell assigned to destination cell `pos`; `None` where
    /// `pos` lies outside the destination or no source cell is assigned to
    /// it.
    pub fn dst_to_src(&self, pos: IVec2) -> (r: Option<UVec2>)
        requires
            self.wf(),
            i32::MIN <= pos.x - self.origin().x <= i32::MAX,
            i32::MIN <= pos.y - self.origin().y <= i32::MAX,
        ensures
            r == self.spec_dst_to_src(pos),
    {
        let dx = pos.x - self.dst_origin.x;
        let dy = pos.y - self.dst_origin.y;
        proof {
            if dx < 0 { lemma_negative_as_u32(dx); } else { lemma_nonnegative_as_u32(dx); }
            if dy < 0 { lemma_negative_as_u32(dy); } else { lemma_nonnegative_as_u32(dy); }
        }
        let local_pos = UVec2::new(dx as u32, dy as u32);
        if !(local_pos.x < self.dst_shape[0] && local_pos.y < self.dst_shape[1]) {
            return None;
        }
        proof {
            lemma_index_in_shape(self.dst_shape, [local_pos.x, local_pos.y]);
        }
        let dst_idx = shape_linearize(self.dst_shape, [local_pos.x, local_pos.y]) as usize;
        let src_idx = self.dst_to_src[dst_idx];
        // dst_cells are not guaranteed to map to src_cells
        if src_idx == u32::MAX {
            return None;
        }
        proof {
            lemma_position_in_shape(self.src_shape, src_idx as int);
        }
        let local = shape_delinearize(self.src_shape, src_idx);
        let pos = UVec2::new(local[0], local[1]);
        Some(pos)
    }

    /// The two tables undo each other: the destination of every source cell
    /// maps back to that cell, and the source of every assigned destination
    /// cell maps forward to that cell.
    pub open spec fn one_to_one(self) -> bool {
        &&& forall|i: int| 0 <= i < self.src_table().len()
            ==> self.dst_table()[#[trigger] self.src_table()[i] as int] == i
        &&& forall|j: int| 0 <= j < self.dst_table().len() && #[trigger] self.dst_table()[j] != u32::MAX
            ==> self.src_table()[self.dst_table()[j] as int] == j
    }

    /// Whether the two tables undo each other.
    pub fn is_one_to_one(&self) -> (r: bool)
        requires
            self.wf(),
        ensures
            r == self.one_to_one(),
    {
        for i in 0..self.src_to_dst.len()
            invariant
                self.wf(),
                forall|k: int| 0 <= k < i ==> self.dst_table()[#[trigger] self.src_table()[k] as int] == k,
        {
            if self.dst_to_src[self.src_to_dst[i] as usize] as usize != i {
                return false;
            }
        }
        for j in 0..self.dst_to_src.len()
            invariant
                self.wf(),
                forall|k: int| 0 <= k < self.src_table().len() ==> self.dst_table()[#[trigger] self.src_table()[k] as int] == k,
                forall|k: int| 0 <= k < j && #[trigger] self.dst_table()[k] != u32::MAX
                    ==> self.src_table()[self.dst_table()[k] as int] == k,
        {
            let s = self.dst_to_src[j];
            if s != u32::MAX && self.src_to_dst[s as usize] as usize != j {
                return false;
            }
        }
        true
    }

    /// A source cell inside the source shape goes to a cell inside the
    /// destination frame, and the row-major index of that cell, counted from
    /// the origin, is the table's entry at the row-major index of the source
    /// cell: the order in which `iter_tuple_idx_pos` numbers source cells
    /// and `destination_columns` numbers destination cells.
    pub proof fn law_src_to_dst_reads_rows(self, pos: UVec2)
        requires
            self.wf(),
            pos.x < self.src_dims()[0],
            pos.y < self.src_dims()[1],
        ensures
            self.spec_src_to_dst(pos) is Some,
            ({
                let d = self.spec_src_to_dst(pos)->0;
                let lx = d.x - self.origin().x;
                let ly = d.y - self.origin().y;
                &&& 0 <= lx < self.dst_dims()[0]
                &&& 0 <= ly < self.dst_dims()[1]
                &&& lx + self.dst_dims()[0] * ly == self.src_table()[pos.x + self.src_dims()[0] * pos.y]
            }),
    {
        let idx = pos.x + self.src_shape[0] * pos.y;
        lemma_index_in_shape(self.src_shape, [pos.x, pos.y]);
        assert(idx == shape_index(self.src_dims(), [pos.x, pos.y]));
        let t = self.src_to_dst@[idx] as int;
        assert(self.src_table()[idx] == t);
        lemma_position_in_shape(self.dst_shape, t);
    }

    /// A destination cell inside the frame holds the table's entry at its
    /// row-major index counted from the origin: no source cell where that
    /// entry is `u32::MAX`, else the source cell with that row-major index.
    /// A cell outside the frame holds no source cell.
    pub proof fn law_dst_to_src_reads_rows(self, pos: IVec2)
        requires
            self.wf(),
        ensures
            !(0 <= pos.x - self.origin().x < self.dst_dims()[0] && 0 <= pos.y - self.origin().y < self.dst_dims()[1])
                ==> self.spec_dst_to_src(pos) is None,
            0 <= pos.x - self.origin().x < self.dst_dims()[0] && 0 <= pos.y - self.origin().y < self.dst_dims()[1]
                ==> ({
                let s = self.dst_table()[(pos.x - self.origin().x) + self.dst_dims()[0] * (pos.y - self.origin().y)];
                &&& (s == u32::MAX <==> self.spec_dst_to_src(pos) is None)
                &&& s != u32::MAX ==> {
                    let p = self.spec_dst_to_src(pos)->0;
                    &&& p.x < self.src_dims()[0]
                    &&& p.y < self.src_dims()[1]
                    &&& p.x + self.src_dims()[0] * p.y == s
                }
            }),
    {
        let lx = pos.x - self.dst_origin.x;
        let ly = pos.y - self.dst_origin.y;
        if 0 <= lx < self.dst_shape[0] && 0 <= ly < self.dst_shape[1] {
            lemma_index_in_shape(self.dst_shape, [lx as u32, ly as u32]);
            let j = lx + self.dst_shape[0] * ly;
            let s = self.dst_to_src@[j] as int;
            if s != u32::MAX as int {
                lemma_position_in_shape(self.src_shape, s);
            }
        }
    }

    /// Where the tables undo each other, mapping a source cell to its
    /// destination and back gives the cell again.
    pub proof fn law_round_trip(self, pos: UVec2)
        requires
            self.wf(),
            self.one_to_one(),
            self.spec_src_to_dst(pos) is Some,
        ensures
            i32::MIN <= self.spec_src_to_dst(pos)->0.x - self.origin().x <= i32::MAX,
            i32::MIN <= self.spec_src_to_dst(pos)->0.y - self.origin().y <= i32::MAX,
            self.spec_dst_to_src(self.spec_src_to_dst(pos)->0) == Some(pos),
    {
        let idx = shape_index(self.src_shape, [pos.x, pos.y]);
        lemma_index_in_shape(self.src_shape, [pos.x, pos.y]);
        let t = self.src_to_dst@[idx] as int;
        assert(self.src_table()[idx] == t);
        lemma_position_in_shape(self.dst_shape, t);
        let w = self.src_shape[0] as int;
        assert(idx % w == pos.x && idx / w == pos.y) by (nonlinear_arith)
            requires idx == pos.x + w * pos.y, 0 <= pos.x < w, 0 <= pos.y;
        assert(self.dst_to_src@[t] == idx);
    }

    /// Where the tables undo each other, mapping a destination cell to its
    /// source and back gives the destination cell again.
    pub proof fn law_reverse_round_trip(self, pos: IVec2)
        requires
            self.wf(),
            self.one_to_one(),
            self.spec_dst_to_src(pos) is Some,
        ensures
            self.spec_src_to_dst(self.spec_dst_to_src(pos)->0) == Some(pos),
    {
        let lx = pos.x - self.dst_origin.x;
        let ly = pos.y - self.dst_origin.y;
        lemma_index_in_shape(self.dst_shape, [lx as u32, ly as u32]);
        let j = lx + self.dst_shape[0] * ly;
        let s = self.dst_to_src@[j] as int;
        assert(self.dst_table()[j] != u32::MAX);
        lemma_position_in_shape(self.src_shape, s);
        assert(self.src_table()[s] == j);
        let w = self.dst_shape[0] as int;
        assert(j % w == lx && j / w == ly) by (nonlinear_arith)
            requires j == lx + w * ly, 0 <= lx < w, 0 <= ly;
    }
}

} // verus!
