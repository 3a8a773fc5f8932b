use vstd::prelude::*;
use ndshape::{ConstPow2Shape2usize, ConstShape};
use crate::vector::IVec2;
use crate::line::{abs, signum, toward, line_error, line_next, lemma_line_next, line_steps, step_cells, line_cells, line_fits};

verus! {

/// The state of one cell of the grid.
#[derive(Clone, Copy, PartialEq, Eq, Debug, Structural)]
pub enum GCell {
    IsSet,
    Unset,
}

pub const SIZE_LOG2: usize = 8;

pub const SIZE: usize = 256;

pub const SIZE_POW2: usize = 65536;

/// `pos` is a cell of the grid.
pub open spec fn in_grid(pos: IVec2) -> bool {
    0 <= pos.x < 256 && 0 <= pos.y < 256
}

/// Where cell `pos` is stored: rows of `SIZE` cells, one after another.
pub open spec fn cell_index(pos: IVec2) -> int {
    pos.x + 256 * pos.y
}

/// The cell stored at `index`.
pub open spec fn index_pos(index: int) -> IVec2 {
    IVec2 { x: (index % 256) as i32, y: (index / 256) as i32 }
}

pub proof fn lemma_index_pos(x: int, y: int)
    requires
        0 <= x < 256,
        0 <= y < 256,
    ensures
        (x + 256 * y) % 256 == x,
        (x + 256 * y) / 256 == y,
        index_pos(x + 256 * y) == (IVec2 { x: x as i32, y: y as i32 }),
        0 <= x + 256 * y < 65536,
{
    assert((x + 256 * y) % 256 == x && (x + 256 * y) / 256 == y) by (nonlinear_arith)
        requires 0 <= x < 256, 0 <= y < 256;
}

/// The storage index of cell `(x, y)` in a 256 by 256 grid, computed by
/// ndshape's power-of-two shape.
#[verifier::external_body]
fn linearize(x: usize, y: usize) -> (r: usize)
    requires
        x < 256,
        y < 256,
    ensures
        r == x + 256 * y,
{
    ConstPow2Shape2usize::<SIZE_LOG2, SIZE_LOG2>::linearize([x, y])
}

/// A square grid of `SIZE` by `SIZE` cells.
pub struct WorldGrid {
    pub data: Box<[GCell; SIZE_POW2]>,
}

impl WorldGrid {
    /// The state of cell `pos`.
    pub open spec fn cell(self, pos: IVec2) -> GCell {
        self.data@[cell_index(pos)]
    }

    /// The positions of the set cells among the first `n` stored cells, in
    /// storage order.
    pub open spec fn set_positions_before(self, n: int) -> Seq<IVec2>
        decreases n,
    {
        if n <= 0 {
            Seq::empty()
        } else if self.data@[n - 1] == GCell::IsSet {
            self.set_positions_before(n - 1).push(index_pos(n - 1))
        } else {
            self.set_positions_before(n - 1)
        }
    }

    /// The positions of all set cells, row by row.
    pub fn iter_set_positions(&self) -> (r: Vec<IVec2>)
        ensures
            r@ == self.set_positions_before(SIZE_POW2 as int),
    {
        let mut r: Vec<IVec2> = Vec::new();
        for y in 0..SIZE
            invariant
                r@ == self.set_positions_before(256 * y),
        {
            for x in 0..SIZE
                invariant
                    y < 256,
                    r@ == self.set_positions_before(256 * y + x),
            {
                let index = linearize(x, y);
                proof {
                    lemma_index_pos(x as int, y as int);
                }
                if self.data[index] == GCell::IsSet {
                    r.push(IVec2::new(x as i32, y as i32));
                }
            }
        }
        r
    }

    /// The state of cell `pos`.
    pub fn get(&self, pos: IVec2) -> (r: GCell)
        requires
            in_grid(pos),
        ensures
            r == self.cell(pos),
    {
        let index = linearize(pos.x as usize, pos.y as usize);
        self.data[index]
    }

    /// Sets cell `pos` to `to`.
    pub fn set(&mut self, pos: IVec2, to: GCell)
        requires
            in_grid(pos),
        ensures
            final(self).data@ == old(self).data@.update(cell_index(pos), to),
            forall|q: IVec2| in_grid(q) ==> #[trigger] final(self).cell(q) == if q == pos { to } else { old(self).cell(q) },
    {
        let index = linearize(pos.x as usize, pos.y as usize);
        self.data[index] = to;
    }
}

impl WorldGrid {
    /// Sets the cells of the line from `start` to `end` that lie on the grid
    /// to `to`.
    pub fn set_line(&mut self, start: IVec2, end: IVec2, to: GCell)
        requires
            line_fits(start, end),
        ensures
            forall|q: IVec2| in_grid(q) ==> #[trigger] final(self).cell(q)
                == if line_cells(start, end).contains((q.x as int, q.y as int)) { to } else { old(self).cell(q) },
    {
        let mut cell = start;
        let diff_x = end.x - cell.x;
        let diff_y = end.y - cell.y;
        let delta = IVec2::new(
            if diff_x < 0 { -diff_x } else { diff_x },
            if diff_y < 0 { -diff_y } else { diff_y },
        );
        let step = IVec2::new(
            if diff_x < 0 { -1 } else if diff_x > 0 { 1 } else { 0 },
            if diff_y < 0 { -1 } else if diff_y > 0 { 1 } else { 0 },
        );
        let mut error: i64 = delta.x as i64 - delta.y as i64;

        let ghost dx = delta.x as int;
        let ghost dy = delta.y as int;
        let ghost mut i: int = 0;
        let ghost mut j: int = 0;
        let ghost mut visited: Seq<(int, int)> = Seq::empty();
        proof {
            assert(line_error(dx, dy, 0, 0) == dx - dy) by (nonlinear_arith);
        }

        loop
            invariant_except_break
                line_steps(dx, dy, 0, 0) == visited + line_steps(dx, dy, i, j),
            invariant
                dx == abs(end.x - start.x),
                dy == abs(end.y - start.y),
                dx <= i32::MAX,
                dy <= i32::MAX,
                delta.x == dx,
                delta.y == dy,
                step.x == signum(end.x - start.x),
                step.y == signum(end.y - start.y),
                0 <= i <= dx,
                0 <= j <= dy,
                cell.x == toward(start.x as int, step.x as int, i),
                cell.y == toward(start.y as int, step.y as int, j),
                error == line_error(dx, dy, i, j),
                -3 * dy <= 2 * error <= 3 * dx,
                forall|q: IVec2| in_grid(q) ==> #[trigger] self.cell(q)
                    == if step_cells(start, end, visited).contains((q.x as int, q.y as int)) { to } else { old(self).cell(q) },
            ensures
                forall|q: IVec2| in_grid(q) ==> #[trigger] self.cell(q)
                    == if line_cells(start, end).contains((q.x as int, q.y as int)) { to } else { old(self).cell(q) },
            decreases (dx - i) + (dy - j),
        {
            let ghost before = *self;
            let ghost here = (i, j);
            let ghost here_cell = (cell.x as int, cell.y as int);
            assert(line_steps(dx, dy, i, j)[0] == here);
            assert(step_cells(start, end, visited.push(here)) == step_cells(start, end, visited).push(here_cell));
            if cell.x >= 0 && cell.y >= 0 && cell.x < SIZE as i32 && cell.y < SIZE as i32 {
                self.set(cell, to);
            }
            proof {
                assert forall|q: IVec2| in_grid(q) implies #[trigger] self.cell(q)
                    == if step_cells(start, end, visited.push(here)).contains((q.x as int, q.y as int)) { to } else { old(self).cell(q) } by {
                    let qq = (q.x as int, q.y as int);
                    let cs = step_cells(start, end, visited);
                    if qq == here_cell {
                        assert(cs.push(here_cell)[cs.len() as int] == qq);
                    } else {
                        if cs.push(here_cell).contains(qq) {
                            let k = choose|k: int| 0 <= k < cs.push(here_cell).len() && cs.push(here_cell)[k] == qq;
                            assert(cs[k] == qq);
                        }
                        if cs.contains(qq) {
                            let k = choose|k: int| 0 <= k < cs.len() && cs[k] == qq;
                            assert(cs.push(here_cell)[k] == qq);
                        }
                        assert(self.cell(q) == before.cell(q));
                    }
                }
                visited = visited.push(here);
            }
            if cell == end {
                proof {
                    assert(i == dx && j == dy);
                    assert(line_steps(dx, dy, i, j) == seq![(i, j)]);
                    assert(line_steps(dx, dy, 0, 0) == visited);
                }
                break;
            }
            proof {
                assert(!(i == dx && j == dy));
                lemma_line_next(dx, dy, i, j);
                assert(line_steps(dx, dy, i, j) == seq![(i, j)] + line_steps(dx, dy, line_next(dx, dy, i, j).0, line_next(dx, dy, i, j).1));
                assert(visited + line_steps(dx, dy, line_next(dx, dy, i, j).0, line_next(dx, dy, i, j).1)
                    == (visited.drop_last() + seq![(i, j)]) + line_steps(dx, dy, line_next(dx, dy, i, j).0, line_next(dx, dy, i, j).1));
            }

            let twice_error: i64 = 2 * error;
            let ghost next = line_next(dx, dy, i, j);
            if twice_error > -(delta.y as i64) {
                proof {
                    assert(line_error(dx, dy, i + 1, j) == line_error(dx, dy, i, j) - dy) by (nonlinear_arith);
                }
                error -= delta.y as i64;
                cell.x += step.x;
                proof {
                    i = i + 1;
                }
            }
            if twice_error < delta.x as i64 {
                proof {
                    assert(line_error(dx, dy, i, j + 1) == line_error(dx, dy, i, j) + dx) by (nonlinear_arith);
                }
                error += delta.x as i64;
                cell.y += step.y;
                proof {
                    j = j + 1;
                }
            }
            proof {
                assert((i, j) == next);
            }
        }
    }
}

impl Default for WorldGrid {
    fn default() -> (r: Self)
        ensures
            forall|i: int| 0 <= i < SIZE_POW2 ==> r.data@[i] == GCell::Unset,
    {
        let cells = [GCell::Unset; SIZE_POW2];
        proof {
            broadcast use vstd::array::group_array_axioms;
            assert forall|i: int| 0 <= i < SIZE_POW2 implies cells@[i] == GCell::Unset by {
                assert(cells@[i] == GCell::Unset);
            }
        }
        Self { data: Box::new(cells) }
    }
}

impl Clone for WorldGrid {
    fn clone(&self) -> (r: Self)
        ensures
            r.data@ == self.data@,
    {
        let data: [GCell; SIZE_POW2] = *self.data;
        WorldGrid { data: Box::new(data) }
    }
}

impl WorldGrid {
    /// Among the first `n` stored cells, a position is listed exactly when
    /// its cell is set.
    proof fn lemma_set_positions_before(self, n: int, q: IVec2)
        requires
            0 <= n <= SIZE_POW2,
            in_grid(q),
        ensures
            self.set_positions_before(n).contains(q) <==> (cell_index(q) < n && self.cell(q) == GCell::IsSet),
        decreases n,
    {
        lemma_index_pos(q.x as int, q.y as int);
        if n > 0 {
            self.lemma_set_positions_before(n - 1, q);
            let before = self.set_positions_before(n - 1);
            let i = n - 1;
            lemma_index_pos(i % 256, i / 256);
            assert(i == i % 256 + 256 * (i / 256));
            if self.data@[i] == GCell::IsSet {
                let after = before.push(index_pos(i));
                assert(after[before.len() as int] == index_pos(i));
                if before.contains(q) {
                    let k = choose|k: int| 0 <= k < before.len() && before[k] == q;
                    assert(after[k] == q);
                }
                if after.contains(q) && q != index_pos(i) {
                    let k = choose|k: int| 0 <= k < after.len() && after[k] == q;
                    assert(before[k] == q);
                }
            }
        }
    }

    /// The positions listed among the first `n` stored cells are cells of the
    /// grid stored before `n`, in increasing storage order.
    proof fn lemma_set_positions_ordered(self, n: int)
        requires
            0 <= n <= SIZE_POW2,
        ensures
            forall|k: int| 0 <= k < self.set_positions_before(n).len() ==> {
                let p = #[trigger] self.set_positions_before(n)[k];
                in_grid(p) && 0 <= cell_index(p) < n
            },
            forall|a: int, b: int| 0 <= a < b < self.set_positions_before(n).len() ==>
                cell_index(#[trigger] self.set_positions_before(n)[a]) < cell_index(#[trigger] self.set_positions_before(n)[b]),
        decreases n,
    {
        if n > 0 {
            self.lemma_set_positions_ordered(n - 1);
            let before = self.set_positions_before(n - 1);
            let i = n - 1;
            lemma_index_pos(i % 256, i / 256);
            assert(i == i % 256 + 256 * (i / 256));
            assert(cell_index(index_pos(i)) == i);
            if self.data@[i] == GCell::IsSet {
                let after = before.push(index_pos(i));
                assert forall|k: int| 0 <= k < after.len() implies {
                    let p = #[trigger] after[k];
                    in_grid(p) && 0 <= cell_index(p) < n
                } by {
                    if k < before.len() {
                        assert(after[k] == before[k]);
                    }
                }
                assert forall|a: int, b: int| 0 <= a < b < after.len() implies
                    cell_index(#[trigger] after[a]) < cell_index(#[trigger] after[b]) by {
                    assert(after[a] == before[a]);
                    if b < before.len() {
                        assert(after[b] == before[b]);
                    }
                }
            }
        }
    }

    /// `iter_set_positions` lists the cells of the grid row by row, and
    /// within a row from left to right, so that no cell is listed twice.
    pub proof fn law_set_positions_in_row_order(self)
        ensures
            forall|k: int| 0 <= k < self.set_positions_before(SIZE_POW2 as int).len() ==> in_grid(
                #[trigger] self.set_positions_before(SIZE_POW2 as int)[k],
            ),
            forall|a: int, b: int| 0 <= a < b < self.set_positions_before(SIZE_POW2 as int).len() ==> {
                let p = #[trigger] self.set_positions_before(SIZE_POW2 as int)[a];
                let q = #[trigger] self.set_positions_before(SIZE_POW2 as int)[b];
                &&& (p.y < q.y || (p.y == q.y && p.x < q.x))
                &&& p != q
            },
    {
        self.lemma_set_positions_ordered(SIZE_POW2 as int);
        let s = self.set_positions_before(SIZE_POW2 as int);
        assert forall|a: int, b: int| 0 <= a < b < s.len() implies {
            let p = #[trigger] s[a];
            let q = #[trigger] s[b];
            &&& (p.y < q.y || (p.y == q.y && p.x < q.x))
            &&& p != q
        } by {
            let p = s[a];
            let q = s[b];
            assert(in_grid(p) && in_grid(q));
            assert(cell_index(p) < cell_index(q));
        }
    }

    /// `iter_set_positions` lists a cell of the grid exactly when the cell is
    /// set.
    pub proof fn law_set_positions_are_the_set_cells(self, q: IVec2)
        requires
            in_grid(q),
        ensures
            self.set_positions_before(SIZE_POW2 as int).contains(q) <==> self.cell(q) == GCell::IsSet,
    {
        self.lemma_set_positions_before(SIZE_POW2 as int, q);
        lemma_index_pos(q.x as int, q.y as int);
    }
}

} // verus!
