use vstd::prelude::*;
use crate::vector::IVec2;
use crate::grid::{GCell, WorldGrid, SIZE, in_grid, cell_index, index_pos};

verus! {

/// 1 where `(x, y)` is a set cell of the grid, else 0; positions off the
/// grid count as unset.
pub open spec fn live_at(grid: WorldGrid, x: int, y: int) -> int {
    if 0 <= x < 256 && 0 <= y < 256 && grid.data@[x + 256 * y] == GCell::IsSet {
        1
    } else {
        0
    }
}

/// The number of set cells among the eight cells around `pos`.
pub open spec fn live_neighbors(grid: WorldGrid, pos: IVec2) -> int {
    let (x, y) = (pos.x as int, pos.y as int);
    live_at(grid, x - 1, y - 1) + live_at(grid, x, y - 1) + live_at(grid, x + 1, y - 1)
        + live_at(grid, x - 1, y) + live_at(grid, x + 1, y)
        + live_at(grid, x - 1, y + 1) + live_at(grid, x, y + 1) + live_at(grid, x + 1, y + 1)
}

/// Conway's rule: an unset cell with three set neighbors becomes set; a set
/// cell stays set with two or three set neighbors; every other cell ends
/// unset.
pub open spec fn next_cell(cell: GCell, neighbors: int) -> GCell {
    match cell {
        GCell::Unset => if neighbors == 3 { GCell::IsSet } else { GCell::Unset },
        GCell::IsSet => if neighbors == 2 || neighbors == 3 { GCell::IsSet } else { GCell::Unset },
    }
}

/// The k-th of the eight neighbor offsets, row by row.
pub open spec fn neighbor_offset(k: int) -> (int, int) {
    if k == 0 {
        (-1, -1)
    } else if k == 1 {
        (0, -1)
    } else if k == 2 {
        (1, -1)
    } else if k == 3 {
        (-1, 0)
    } else if k == 4 {
        (1, 0)
    } else if k == 5 {
        (-1, 1)
    } else if k == 6 {
        (0, 1)
    } else {
        (1, 1)
    }
}

/// The set cells among the first `k` neighbors of `pos`.
pub open spec fn neighbors_among(grid: WorldGrid, pos: IVec2, k: int) -> int
    decreases k,
{
    if k <= 0 {
        0
    } else {
        neighbors_among(grid, pos, k - 1) + live_at(
            grid,
            pos.x + neighbor_offset(k - 1).0,
            pos.y + neighbor_offset(k - 1).1,
        )
    }
}

proof fn lemma_all_neighbors(grid: WorldGrid, pos: IVec2)
    ensures
        neighbors_among(grid, pos, 8) == live_neighbors(grid, pos),
{
    reveal_with_fuel(neighbors_among, 9);
}

/// `after` is the generation that follows `before`.
pub open spec fn next_generation(before: WorldGrid, after: WorldGrid) -> bool {
    forall|q: IVec2| in_grid(q) ==> #[trigger] after.cell(q) == next_cell(before.cell(q), live_neighbors(before, q))
}

/// The neighbour count of `q` counts exactly the eight cells around it: a
/// change to one cell of the grid moves it by the change at that cell when
/// the cell is next to `q`, and leaves it alone otherwise.
pub proof fn law_neighbors_are_the_eight_around(a: WorldGrid, b: WorldGrid, c: IVec2, q: IVec2)
    requires
        in_grid(c),
        in_grid(q),
        a.data@.len() == 65536,
        b.data@.len() == 65536,
        forall|i: int| 0 <= i < 65536 && i != cell_index(c) ==> #[trigger] a.data@[i] == b.data@[i],
    ensures
        ({
            let da = if a.cell(c) == GCell::IsSet { 1int } else { 0int };
            let db = if b.cell(c) == GCell::IsSet { 1int } else { 0int };
            let next_to = c != q && -1 <= c.x - q.x <= 1 && -1 <= c.y - q.y <= 1;
            live_neighbors(b, q) - live_neighbors(a, q) == if next_to { db - da } else { 0 }
        }),
{
    assert forall|x: int, y: int| 0 <= x < 256 && 0 <= y < 256 && !(x == c.x && y == c.y) implies
        #[trigger] live_at(b, x, y) == live_at(a, x, y) by {
        assert(x + 256 * y != c.x + 256 * c.y);
    }
}

/// On a grid with no set cell every cell has no set neighbour.
pub proof fn law_no_neighbors_on_an_empty_grid(g: WorldGrid, q: IVec2)
    requires
        forall|c: IVec2| in_grid(c) ==> #[trigger] g.cell(c) == GCell::Unset,
    ensures
        live_neighbors(g, q) == 0,
{
    assert forall|x: int, y: int| #[trigger] live_at(g, x, y) == 0 by {
        if 0 <= x < 256 && 0 <= y < 256 {
            let c = IVec2 { x: x as i32, y: y as i32 };
            assert(g.cell(c) == GCell::Unset);
        }
    }
}

/// Conway's rule, cell by cell: after one generation an unset cell is set
/// exactly when three of its neighbours were set, and a set cell stays set
/// exactly when two or three of its neighbours were set.
pub proof fn law_conway_rule(before: WorldGrid, after: WorldGrid, q: IVec2)
    requires
        next_generation(before, after),
        in_grid(q),
    ensures
        0 <= live_neighbors(before, q) <= 8,
        before.cell(q) == GCell::Unset ==> (after.cell(q) == GCell::IsSet <==> live_neighbors(before, q) == 3),
        before.cell(q) == GCell::IsSet ==> (after.cell(q) == GCell::IsSet <==> (live_neighbors(before, q) == 2
            || live_neighbors(before, q) == 3)),
{
    assert(after.cell(q) == next_cell(before.cell(q), live_neighbors(before, q)));
}

/// Advances the grid by one generation of Conway's game of life; cells off
/// the grid count as unset.
pub fn game_of_life(w_grid: &mut WorldGrid)
    ensures
        next_generation(*old(w_grid), *final(w_grid)),
{
    let previous = w_grid.clone();
    let offsets: [IVec2; 8] = [
        IVec2::new(-1, -1),
        IVec2::new(0, -1),
        IVec2::new(1, -1),
        IVec2::new(-1, 0),
        IVec2::new(1, 0),
        IVec2::new(-1, 1),
        IVec2::new(0, 1),
        IVec2::new(1, 1),
    ];
    assert(forall|k: int| 0 <= k < 8 ==> (#[trigger] offsets@[k]).x == neighbor_offset(k).0 && offsets@[k].y == neighbor_offset(k).1);

    for y in 0..SIZE
        invariant
            previous.data@ == old(w_grid).data@,
            forall|k: int| 0 <= k < 8 ==> (#[trigger] offsets@[k]).x == neighbor_offset(k).0 && offsets@[k].y == neighbor_offset(k).1,
            forall|i: int| 0 <= i < 256 * y ==> #[trigger] w_grid.data@[i]
                == next_cell(previous.data@[i], live_neighbors(previous, index_pos(i))),
    {
        for x in 0..SIZE
            invariant
                y < 256,
                previous.data@ == old(w_grid).data@,
                forall|k: int| 0 <= k < 8 ==> (#[trigger] offsets@[k]).x == neighbor_offset(k).0 && offsets@[k].y == neighbor_offset(k).1,
                forall|i: int| 0 <= i < 256 * y + x ==> #[trigger] w_grid.data@[i]
                    == next_cell(previous.data@[i], live_neighbors(previous, index_pos(i))),
        {
            let pos = IVec2::new(x as i32, y as i32);
            let cell = previous.get(pos);
            let mut neighbor_count: u32 = 0;

            for k in 0..8usize
                invariant
                    0 <= pos.x < 256,
                    0 <= pos.y < 256,
                    neighbor_count as int == neighbors_among(previous, pos, k as int),
                    neighbor_count <= k,
                    forall|j: int| 0 <= j < 8 ==> (#[trigger] offsets@[j]).x == neighbor_offset(j).0 && offsets@[j].y == neighbor_offset(j).1,
            {
                let offset = offsets[k];
                let neighbor_pos = IVec2::new(pos.x + offset.x, pos.y + offset.y);
                let off_grid = neighbor_pos.x < 0 || neighbor_pos.y < 0 || neighbor_pos.x >= SIZE as i32
                    || neighbor_pos.y >= SIZE as i32;
                if !off_grid && previous.get(neighbor_pos) == GCell::IsSet {
                    neighbor_count += 1;
                }
            }
            proof {
                lemma_all_neighbors(previous, pos);
                crate::grid::lemma_index_pos(x as int, y as int);
            }

            let new_cell = match cell {
                GCell::Unset => {
                    if neighbor_count == 3 {
                        GCell::IsSet
                    } else {
                        GCell::Unset
                    }
                },
                GCell::IsSet => {
                    if neighbor_count == 2 || neighbor_count == 3 {
                        GCell::IsSet
                    } else {
                        GCell::Unset
                    }
                },
            };

            w_grid.set(pos, new_cell);
        }
    }
    proof {
        assert forall|q: IVec2| in_grid(q) implies #[trigger] w_grid.cell(q)
            == next_cell(old(w_grid).cell(q), live_neighbors(*old(w_grid), q)) by {
            crate::grid::lemma_index_pos(q.x as int, q.y as int);
            assert(w_grid.data@[cell_index(q)] == next_cell(previous.data@[cell_index(q)], live_neighbors(previous, index_pos(cell_index(q)))));
            assert(live_neighbors(previous, q) == live_neighbors(*old(w_grid), q));
        }
    }
}

/// An empty grid stays empty.
pub proof fn law_empty_grid_stays_empty(before: WorldGrid, after: WorldGrid)
    requires
        next_generation(before, after),
        forall|q: IVec2| in_grid(q) ==> #[trigger] before.cell(q) == GCell::Unset,
    ensures
        forall|q: IVec2| in_grid(q) ==> #[trigger] after.cell(q) == GCell::Unset,
{
    assert forall|x: int, y: int| #[trigger] live_at(before, x, y) == 0 by {
        if 0 <= x < 256 && 0 <= y < 256 {
            let q = IVec2 { x: x as i32, y: y as i32 };
            assert(before.cell(q) == GCell::Unset);
        }
    }
    assert forall|q: IVec2| in_grid(q) implies #[trigger] after.cell(q) == GCell::Unset by {
        assert(before.cell(q) == GCell::Unset);
        assert(live_neighbors(before, q) == 0);
    }
}

} // verus!
