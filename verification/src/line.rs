use vstd::prelude::*;
use crate::vector::IVec2;

verus! {

// A line from `start` to `end` is drawn cell by cell. With `dx` and `dy` the
// distances to cover on each axis, the state after `i` steps along x and `j`
// steps along y carries the error term `dx * (1 + j) - dy * (1 + i)`; each
// round steps along x when twice the error exceeds `-dy` and along y when it
// is below `dx`, both tests reading the error from before the round.

/// The absolute value of `v`.
pub open spec fn abs(v: int) -> int {
    if v < 0 { -v } else { v }
}

/// The sign of `v`: -1, 0 or 1.
pub open spec fn signum(v: int) -> int {
    if v < 0 { -1 } else if v > 0 { 1 } else { 0 }
}

/// The error term after `i` steps along x and `j` along y.
pub open spec fn line_error(dx: int, dy: int, i: int, j: int) -> int {
    dx * (1 + j) - dy * (1 + i)
}

/// The step counts after one more round.
pub open spec fn line_next(dx: int, dy: int, i: int, j: int) -> (int, int) {
    let twice_error = 2 * line_error(dx, dy, i, j);
    (if twice_error > -dy { i + 1 } else { i }, if twice_error < dx { j + 1 } else { j })
}

/// One round from a state short of the end moves at most one step along each
/// axis, at least one in all, and never past the end.
pub proof fn lemma_line_next(dx: int, dy: int, i: int, j: int)
    requires
        0 <= i <= dx,
        0 <= j <= dy,
        !(i == dx && j == dy),
    ensures
        i <= line_next(dx, dy, i, j).0 <= dx,
        j <= line_next(dx, dy, i, j).1 <= dy,
        line_next(dx, dy, i, j).0 <= i + 1,
        line_next(dx, dy, i, j).1 <= j + 1,
        line_next(dx, dy, i, j).0 + line_next(dx, dy, i, j).1 > i + j,
{
    let e = line_error(dx, dy, i, j);
    if i == dx {
        assert(dx * (1 + j) <= dx * dy) by (nonlinear_arith)
            requires 0 <= dx, 1 + j <= dy;
        assert(dy * (1 + i) == dy + dy * dx) by (nonlinear_arith)
            requires i == dx;
        assert(dx * dy == dy * dx) by (nonlinear_arith);
    }
    if j == dy {
        assert(dy * (1 + i) <= dy * dx) by (nonlinear_arith)
            requires 0 <= dy, 1 + i <= dx;
        assert(dx * (1 + j) == dx + dx * dy) by (nonlinear_arith)
            requires j == dy;
        assert(dx * dy == dy * dx) by (nonlinear_arith);
    }
}

#[via_fn]
proof fn lemma_line_steps_decreases(dx: int, dy: int, i: int, j: int) {
    if 0 <= i <= dx && 0 <= j <= dy && !(i == dx && j == dy) {
        lemma_line_next(dx, dy, i, j);
    }
}

/// The states from step counts `(i, j)` to the end `(dx, dy)`.
pub open spec fn line_steps(dx: int, dy: int, i: int, j: int) -> Seq<(int, int)>
    decreases (dx - i) + (dy - j),
    when 0 <= i <= dx && 0 <= j <= dy
    via lemma_line_steps_decreases
{
    if i == dx && j == dy {
        seq![(i, j)]
    } else {
        let n = line_next(dx, dy, i, j);
        seq![(i, j)] + line_steps(dx, dy, n.0, n.1)
    }
}

/// The coordinate `count` steps from `from` in direction `sign`.
pub open spec fn toward(from: int, sign: int, count: int) -> int {
    if sign > 0 {
        from + count
    } else if sign < 0 {
        from - count
    } else {
        from
    }
}

/// The cells of the states `steps` of a line from `start` to `end`.
pub open spec fn step_cells(start: IVec2, end: IVec2, steps: Seq<(int, int)>) -> Seq<(int, int)> {
    steps.map_values(
        |s: (int, int)|
            (
                toward(start.x as int, signum(end.x - start.x), s.0),
                toward(start.y as int, signum(end.y - start.y), s.1),
            ),
    )
}

/// The cells of the line from `start` to `end`, in drawing order.
pub open spec fn line_cells(start: IVec2, end: IVec2) -> Seq<(int, int)> {
    step_cells(start, end, line_steps(abs(end.x - start.x), abs(end.y - start.y), 0, 0))
}

/// The distances from `start` to `end` are `i32` values other than
/// `i32::MIN`, so that their absolute values are `i32` values too.
pub open spec fn line_fits(start: IVec2, end: IVec2) -> bool {
    &&& i32::MIN < end.x - start.x <= i32::MAX
    &&& i32::MIN < end.y - start.y <= i32::MAX
}

/// The states from `(i, j)` start there, end at `(dx, dy)`, stay within the
/// box, and each follows from the one before by one round.
pub proof fn lemma_line_steps(dx: int, dy: int, i: int, j: int)
    requires
        0 <= i <= dx,
        0 <= j <= dy,
    ensures
        line_steps(dx, dy, i, j).len() >= 1,
        line_steps(dx, dy, i, j)[0] == (i, j),
        line_steps(dx, dy, i, j).last() == (dx, dy),
        forall|k: int| 0 <= k < line_steps(dx, dy, i, j).len() ==> {
            let s = #[trigger] line_steps(dx, dy, i, j)[k];
            i <= s.0 <= dx && j <= s.1 <= dy
        },
        forall|k: int| 0 <= k < line_steps(dx, dy, i, j).len() - 1 ==> {
            let s = #[trigger] line_steps(dx, dy, i, j)[k];
            &&& !(s.0 == dx && s.1 == dy)
            &&& line_steps(dx, dy, i, j)[k + 1] == line_next(dx, dy, s.0, s.1)
        },
    decreases (dx - i) + (dy - j),
{
    if !(i == dx && j == dy) {
        lemma_line_next(dx, dy, i, j);
        let n = line_next(dx, dy, i, j);
        lemma_line_steps(dx, dy, n.0, n.1);
        let rest = line_steps(dx, dy, n.0, n.1);
        let all = line_steps(dx, dy, i, j);
        assert(all == seq![(i, j)] + rest);
        assert forall|k: int| 0 <= k < all.len() - 1 implies {
            let s = #[trigger] all[k];
            &&& !(s.0 == dx && s.1 == dy)
            &&& all[k + 1] == line_next(dx, dy, s.0, s.1)
        } by {
            if k > 0 {
                assert(all[k] == rest[k - 1]);
                assert(all[k + 1] == rest[k]);
            }
        }
        assert forall|k: int| 0 <= k < all.len() implies {
            let s = #[trigger] all[k];
            i <= s.0 <= dx && j <= s.1 <= dy
        } by {
            if k > 0 {
                assert(all[k] == rest[k - 1]);
            }
        }
    }
}

/// A line starts at its start and ends at its end.
pub proof fn law_line_endpoints(start: IVec2, end: IVec2)
    ensures
        line_cells(start, end).len() >= 1,
        line_cells(start, end)[0] == (start.x as int, start.y as int),
        line_cells(start, end).last() == (end.x as int, end.y as int),
{
    let dx = abs(end.x - start.x);
    let dy = abs(end.y - start.y);
    lemma_line_steps(dx, dy, 0, 0);
}

/// Each cell of a line follows the one before by one step, along x, along
/// y, or diagonally, always toward the end.
pub proof fn law_line_connected(start: IVec2, end: IVec2, k: int)
    requires
        0 <= k < line_cells(start, end).len() - 1,
    ensures
        ({
            let a = line_cells(start, end)[k];
            let b = line_cells(start, end)[k + 1];
            &&& b.0 - a.0 == 0 || b.0 - a.0 == signum(end.x - start.x)
            &&& b.1 - a.1 == 0 || b.1 - a.1 == signum(end.y - start.y)
            &&& b != a
        }),
{
    let dx = abs(end.x - start.x);
    let dy = abs(end.y - start.y);
    lemma_line_steps(dx, dy, 0, 0);
    let steps = line_steps(dx, dy, 0, 0);
    let s = steps[k];
    assert(0 <= s.0 <= dx && 0 <= s.1 <= dy);
    lemma_line_next(dx, dy, s.0, s.1);
}

proof fn lemma_error_steps(dx: int, dy: int, i: int, j: int)
    ensures
        line_error(dx, dy, i + 1, j) == line_error(dx, dy, i, j) - dy,
        line_error(dx, dy, i, j + 1) == line_error(dx, dy, i, j) + dx,
        line_error(dx, dy, i + 1, j + 1) == line_error(dx, dy, i, j) + dx - dy,
        line_error(dx, dy, 0, 0) == dx - dy,
{
    assert(line_error(dx, dy, i + 1, j) == line_error(dx, dy, i, j) - dy) by (nonlinear_arith);
    assert(line_error(dx, dy, i, j + 1) == line_error(dx, dy, i, j) + dx) by (nonlinear_arith);
    assert(line_error(dx, dy, i + 1, j + 1) == line_error(dx, dy, i, j) + dx - dy) by (nonlinear_arith);
    assert(line_error(dx, dy, 0, 0) == dx - dy) by (nonlinear_arith);
}

/// Where x is the longer axis, every round steps along x.
proof fn lemma_line_steps_x_major(dx: int, dy: int, i: int, j: int)
    requires
        0 <= dy <= dx,
        0 <= i <= dx,
        0 <= j <= dy,
        (i == dx && j == dy) || (-dy < 2 * line_error(dx, dy, i, j) < 3 * dx - 2 * dy),
    ensures
        line_steps(dx, dy, i, j).len() == dx - i + 1,
        forall|k: int| 0 <= k < line_steps(dx, dy, i, j).len() ==> (#[trigger] line_steps(dx, dy, i, j)[k]).0 == i + k,
    decreases (dx - i) + (dy - j),
{
    if !(i == dx && j == dy) {
        lemma_line_next(dx, dy, i, j);
        lemma_error_steps(dx, dy, i, j);
        let n = line_next(dx, dy, i, j);
        assert(n.0 == i + 1);
        lemma_line_steps_x_major(dx, dy, n.0, n.1);
        let rest = line_steps(dx, dy, n.0, n.1);
        let all = line_steps(dx, dy, i, j);
        assert(all == seq![(i, j)] + rest);
        assert forall|k: int| 0 <= k < all.len() implies (#[trigger] all[k]).0 == i + k by {
            if k > 0 {
                assert(all[k] == rest[k - 1]);
            }
        }
    }
}

/// Where y is the longer axis, every round steps along y.
proof fn lemma_line_steps_y_major(dx: int, dy: int, i: int, j: int)
    requires
        0 <= dx <= dy,
        0 <= i <= dx,
        0 <= j <= dy,
        (i == dx && j == dy) || (2 * dx - 3 * dy < 2 * line_error(dx, dy, i, j) < dx),
    ensures
        line_steps(dx, dy, i, j).len() == dy - j + 1,
        forall|k: int| 0 <= k < line_steps(dx, dy, i, j).len() ==> (#[trigger] line_steps(dx, dy, i, j)[k]).1 == j + k,
    decreases (dx - i) + (dy - j),
{
    if !(i == dx && j == dy) {
        lemma_line_next(dx, dy, i, j);
        lemma_error_steps(dx, dy, i, j);
        let n = line_next(dx, dy, i, j);
        assert(n.1 == j + 1);
        lemma_line_steps_y_major(dx, dy, n.0, n.1);
        let rest = line_steps(dx, dy, n.0, n.1);
        let all = line_steps(dx, dy, i, j);
        assert(all == seq![(i, j)] + rest);
        assert forall|k: int| 0 <= k < all.len() implies (#[trigger] all[k]).1 == j + k by {
            if k > 0 {
                assert(all[k] == rest[k - 1]);
            }
        }
    }
}

/// A line covers `max(|dx|, |dy|) + 1` cells, no cell twice.
pub proof fn law_line_length_and_distinct(start: IVec2, end: IVec2)
    ensures
        line_cells(start, end).len() == 1 + if abs(end.x - start.x) >= abs(end.y - start.y) {
            abs(end.x - start.x)
        } else {
            abs(end.y - start.y)
        },
        forall|a: int, b: int| 0 <= a < b < line_cells(start, end).len()
            ==> #[trigger] line_cells(start, end)[a] != #[trigger] line_cells(start, end)[b],
{
    let dx = abs(end.x - start.x);
    let dy = abs(end.y - start.y);
    let steps = line_steps(dx, dy, 0, 0);
    let cells = line_cells(start, end);
    lemma_error_steps(dx, dy, 0, 0);
    if dx >= dy {
        lemma_line_steps_x_major(dx, dy, 0, 0);
        assert forall|a: int, b: int| 0 <= a < b < cells.len() implies #[trigger] cells[a] != #[trigger] cells[b] by {
            assert(steps[a].0 == a && steps[b].0 == b);
        }
    } else {
        lemma_line_steps_y_major(dx, dy, 0, 0);
        assert forall|a: int, b: int| 0 <= a < b < cells.len() implies #[trigger] cells[a] != #[trigger] cells[b] by {
            assert(steps[a].1 == a && steps[b].1 == b);
        }
    }
}

} // verus!
