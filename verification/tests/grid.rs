use voxel_life::grid::{GCell, WorldGrid, SIZE, SIZE_POW2};
use voxel_life::input::{next_mode, stroke_step};
use voxel_life::life::game_of_life;
use voxel_life::vector::IVec2;

fn set_cells(grid: &WorldGrid) -> Vec<(i32, i32)> {
    grid.iter_set_positions().iter().map(|p| (p.x, p.y)).collect()
}

#[test]
fn default_grid_is_empty() {
    let grid = WorldGrid::default();
    assert_eq!(grid.data.len(), SIZE_POW2);
    assert_eq!(SIZE * SIZE, SIZE_POW2);
    assert!(grid.data.iter().all(|c| *c == GCell::Unset));
    assert!(grid.iter_set_positions().is_empty());
}

#[test]
fn set_then_get_reads_the_cell_back() {
    let mut grid = WorldGrid::default();
    grid.set(IVec2::new(3, 1), GCell::IsSet);
    assert_eq!(grid.get(IVec2::new(3, 1)), GCell::IsSet);
    assert_eq!(grid.get(IVec2::new(1, 3)), GCell::Unset);
    // cells are stored row by row: x + 256 * y
    assert_eq!(grid.data[3 + 256], GCell::IsSet);
    assert_eq!(grid.data[1 + 3 * 256], GCell::Unset);
    grid.set(IVec2::new(3, 1), GCell::Unset);
    assert_eq!(grid.get(IVec2::new(3, 1)), GCell::Unset);
}

#[test]
fn set_positions_come_row_by_row() {
    let mut grid = WorldGrid::default();
    grid.set(IVec2::new(200, 0), GCell::IsSet);
    grid.set(IVec2::new(5, 9), GCell::IsSet);
    grid.set(IVec2::new(0, 1), GCell::IsSet);
    grid.set(IVec2::new(255, 255), GCell::IsSet);
    assert_eq!(set_cells(&grid), vec![(200, 0), (0, 1), (5, 9), (255, 255)]);
}

#[test]
fn set_line_draws_a_shallow_line() {
    let mut grid = WorldGrid::default();
    grid.set_line(IVec2::new(0, 0), IVec2::new(5, 2), GCell::IsSet);
    assert_eq!(set_cells(&grid), vec![(0, 0), (1, 0), (2, 1), (3, 1), (4, 2), (5, 2)]);
}

#[test]
fn set_line_draws_a_steep_line() {
    let mut grid = WorldGrid::default();
    grid.set_line(IVec2::new(2, 1), IVec2::new(3, 7), GCell::IsSet);
    assert_eq!(set_cells(&grid), vec![(2, 1), (2, 2), (2, 3), (2, 4), (3, 5), (3, 6), (3, 7)]);
}

#[test]
fn set_line_backwards_covers_the_same_cells() {
    let mut forward = WorldGrid::default();
    let mut backward = WorldGrid::default();
    forward.set_line(IVec2::new(0, 0), IVec2::new(5, 2), GCell::IsSet);
    backward.set_line(IVec2::new(5, 2), IVec2::new(0, 0), GCell::IsSet);
    assert_eq!(set_cells(&forward), set_cells(&backward));
}

#[test]
fn set_line_skips_cells_off_the_grid() {
    let mut grid = WorldGrid::default();
    grid.set_line(IVec2::new(-2, -1), IVec2::new(1, 1), GCell::IsSet);
    assert_eq!(set_cells(&grid), vec![(0, 0), (1, 1)]);
    let mut grid = WorldGrid::default();
    grid.set_line(IVec2::new(254, 3), IVec2::new(258, 3), GCell::IsSet);
    assert_eq!(set_cells(&grid), vec![(254, 3), (255, 3)]);
}

#[test]
fn set_line_of_one_cell_and_clearing() {
    let mut grid = WorldGrid::default();
    grid.set_line(IVec2::new(4, 4), IVec2::new(4, 4), GCell::IsSet);
    assert_eq!(set_cells(&grid), vec![(4, 4)]);
    grid.set_line(IVec2::new(0, 4), IVec2::new(9, 4), GCell::Unset);
    assert!(set_cells(&grid).is_empty());
}

#[test]
fn blinker_oscillates() {
    let mut grid = WorldGrid::default();
    for x in 10..13 {
        grid.set(IVec2::new(x, 20), GCell::IsSet);
    }
    game_of_life(&mut grid);
    assert_eq!(set_cells(&grid), vec![(11, 19), (11, 20), (11, 21)]);
    game_of_life(&mut grid);
    assert_eq!(set_cells(&grid), vec![(10, 20), (11, 20), (12, 20)]);
}

#[test]
fn block_is_a_still_life() {
    let mut grid = WorldGrid::default();
    for (x, y) in [(40, 40), (41, 40), (40, 41), (41, 41)] {
        grid.set(IVec2::new(x, y), GCell::IsSet);
    }
    game_of_life(&mut grid);
    assert_eq!(set_cells(&grid), vec![(40, 40), (41, 40), (40, 41), (41, 41)]);
}

#[test]
fn empty_grid_stays_empty() {
    let mut grid = WorldGrid::default();
    game_of_life(&mut grid);
    assert!(set_cells(&grid).is_empty());
}

#[test]
fn cells_off_the_grid_count_as_unset() {
    // A blinker lying along the edge loses its outer cells instead of
    // wrapping around to the other side.
    let mut grid = WorldGrid::default();
    for y in 0..3 {
        grid.set(IVec2::new(0, y), GCell::IsSet);
    }
    game_of_life(&mut grid);
    assert_eq!(set_cells(&grid), vec![(0, 1), (1, 1)]);
}

#[test]
fn lonely_and_crowded_cells_die() {
    let mut grid = WorldGrid::default();
    grid.set(IVec2::new(100, 100), GCell::IsSet);
    game_of_life(&mut grid);
    assert!(set_cells(&grid).is_empty());

    let mut grid = WorldGrid::default();
    for (x, y) in [(50, 50), (49, 50), (51, 50), (50, 49), (50, 51)] {
        grid.set(IVec2::new(x, y), GCell::IsSet);
    }
    game_of_life(&mut grid);
    assert_eq!(grid.get(IVec2::new(50, 50)), GCell::Unset);
    assert_eq!(grid.get(IVec2::new(49, 49)), GCell::IsSet);
}

#[test]
fn pointer_modes() {
    assert_eq!(next_mode(false, false, Some(GCell::IsSet)), None);
    assert_eq!(next_mode(false, false, None), None);
    assert_eq!(next_mode(true, false, None), Some(GCell::IsSet));
    assert_eq!(next_mode(false, true, None), Some(GCell::Unset));
    assert_eq!(next_mode(true, true, None), Some(GCell::IsSet));
    assert_eq!(next_mode(true, false, Some(GCell::Unset)), Some(GCell::IsSet));
    assert_eq!(next_mode(false, true, Some(GCell::IsSet)), Some(GCell::Unset));
    assert_eq!(next_mode(true, true, Some(GCell::Unset)), Some(GCell::Unset));
    assert_eq!(next_mode(true, true, Some(GCell::IsSet)), Some(GCell::IsSet));
}

#[test]
fn set_line_from_far_off_the_grid() {
    let mut grid = WorldGrid::default();
    grid.set_line(IVec2::new(-1_000_000, 0), IVec2::new(5, 0), GCell::IsSet);
    assert_eq!(set_cells(&grid), vec![(0, 0), (1, 0), (2, 0), (3, 0), (4, 0), (5, 0)]);
}

#[test]
fn set_line_paints_one_cell_per_step_of_the_longer_span() {
    for (end_x, end_y) in [(7, 3), (3, 7), (-6, 2), (4, -4), (0, 9)] {
        let mut grid = WorldGrid::default();
        let start = IVec2::new(100, 100);
        let end = IVec2::new(100 + end_x, 100 + end_y);
        grid.set_line(start, end, GCell::IsSet);
        let cells = set_cells(&grid);
        let longer = i32::max(end_x.abs(), end_y.abs()) as usize;
        assert_eq!(cells.len(), longer + 1);
        assert!(cells.contains(&(start.x, start.y)));
        assert!(cells.contains(&(end.x, end.y)));
    }
}

#[test]
fn set_positions_are_listed_once_in_row_order() {
    let mut grid = WorldGrid::default();
    for (x, y) in [(9, 2), (1, 7), (200, 2), (0, 0), (255, 255), (3, 7)] {
        grid.set(IVec2::new(x, y), GCell::IsSet);
    }
    grid.set(IVec2::new(9, 2), GCell::IsSet);
    assert_eq!(
        set_cells(&grid),
        vec![(0, 0), (9, 2), (200, 2), (1, 7), (3, 7), (255, 255)]
    );
}

#[test]
fn strokes_paint_cells_and_lines() {
    let mut grid = WorldGrid::default();
    // a new stroke with the left button paints the cell under the cursor
    let last = stroke_step(&mut grid, None, true, false, Some(IVec2::new(2, 2)));
    assert_eq!(last, Some((GCell::IsSet, IVec2::new(2, 2))));
    assert_eq!(set_cells(&grid), vec![(2, 2)]);
    // the cursor left the window: nothing changes
    let last = stroke_step(&mut grid, last, true, false, None);
    assert_eq!(last, Some((GCell::IsSet, IVec2::new(2, 2))));
    // moving on draws the line from the last cell
    let last = stroke_step(&mut grid, last, true, false, Some(IVec2::new(5, 2)));
    assert_eq!(last, Some((GCell::IsSet, IVec2::new(5, 2))));
    assert_eq!(set_cells(&grid), vec![(2, 2), (3, 2), (4, 2), (5, 2)]);
    // switching to the right button clears along the next line
    let last = stroke_step(&mut grid, last, false, true, Some(IVec2::new(4, 2)));
    assert_eq!(last, Some((GCell::Unset, IVec2::new(4, 2))));
    assert_eq!(set_cells(&grid), vec![(2, 2), (3, 2)]);
    // releasing both buttons ends the stroke and leaves the grid alone
    let last = stroke_step(&mut grid, last, false, false, Some(IVec2::new(0, 0)));
    assert_eq!(last, None);
    assert_eq!(set_cells(&grid), vec![(2, 2), (3, 2)]);
    // a new stroke with the right button alone clears
    let last = stroke_step(&mut grid, None, false, true, Some(IVec2::new(3, 2)));
    assert_eq!(last, Some((GCell::Unset, IVec2::new(3, 2))));
    assert_eq!(set_cells(&grid), vec![(2, 2)]);
}
