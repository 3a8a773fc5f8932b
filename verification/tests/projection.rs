use voxel_life::projection::{destination_columns, destination_frame, iter_tuple_idx_pos, Solution};
use voxel_life::vector::{IVec2, UVec2};

#[test]
fn indices_and_positions_row_by_row() {
    let cells = iter_tuple_idx_pos(&[3, 2]);
    assert_eq!(
        cells,
        vec![
            (0, UVec2::new(0, 0)),
            (1, UVec2::new(1, 0)),
            (2, UVec2::new(2, 0)),
            (3, UVec2::new(0, 1)),
            (4, UVec2::new(1, 1)),
            (5, UVec2::new(2, 1)),
        ]
    );
    assert!(iter_tuple_idx_pos(&[0, 4]).is_empty());
}

#[test]
fn frame_spans_all_corners() {
    let floors = [IVec2::new(-3, 2), IVec2::new(4, -1), IVec2::new(0, 0), IVec2::new(1, 5)];
    let ceils = [IVec2::new(-2, 3), IVec2::new(5, 0), IVec2::new(0, 1), IVec2::new(2, 6)];
    let (origin, size) = destination_frame(&floors, &ceils);
    assert_eq!(origin, IVec2::new(-3, -1));
    assert_eq!(size, UVec2::new(9, 8));
}

#[test]
fn columns_index_the_destination_row_by_row() {
    let points = [IVec2::new(-3, -1), IVec2::new(-2, -1), IVec2::new(-3, 0), IVec2::new(-2, 0)];
    let columns = destination_columns(&points, IVec2::new(-3, -1), [9, 8]);
    assert_eq!(columns, [0, 1, 9, 10]);
}

fn swap_solution() -> Solution {
    // a 2 by 1 source mapped onto a 3 by 1 destination starting at x = 10:
    // source 0 -> destination 2, source 1 -> destination 0, destination 1 unused
    let src_to_dst = vec![2, 0];
    let dst_to_src = vec![1, u32::MAX, 0];
    assert!(Solution::is_consistent(&src_to_dst, &dst_to_src, [2, 1], [3, 1], IVec2::new(10, 5)));
    Solution::new(src_to_dst, dst_to_src, [2, 1], [3, 1], IVec2::new(10, 5))
}

#[test]
fn source_cells_map_to_destination_cells() {
    let solution = swap_solution();
    assert_eq!(solution.src_to_dst(UVec2::new(0, 0)), Some(IVec2::new(12, 5)));
    assert_eq!(solution.src_to_dst(UVec2::new(1, 0)), Some(IVec2::new(10, 5)));
    assert_eq!(solution.src_to_dst(UVec2::new(2, 0)), None);
    assert_eq!(solution.src_to_dst(UVec2::new(0, 1)), None);
}

#[test]
fn destination_cells_map_back() {
    let solution = swap_solution();
    assert_eq!(solution.dst_to_src(IVec2::new(12, 5)), Some(UVec2::new(0, 0)));
    assert_eq!(solution.dst_to_src(IVec2::new(10, 5)), Some(UVec2::new(1, 0)));
    assert_eq!(solution.dst_to_src(IVec2::new(11, 5)), None);
    assert_eq!(solution.dst_to_src(IVec2::new(9, 5)), None);
    assert_eq!(solution.dst_to_src(IVec2::new(13, 5)), None);
    assert_eq!(solution.dst_to_src(IVec2::new(10, 6)), None);
}

#[test]
fn round_trip_through_both_tables() {
    let solution = swap_solution();
    for x in 0..2 {
        let pos = UVec2::new(x, 0);
        let dst = solution.src_to_dst(pos).unwrap();
        assert_eq!(solution.dst_to_src(dst), Some(pos));
    }
}

#[test]
fn wider_destination_uses_rows() {
    // a 1 by 1 source assigned to cell 4 of a 3 by 2 destination: (1, 1)
    let solution = Solution::new(vec![4], vec![u32::MAX, u32::MAX, u32::MAX, u32::MAX, 0, u32::MAX], [1, 1], [3, 2], IVec2::new(-1, -1));
    assert_eq!(solution.src_to_dst(UVec2::new(0, 0)), Some(IVec2::new(0, 0)));
    assert_eq!(solution.dst_to_src(IVec2::new(0, 0)), Some(UVec2::new(0, 0)));
}

#[test]
fn inconsistent_parts_are_refused() {
    // source index out of the destination
    assert!(!Solution::is_consistent(&vec![3], &vec![0, 0, 0], [1, 1], [3, 1], IVec2::new(0, 0)));
    // wrong table length
    assert!(!Solution::is_consistent(&vec![0, 1], &vec![0], [2, 1], [1, 1], IVec2::new(0, 0)));
    // empty shape
    assert!(!Solution::is_consistent(&vec![], &vec![0], [0, 1], [1, 1], IVec2::new(0, 0)));
    // destination past the last i32 coordinate
    assert!(!Solution::is_consistent(&vec![0], &vec![0, 0], [1, 1], [2, 1], IVec2::new(i32::MAX, 0)));
}

#[test]
fn tables_that_undo_each_other_are_one_to_one() {
    assert!(swap_solution().is_one_to_one());
}

#[test]
fn tables_that_disagree_are_not_one_to_one() {
    // source 0 -> destination 2, but destination 2 names source 1
    let src_to_dst = vec![2, 0];
    let dst_to_src = vec![0, u32::MAX, 1];
    assert!(Solution::is_consistent(&src_to_dst, &dst_to_src, [2, 1], [3, 1], IVec2::new(0, 0)));
    let solution = Solution::new(src_to_dst, dst_to_src, [2, 1], [3, 1], IVec2::new(0, 0));
    assert!(!solution.is_one_to_one());
    // the destination holds a source that points elsewhere
    let src_to_dst = vec![0, 0];
    let dst_to_src = vec![0, 1];
    assert!(Solution::is_consistent(&src_to_dst, &dst_to_src, [2, 1], [2, 1], IVec2::new(0, 0)));
    let solution = Solution::new(src_to_dst, dst_to_src, [2, 1], [2, 1], IVec2::new(0, 0));
    assert!(!solution.is_one_to_one());
}

#[test]
fn every_destination_of_a_one_to_one_solution_maps_back() {
    let solution = swap_solution();
    for x in 10..13 {
        let pos = IVec2::new(x, 5);
        if let Some(src) = solution.dst_to_src(pos) {
            assert_eq!(solution.src_to_dst(src), Some(pos));
        }
    }
}

#[test]
fn frame_may_span_the_whole_i32_range() {
    let floors = [IVec2::new(0, -5); 4];
    let ceils = [IVec2::new(i32::MAX, -4), IVec2::new(3, -5), IVec2::new(0, -5), IVec2::new(1, -5)];
    let (origin, size) = destination_frame(&floors, &ceils);
    assert_eq!(origin, IVec2::new(0, -5));
    assert_eq!(size, UVec2::new(1 << 31, 2));
}
