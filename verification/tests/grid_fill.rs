use pullauta::grid_fill::{fill_columns, interpolation_bracket, is_ground_point, known_neighbors};

/// A grid of `w` columns from its rows, bottom row first.
fn grid(w: usize, rows: &[&[Option<i32>]]) -> Vec<Option<i32>> {
    let mut g = Vec::new();
    for row in rows {
        assert_eq!(row.len(), w);
        g.extend_from_slice(row);
    }
    g
}

#[test]
fn bracket_finds_nearest_known_cells() {
    let g = grid(
        4,
        &[
            &[None, Some(1), None, None],
            &[Some(2), None, None, Some(3)],
            &[None, None, Some(4), None],
        ],
    );
    // (2, 1): left to x = 0, right to x = 3, down to the edge, up to y = 2
    assert_eq!(interpolation_bracket(&g, 4, 3, 2, 1), (0, 3, 0, 2));
    // (1, 2): no known cell to the left, so the edge; column 1 known at y = 0
    assert_eq!(interpolation_bracket(&g, 4, 3, 1, 2), (0, 2, 0, 2));
}

#[test]
fn bracket_of_known_cell_is_the_cell() {
    let g = grid(2, &[&[Some(1), Some(2)], &[Some(3), Some(4)]]);
    assert_eq!(interpolation_bracket(&g, 2, 2, 1, 0), (1, 1, 0, 0));
}

#[test]
fn fill_columns_copies_nearest_known_values() {
    let mut g = grid(
        3,
        &[
            &[None, None, Some(7)],
            &[Some(1), None, None],
            &[None, None, None],
            &[Some(3), None, Some(8)],
        ],
    );
    fill_columns(&mut g, 3, 4);
    let expected = grid(
        3,
        &[
            &[Some(1), None, Some(7)],
            &[Some(1), None, Some(7)],
            &[Some(1), None, Some(7)],
            &[Some(3), None, Some(8)],
        ],
    );
    assert_eq!(g, expected);
}

#[test]
fn fill_columns_leaves_gaps_only_in_empty_columns() {
    let mut g = grid(2, &[&[None, None], &[None, Some(5)], &[None, None]]);
    fill_columns(&mut g, 2, 3);
    assert_eq!(g, grid(2, &[&[None, Some(5)], &[None, Some(5)], &[None, Some(5)]]));
}

#[test]
fn known_neighbors_in_window_order() {
    let g = grid(
        3,
        &[
            &[Some(1), Some(2), Some(3)],
            &[Some(4), None, Some(6)],
            &[Some(7), Some(8), None],
        ],
    );
    assert_eq!(known_neighbors(&g, 3, 3, 1, 1), vec![1, 4, 7, 2, 8, 3, 6]);
    assert_eq!(known_neighbors(&g, 3, 3, 0, 0), vec![1, 4, 2]);
    assert_eq!(known_neighbors(&g, 3, 3, 2, 2), vec![8, 6]);
}

#[test]
fn ground_and_water_points_count() {
    assert!(is_ground_point(2, 9));
    assert!(is_ground_point(9, 9));
    assert!(!is_ground_point(5, 9));
}
