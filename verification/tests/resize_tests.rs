use strata::domain::CategoryId;
use strata::grid::{count_grains, Cell};
use strata::resize::{kept_window, resize_grid};

fn count(grid: &Vec<Vec<Cell>>) -> usize {
    let w = if grid.is_empty() { 0 } else { grid[0].len() };
    count_grains(grid, w)
}

#[test]
fn test_resize_grid_left_band_preserves_count() {
    let mut old: Vec<Vec<Cell>> = vec![vec![None; 80]; 40];
    for row in &mut old {
        for cell in row.iter_mut().take(8) {
            *cell = Some(CategoryId::new(1));
        }
    }

    let before = count(&old);
    let resized = resize_grid(&old, 60, 40, 2, 4);
    let after = count(&resized);

    assert_eq!(before, after);
    assert!(resized.iter().any(|row| row[0].is_some()));
}

#[test]
fn test_resize_grid_preserves_category_ids() {
    let mut old: Vec<Vec<Cell>> = vec![vec![None; 80]; 40];
    for row in old.iter_mut().take(20) {
        for cell in row.iter_mut().take(20) {
            *cell = Some(CategoryId::new(1));
        }
    }
    for row in old.iter_mut().skip(20) {
        for cell in row.iter_mut().skip(20).take(20) {
            *cell = Some(CategoryId::new(2));
        }
    }

    let resized = resize_grid(&old, 60, 30, 2, 4);
    let work_count = resized
        .iter()
        .flat_map(|row| row.iter())
        .filter(|cell| **cell == Some(CategoryId::new(1)))
        .count();

    assert!(work_count > 0);
}

#[test]
fn kept_window_shrink_keeps_centered_range() {
    assert_eq!(kept_window(10, 4), (3, 7, 0));
    assert_eq!(kept_window(160, 80), (40, 120, 0));
}

#[test]
fn kept_window_grow_centers_destination() {
    assert_eq!(kept_window(4, 10), (0, 4, 3));
    assert_eq!(kept_window(80, 160), (0, 80, 40));
}

#[test]
fn kept_window_equal_is_identity() {
    assert_eq!(kept_window(5, 5), (0, 5, 0));
    assert_eq!(kept_window(0, 0), (0, 0, 0));
}

#[test]
fn resize_grid_grow_preserves_every_category_count() {
    let mut old: Vec<Vec<Cell>> = vec![vec![None; 8]; 8];
    old[0][0] = Some(CategoryId::new(1));
    old[3][5] = Some(CategoryId::new(2));
    old[7][7] = Some(CategoryId::new(2));
    old[4][4] = Some(CategoryId::new(3));

    let resized = resize_grid(&old, 16, 24, 2, 4);

    for k in 1u64..4 {
        let before = old
            .iter()
            .flat_map(|row| row.iter())
            .filter(|cell| **cell == Some(CategoryId::new(k)))
            .count();
        let after = resized
            .iter()
            .flat_map(|row| row.iter())
            .filter(|cell| **cell == Some(CategoryId::new(k)))
            .count();
        assert_eq!(before, after);
    }
}

#[test]
fn resize_grid_shrink_to_tiny_grid_drops_excess() {
    let mut old: Vec<Vec<Cell>> = vec![vec![None; 8]; 8];
    for row in &mut old {
        for cell in row.iter_mut() {
            *cell = Some(CategoryId::new(1));
        }
    }

    let resized = resize_grid(&old, 2, 2, 2, 4);
    assert_eq!(resized.len(), 2);
    assert_eq!(resized[0].len(), 2);
    assert_eq!(count(&resized), 4);
}

#[test]
fn left_band_fills_bottom_row_in_bucket_scan_order() {
    // Two grains are cut off on the left; the classification walks the
    // grid row-major, so the bucket is [2, 1], and the left band fills
    // from the bottom row leftward-first.
    let mut old: Vec<Vec<Cell>> = vec![vec![None; 8]; 8];
    old[0][1] = Some(CategoryId::new(2));
    old[7][0] = Some(CategoryId::new(1));

    let resized = resize_grid(&old, 4, 8, 2, 4);

    assert_eq!(resized[7][0], Some(CategoryId::new(2)));
    assert_eq!(resized[7][1], Some(CategoryId::new(1)));
    assert_eq!(count(&resized), 2);
}

#[test]
fn top_band_fills_inner_row_left_to_right() {
    // Two grains are cut off at the top; the top band fills its
    // innermost row first, columns left to right.
    let mut old: Vec<Vec<Cell>> = vec![vec![None; 4]; 16];
    old[0][0] = Some(CategoryId::new(1));
    old[3][3] = Some(CategoryId::new(2));

    let resized = resize_grid(&old, 4, 8, 2, 4);

    assert_eq!(resized[3][0], Some(CategoryId::new(1)));
    assert_eq!(resized[3][1], Some(CategoryId::new(2)));
    assert_eq!(count(&resized), 2);
}
