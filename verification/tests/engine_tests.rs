use strata::domain::CategoryId;
use strata::engine::SandEngine;

fn scan_count(se: &SandEngine) -> usize {
    let mut n = 0;
    for y in 0..se.grid.len() {
        for x in 0..se.grid[y].len() {
            if se.grain_at(y, x).is_some() {
                n += 1;
            }
        }
    }
    n
}

fn scan_count_of(se: &SandEngine, id: CategoryId) -> usize {
    let mut n = 0;
    for y in 0..se.grid.len() {
        for x in 0..se.grid[y].len() {
            if se.grain_at(y, x) == Some(id) {
                n += 1;
            }
        }
    }
    n
}

#[test]
fn engine_test_sand_resize_basic_copy() {
    let mut se = SandEngine::new(20, 20);
    se.place_grain(40, 20, CategoryId::new(0));

    let before = scan_count(&se);
    se.resize(20, 20);
    let after = scan_count(&se);

    assert_eq!(before, after);
}

#[test]
fn engine_test_sand_resize_expand_preserves_grains() {
    let mut se = SandEngine::new(20, 20);
    se.place_grain(40, 20, CategoryId::new(0));

    let before = scan_count(&se);
    se.resize(40, 40);
    let after = scan_count(&se);

    assert_eq!(before, after);
}

#[test]
fn engine_test_sand_resize_shrink_center_preserves_grains() {
    let mut se = SandEngine::new(40, 40);
    se.place_grain(80, 40, CategoryId::new(0));

    let before = scan_count(&se);
    se.resize(20, 20);
    let after = scan_count(&se);

    assert_eq!(before, after);
}

#[test]
fn engine_test_sand_resize_preserves_count_right_edge() {
    let mut se = SandEngine::new(80, 50);
    let cell_w = se.width as usize / 2;
    let cell_h = se.height as usize / 4;

    for cy in 0..cell_h {
        for cx in (cell_w - 10..cell_w).rev() {
            if cx < cell_w {
                se.place_grain(cy, cx, CategoryId::new(1));
            }
        }
    }

    let original_count = se.grain_count;
    se.resize(60, 50);

    assert_eq!(se.grain_count, original_count);
}

#[test]
fn engine_test_sand_resize_preserves_count_expand() {
    let mut se = SandEngine::new(50, 50);
    let cell_w = se.width as usize / 2;
    let cell_h = se.height as usize / 4;

    if cell_h > 2 && cell_w > 2 {
        se.place_grain(cell_h / 2, cell_w / 2, CategoryId::new(0));
        se.place_grain(cell_h / 2 + 1, cell_w / 2, CategoryId::new(0));
    }

    let original_count = se.grain_count;
    se.resize(80, 80);

    assert!(se.grain_count >= original_count);
}

#[test]
fn engine_test_sand_resize_left_edge_band() {
    let mut se = SandEngine::new(40, 40);

    for y in 0..se.grid.len() {
        for x in 0..(5 * 2usize).min(se.grid[0].len()) {
            se.place_grain(y, x, CategoryId::new(1));
        }
    }

    let before = scan_count(&se);
    se.resize(30, 40);
    let after = scan_count(&se);

    let new_capacity = 30 * 40 * 2 * 4;
    let expected = before.min(new_capacity);

    assert_eq!(after, expected);

    let band_w = (30usize / 40).max(2).min(6);
    let mut left_band_count = 0;
    for y in 0..se.grid.len() {
        for x in 0..band_w {
            if se.grain_at(y, x).is_some() {
                left_band_count += 1;
            }
        }
    }

    assert!(left_band_count > 0);
}

#[test]
fn engine_test_sand_resize_preserves_category_id_per_grain() {
    let mut se = SandEngine::new(40, 40);

    for y in 0..20 {
        for x in 0..20 {
            se.place_grain(y, x, CategoryId::new(1));
        }
    }
    for y in 20..40 {
        for x in 20..40 {
            se.place_grain(y, x, CategoryId::new(2));
        }
    }

    se.resize(30, 30);

    let work_count = scan_count_of(&se, CategoryId::new(1));
    let _play_count = scan_count_of(&se, CategoryId::new(2));

    assert!(work_count > 0);
}

#[test]
fn spawn_on_empty_top_row_always_places() {
    let mut se = SandEngine::new(4, 4);
    se.spawn(CategoryId::new(3));
    assert_eq!(se.grain_count, 1);
}

#[test]
fn update_settles_grain_straight_down_on_even_tick() {
    let mut se = SandEngine::new(4, 4);
    se.clear();
    se.place_grain(14, 3, CategoryId::new(1));
    se.update();
    assert_eq!(se.grain_at(14, 3), Some(CategoryId::new(1)));
    se.update();
    assert_eq!(se.grain_at(15, 3), Some(CategoryId::new(1)));
    assert_eq!(se.grain_at(14, 3), None);
}

#[test]
fn shrink_with_pre_occupied_band_conserves_grains() {
    let mut se = SandEngine::new(80, 20);
    se.clear();
    for y in 0..80 {
        for x in 0..10 {
            se.place_grain(y, x, CategoryId::new(1));
        }
        for x in 60..65 {
            se.place_grain(y, x, CategoryId::new(2));
        }
    }
    assert_eq!(se.grain_count, 80 * 15);
    se.resize(20, 20);
    assert_eq!(se.grain_count, 80 * 15);
}
