use std::collections::HashSet;

use strata::domain::CategoryId;
use strata::engine::SandEngine;
use strata::state::{SandState, SandStateGrain, SAND_STATE_VERSION};

#[test]
fn test_sand_state_snapshot_restore_round_trip() {
    let mut se = SandEngine::new(20, 20);
    se.clear();
    se.place_grain(3, 2, CategoryId::new(1));
    se.place_grain(10, 7, CategoryId::new(2));
    assert_eq!(se.grain_count, 2);

    let state = se.snapshot_state();

    let mut restored = SandEngine::new(20, 20);
    let valid = HashSet::from([0u64, 1, 2]);
    restored.restore_state(&state, &valid);

    assert_eq!(restored.grain_at(3, 2), Some(CategoryId::new(1)));
    assert_eq!(restored.grain_at(10, 7), Some(CategoryId::new(2)));
    assert_eq!(restored.grain_count, 2);
}

#[test]
fn test_sand_state_restore_maps_unknown_category_to_none() {
    let mut se = SandEngine::new(20, 20);
    se.clear();
    se.place_grain(2, 2, CategoryId::new(99));
    assert_eq!(se.grain_count, 1);

    let state = se.snapshot_state();

    let mut restored = SandEngine::new(20, 20);
    let valid = HashSet::from([0u64, 1]);
    restored.restore_state(&state, &valid);

    assert_eq!(restored.grain_at(2, 2), Some(CategoryId::new(0)));
    assert_eq!(restored.grain_count, 1);
}

#[test]
fn test_sand_state_restore_resizes_to_current_grid() {
    let mut small = SandEngine::new(20, 20);
    small.clear();
    small.place_grain(2, 2, CategoryId::new(1));
    small.place_grain(20, 20, CategoryId::new(2));
    assert_eq!(small.grain_count, 2);

    let state = small.snapshot_state();

    let mut large = SandEngine::new(40, 40);
    let valid = HashSet::from([0u64, 1, 2]);
    large.restore_state(&state, &valid);

    assert_eq!(large.grain_count, 2);
}

#[test]
fn snapshot_records_size_and_sparse_grains() {
    let mut se = SandEngine::new(10, 10);
    se.place_grain(0, 0, CategoryId::new(3));
    se.place_grain(39, 19, CategoryId::new(4));

    let state = se.snapshot_state();
    assert_eq!(state.version, SAND_STATE_VERSION);
    assert_eq!(state.grid_width, 20);
    assert_eq!(state.grid_height, 40);
    assert_eq!(state.grains.len(), 2);
    assert!(state
        .grains
        .iter()
        .any(|g| g.x == 0 && g.y == 0 && g.category_id == 3));
    assert!(state
        .grains
        .iter()
        .any(|g| g.x == 19 && g.y == 39 && g.category_id == 4));
}

#[test]
fn restore_ignores_foreign_version() {
    let mut se = SandEngine::new(10, 10);
    se.place_grain(5, 5, CategoryId::new(1));

    let state = SandState {
        version: SAND_STATE_VERSION.wrapping_add(1),
        grid_width: 20,
        grid_height: 40,
        grains: vec![SandStateGrain { x: 1, y: 1, category_id: 2 }],
    };
    let valid = HashSet::from([0u64, 1, 2]);
    se.restore_state(&state, &valid);

    assert_eq!(se.grain_at(5, 5), Some(CategoryId::new(1)));
    assert_eq!(se.grain_count, 1);
}

#[test]
fn restore_with_zero_dimension_clears_the_grid() {
    let mut se = SandEngine::new(10, 10);
    se.place_grain(5, 5, CategoryId::new(1));

    let state = SandState {
        version: SAND_STATE_VERSION,
        grid_width: 0,
        grid_height: 7,
        grains: vec![],
    };
    let valid = HashSet::from([0u64, 1]);
    se.restore_state(&state, &valid);

    assert_eq!(se.grain_count, 0);
    assert_eq!(se.grain_at(5, 5), None);
}

#[test]
fn restore_skips_out_of_range_grains() {
    let mut se = SandEngine::new(10, 10);

    let state = SandState {
        version: SAND_STATE_VERSION,
        grid_width: 20,
        grid_height: 40,
        grains: vec![
            SandStateGrain { x: 20, y: 0, category_id: 1 },
            SandStateGrain { x: 0, y: 40, category_id: 1 },
            SandStateGrain { x: 19, y: 39, category_id: 1 },
        ],
    };
    let valid = HashSet::from([0u64, 1]);
    se.restore_state(&state, &valid);

    assert_eq!(se.grain_count, 1);
    assert_eq!(se.grain_at(39, 19), Some(CategoryId::new(1)));
}

#[test]
fn snapshot_lists_grains_in_row_major_order() {
    let mut se = SandEngine::new(4, 4);
    se.clear();
    se.place_grain(5, 3, CategoryId::new(1));
    se.place_grain(2, 6, CategoryId::new(2));
    se.place_grain(2, 1, CategoryId::new(3));
    let st = se.snapshot_state();
    let coords: Vec<(usize, usize)> = st.grains.iter().map(|g| (g.y, g.x)).collect();
    assert_eq!(coords, vec![(2, 1), (2, 6), (5, 3)]);
}

#[test]
fn restore_skips_out_of_range_grains_and_keeps_the_rest() {
    let state = SandState {
        version: SAND_STATE_VERSION,
        grid_width: 8,
        grid_height: 16,
        grains: vec![
            SandStateGrain { x: 2, y: 3, category_id: 1 },
            SandStateGrain { x: 99, y: 3, category_id: 1 },
            SandStateGrain { x: 4, y: 40, category_id: 2 },
            SandStateGrain { x: 5, y: 6, category_id: 2 },
        ],
    };
    let mut se = SandEngine::new(4, 4);
    let valid = HashSet::from([0u64, 1, 2]);
    se.restore_state(&state, &valid);
    assert_eq!(se.grain_count, 2);
    assert_eq!(se.grain_at(3, 2), Some(CategoryId::new(1)));
    assert_eq!(se.grain_at(6, 5), Some(CategoryId::new(2)));
}
