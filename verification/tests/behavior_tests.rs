use strata::domain::CategoryId;
use strata::engine::SandEngine;
use strata::settings::{BlinkSettings, SandEngineSettings, TimeSettings};
use strata::storage::{
    get_active_session_path, get_category_tags_path, get_sand_state_path, CategoryTagsState,
    CATEGORY_TAGS_VERSION,
};

#[test]
fn center_grain_survives_shrink_by_half() {
    let mut se = SandEngine::new(40, 40);
    se.place_grain(80, 40, CategoryId::new(1));

    se.resize(20, 20);

    assert_eq!(se.grain_count, 1);
    let mut found = 0;
    for y in 0..se.grid.len() {
        for x in 0..se.grid[y].len() {
            if se.grain_at(y, x) == Some(CategoryId::new(1)) {
                found += 1;
            }
        }
    }
    assert_eq!(found, 1);
}

#[test]
fn spawn_on_empty_grid_adds_one_grain_to_top_row() {
    let mut se = SandEngine::new(5, 5);
    se.spawn(CategoryId::new(3));

    assert_eq!(se.grain_count, 1);
    let mut top_row_grains = 0;
    for x in 0..se.grid[0].len() {
        if se.grain_at(0, x) == Some(CategoryId::new(3)) {
            top_row_grains += 1;
        }
    }
    assert_eq!(top_row_grains, 1);
}

#[test]
fn spawn_on_zero_capacity_grid_is_a_no_op() {
    let mut se = SandEngine::new(0, 0);
    se.spawn(CategoryId::new(1));
    assert_eq!(se.grain_count, 0);
}

#[test]
fn update_applies_gravity_on_every_other_call() {
    let mut se = SandEngine::new(5, 5);
    se.place_grain(0, 3, CategoryId::new(1));

    se.update();
    assert_eq!(se.frame_count, 1);
    assert_eq!(se.grain_at(0, 3), Some(CategoryId::new(1)));

    se.update();
    assert_eq!(se.frame_count, 2);
    assert_eq!(se.grain_at(0, 3), None);
    assert_eq!(se.grain_at(1, 3), Some(CategoryId::new(1)));
    assert_eq!(se.grain_count, 1);
}

#[test]
fn settled_grains_pile_on_the_bottom_row() {
    let mut se = SandEngine::new(3, 2);
    let bottom = se.grid.len() - 1;
    se.place_grain(bottom, 0, CategoryId::new(1));

    for _ in 0..4 {
        se.update();
    }

    assert_eq!(se.grain_at(bottom, 0), Some(CategoryId::new(1)));
    assert_eq!(se.grain_count, 1);
}

#[test]
fn clear_empties_the_grid() {
    let mut se = SandEngine::new(10, 10);
    se.place_grain(1, 1, CategoryId::new(1));
    se.place_grain(2, 2, CategoryId::new(2));

    se.clear();

    assert_eq!(se.grain_count, 0);
    assert_eq!(se.grain_at(1, 1), None);
    assert_eq!(se.grain_at(2, 2), None);
}

#[test]
fn clear_category_removes_only_matching_grains() {
    let mut se = SandEngine::new(10, 10);
    se.place_grain(1, 1, CategoryId::new(1));
    se.place_grain(2, 2, CategoryId::new(2));
    se.place_grain(3, 3, CategoryId::new(1));

    se.clear_category(CategoryId::new(1));

    assert_eq!(se.grain_count, 1);
    assert_eq!(se.grain_at(1, 1), None);
    assert_eq!(se.grain_at(3, 3), None);
    assert_eq!(se.grain_at(2, 2), Some(CategoryId::new(2)));
}

#[test]
fn resize_grow_preserves_every_category_count() {
    let mut se = SandEngine::new(10, 10);
    se.place_grain(0, 0, CategoryId::new(1));
    se.place_grain(5, 5, CategoryId::new(2));
    se.place_grain(10, 10, CategoryId::new(2));

    se.resize(20, 30);

    let mut count1 = 0;
    let mut count2 = 0;
    for y in 0..se.grid.len() {
        for x in 0..se.grid[y].len() {
            match se.grain_at(y, x) {
                Some(id) if id == CategoryId::new(1) => count1 += 1,
                Some(id) if id == CategoryId::new(2) => count2 += 1,
                _ => (),
            }
        }
    }
    assert_eq!(count1, 1);
    assert_eq!(count2, 2);
    assert_eq!(se.grain_count, 3);
}

#[test]
fn state_paths_join_the_state_directory() {
    assert_eq!(
        get_active_session_path("/tmp/state"),
        "/tmp/state/active_session.json"
    );
    assert_eq!(get_sand_state_path("/tmp/state"), "/tmp/state/sand_state.json");
    assert_eq!(
        get_category_tags_path("/tmp/state"),
        "/tmp/state/category_tags.json"
    );
}

#[test]
fn category_tags_state_defaults_to_current_version() {
    let state = CategoryTagsState::default();
    assert_eq!(state.version, CATEGORY_TAGS_VERSION);
    assert!(state.tags_by_category.is_empty());
}

#[test]
fn settings_records_hold_their_fields() {
    let time = TimeSettings { tick_ms: 1000, physics_ms: 32, target_fps: 24 };
    assert_eq!(time.tick_ms, 1000);

    let sand = SandEngineSettings { braille_base: 0x2800, dot_height: 4, dot_width: 2 };
    assert_eq!(sand.dot_height * sand.dot_width, 8);

    let blink = BlinkSettings {
        interval_min_frames: 150,
        interval_max_frames: 300,
        duration_min_frames: 10,
        duration_max_frames: 17,
    };
    assert!(blink.interval_min_frames < blink.interval_max_frames);
}

#[test]
fn ics_datetime_drops_separators_and_pads() {
    assert_eq!(
        strata::export::format_ics_datetime("2026-02-25", "10:30:00"),
        "20260225T10300000"
    );
    assert_eq!(strata::export::format_ics_datetime("", ""), "T00");
}

#[test]
fn resize_to_zero_width_drops_everything() {
    let mut se = SandEngine::new(10, 10);
    se.place_grain(5, 5, CategoryId::new(1));

    se.resize(0, 10);

    assert_eq!(se.grain_count, 0);
    assert_eq!(se.width, 0);
}

#[test]
fn zero_sized_engine_renders_nothing() {
    let se = SandEngine::new(0, 0);
    let cells = se.render_cells();
    assert!(cells.is_empty());
}
