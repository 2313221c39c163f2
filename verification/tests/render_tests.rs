use strata::domain::CategoryId;
use strata::engine::SandEngine;

#[test]
fn empty_cell_renders_blank_braille_glyph() {
    let se = SandEngine::new(2, 1);
    let cells = se.render_cells();
    assert_eq!(cells.len(), 1);
    assert_eq!(cells[0].len(), 2);
    assert_eq!(cells[0][0].codepoint, 0x2800);
    assert!(cells[0][0].shares.is_empty());
}

#[test]
fn top_left_grain_sets_dot_one() {
    let mut se = SandEngine::new(2, 1);
    se.place_grain(0, 0, CategoryId::new(1));
    let cell = se.render_cell(0, 0);
    assert_eq!(cell.codepoint, 0x2801);
    assert_eq!(cell.shares, vec![(CategoryId::new(1), 1)]);
}

#[test]
fn bottom_right_subcell_sets_dot_eight() {
    let mut se = SandEngine::new(2, 1);
    se.place_grain(3, 1, CategoryId::new(1));
    let cell = se.render_cell(0, 0);
    assert_eq!(cell.codepoint, 0x2800 + 0x80);
}

#[test]
fn full_cell_renders_all_dots() {
    let mut se = SandEngine::new(2, 1);
    for y in 0..4 {
        for x in 0..2 {
            se.place_grain(y, x, CategoryId::new(5));
        }
    }
    let cell = se.render_cell(0, 0);
    assert_eq!(cell.codepoint, 0x28FF);
    assert_eq!(cell.shares, vec![(CategoryId::new(5), 8)]);
}

#[test]
fn shares_list_categories_in_first_appearance_order() {
    let mut se = SandEngine::new(2, 1);
    for y in 0..4 {
        se.place_grain(y, 0, CategoryId::new(1));
        se.place_grain(y, 1, CategoryId::new(2));
    }
    let cell = se.render_cell(0, 0);
    assert_eq!(cell.codepoint, 0x28FF);
    assert_eq!(
        cell.shares,
        vec![(CategoryId::new(1), 4), (CategoryId::new(2), 4)]
    );
}

#[test]
fn second_glyph_cell_reads_its_own_subcells() {
    let mut se = SandEngine::new(2, 1);
    se.place_grain(0, 2, CategoryId::new(7));
    let cells = se.render_cells();
    assert_eq!(cells[0][0].codepoint, 0x2800);
    assert_eq!(cells[0][1].codepoint, 0x2801);
    assert_eq!(cells[0][1].shares, vec![(CategoryId::new(7), 1)]);
}

#[test]
fn render_emits_one_glyph_per_terminal_cell() {
    let se = SandEngine::new(5, 3);
    let cells = se.render_cells();
    assert_eq!(cells.len(), 3);
    for row in &cells {
        assert_eq!(row.len(), 5);
    }
}
