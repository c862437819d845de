use rill::chip0::PodCell;
use rill::viewport::{clamp_offset, compose_viewport, follow_live_after_input, ingest_scrolled, LiveGrid, MAX_HISTORY_ROWS};

fn row(n: usize, cp: u32) -> Vec<PodCell> {
    vec![PodCell { codepoint: cp, fg: 0, bg: 0, attrs: 0, _pad: 0 }; n]
}

fn live(cols: u16, rows: u16, cp: u32) -> LiveGrid {
    LiveGrid {
        cols,
        rows,
        cursor_col: 1,
        cursor_row: 1,
        cursor_visible: true,
        full_damage: false,
        damage_row0: 0,
        damage_row1: 0,
        default_fg: 5,
        default_bg: 6,
        grapheme_truncated: 0,
        replies_dropped: 0,
        cells: row(cols as usize * rows as usize, cp),
    }
}

#[test]
fn compose_zero_offset_is_live() {
    let grid = live(4, 2, 66);
    let view = compose_viewport(&vec![row(4, 77)], &grid, 0);
    assert_eq!(view.cells, grid.cells);
    assert!(view.cursor_visible);
}

#[test]
fn scrolled_view_shows_history_rows_above_live() {
    let grid = live(4, 2, 66);
    let history = vec![row(4, 77), row(2, 78)];
    let view = compose_viewport(&history, &grid, 1);
    assert_eq!(view.cells.len(), 8);
    assert_eq!(view.cells[0].codepoint, 78);
    assert_eq!(view.cells[2].codepoint, 32, "short history rows are padded with blanks");
    assert_eq!(view.cells[2].fg, 5);
    assert_eq!(view.cells[4].codepoint, 66);
    assert!(!view.cursor_visible);
    assert!(view.full_damage);
    assert_eq!(view.damage_row1, 1);
    let top = compose_viewport(&history, &grid, 99);
    assert_eq!(top.cells[0].codepoint, 77);
}

#[test]
fn offset_is_capped_at_history_length() {
    assert_eq!(clamp_offset(3, 24, 10), 3);
    assert_eq!(clamp_offset(3, 24, 2), 2);
}

#[test]
fn history_keeps_the_newest_rows() {
    let mut history = Vec::new();
    ingest_scrolled(&mut history, vec![row(1, 1), row(1, 2)]);
    assert_eq!(history.len(), 2);
    let many: Vec<Vec<PodCell>> = (0..MAX_HISTORY_ROWS as u32 + 5).map(|i| row(1, i)).collect();
    ingest_scrolled(&mut history, many);
    assert_eq!(history.len(), MAX_HISTORY_ROWS);
    assert_eq!(history[MAX_HISTORY_ROWS - 1][0].codepoint, MAX_HISTORY_ROWS as u32 + 4);
}

#[test]
fn input_returns_the_viewport_to_the_live_tail() {
    assert_eq!(follow_live_after_input(0), 0);
    assert_eq!(follow_live_after_input(37), 0);
    assert_eq!(follow_live_after_input(u32::MAX), 0);
}
