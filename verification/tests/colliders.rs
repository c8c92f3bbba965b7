use wall_compactor::collider::{compact, emit_collider, ColliderDescriptor};
use wall_compactor::grid::{GridCoords, WallCellSet};
use wall_compactor::merge::Rect;

fn set_of(cells: &[(i32, i32)]) -> WallCellSet {
    let mut ws = WallCellSet::new();
    for &(x, y) in cells {
        ws.insert(GridCoords { x, y });
    }
    ws
}

/// The world-space halves of a descriptor: (hx, hy, cx, cy).
fn halves(d: &ColliderDescriptor) -> (f32, f32, f32, f32) {
    (
        d.double_hx as f32 / 2.0,
        d.double_hy as f32 / 2.0,
        d.double_cx as f32 / 2.0,
        d.double_cy as f32 / 2.0,
    )
}

#[test]
fn scale_two_by_one_rect() {
    let rc = Rect { left: 0, right: 1, top: 0, bottom: 0 };
    let d = emit_collider(&rc, 16);
    assert_eq!(halves(&d), (16.0, 8.0, 16.0, 8.0));
}

#[test]
fn emitted_values_are_doubled_formulas() {
    let rc = Rect { left: 2, right: 4, top: 5, bottom: 3 };
    let d = emit_collider(&rc, 8);
    // hx = 3 * 8 / 2, hy = 3 * 8 / 2, cx = 7 * 8 / 2, cy = 9 * 8 / 2
    assert_eq!(d.double_hx, 24);
    assert_eq!(d.double_hy, 24);
    assert_eq!(d.double_cx, 56);
    assert_eq!(d.double_cy, 72);
}

#[test]
fn odd_cell_size_stays_exact() {
    let rc = Rect { left: 0, right: 0, top: 0, bottom: 0 };
    let d = emit_collider(&rc, 5);
    assert_eq!(halves(&d), (2.5, 2.5, 2.5, 2.5));
}

#[test]
fn half_extents_strictly_positive() {
    let rc = Rect { left: 7, right: 7, top: 9, bottom: 9 };
    let d = emit_collider(&rc, 1);
    assert!(d.double_hx > 0 && d.double_hy > 0);
}

#[test]
fn pipeline_emits_one_descriptor_per_rect() {
    let ws = set_of(&[(0, 0), (1, 0)]);
    let ds = compact(&ws, 2, 1, 16);
    assert_eq!(ds.len(), 1);
    assert_eq!(halves(&ds[0]), (16.0, 8.0, 16.0, 8.0));
}

#[test]
fn pipeline_empty_input_emits_nothing() {
    let ws = WallCellSet::new();
    assert_eq!(compact(&ws, 8, 8, 16), vec![]);
}

#[test]
fn pipeline_is_deterministic() {
    let cells = [(0, 0), (1, 0), (0, 1), (2, 2)];
    let ws1 = set_of(&cells);
    let ws2 = set_of(&cells);
    assert_eq!(compact(&ws1, 3, 3, 16), compact(&ws2, 3, 3, 16));
}
