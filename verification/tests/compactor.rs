use wall_compactor::compact::compact_rects;
use wall_compactor::grid::{GridCoords, WallCellSet};
use wall_compactor::merge::{merge_plate_stack, Rect};
use wall_compactor::plates::{extract_row_plates, Plate};

fn set_of(cells: &[(i32, i32)]) -> WallCellSet {
    let mut ws = WallCellSet::new();
    for &(x, y) in cells {
        ws.insert(GridCoords { x, y });
    }
    ws
}

fn rect(left: i32, right: i32, top: i32, bottom: i32) -> Rect {
    Rect { left, right, top, bottom }
}

#[test]
fn empty_set_yields_no_plates_and_no_rects() {
    let ws = WallCellSet::new();
    for y in 0..4 {
        assert_eq!(extract_row_plates(&ws, 4, y), vec![]);
    }
    assert_eq!(compact_rects(&ws, 4, 4), vec![]);
}

#[test]
fn single_cell_level() {
    let ws = set_of(&[(0, 0)]);
    assert_eq!(compact_rects(&ws, 1, 1), vec![rect(0, 0, 0, 0)]);
}

#[test]
fn horizontal_run_one_rect() {
    let ws = set_of(&[(0, 0), (1, 0), (2, 0)]);
    assert_eq!(compact_rects(&ws, 3, 1), vec![rect(0, 2, 0, 0)]);
}

#[test]
fn vertical_merge_one_rect() {
    let ws = set_of(&[(0, 0), (0, 1), (0, 2)]);
    assert_eq!(compact_rects(&ws, 1, 3), vec![rect(0, 0, 2, 0)]);
}

#[test]
fn shape_change_breaks_merge() {
    let ws = set_of(&[(0, 0), (1, 0), (0, 1)]);
    let rects = compact_rects(&ws, 2, 2);
    assert_eq!(rects.len(), 2);
    assert!(rects.contains(&rect(0, 1, 0, 0)));
    assert!(rects.contains(&rect(0, 0, 1, 1)));
}

#[test]
fn compactor_is_deterministic() {
    let cells = [(0, 0), (1, 0), (3, 0), (0, 1), (1, 1), (3, 1), (0, 2), (2, 2), (3, 2)];
    let ws1 = set_of(&cells);
    let ws2 = set_of(&cells);
    let first = compact_rects(&ws1, 4, 3);
    let second = compact_rects(&ws2, 4, 3);
    assert_eq!(first, second);
}

#[test]
fn fully_solid_grid_is_one_rect() {
    let mut cells = Vec::new();
    for y in 0..3 {
        for x in 0..3 {
            cells.push((x, y));
        }
    }
    let ws = set_of(&cells);
    assert_eq!(compact_rects(&ws, 3, 3), vec![rect(0, 2, 2, 0)]);
}

#[test]
fn gap_in_row_splits_plates() {
    let ws = set_of(&[(0, 0), (2, 0)]);
    let plates = extract_row_plates(&ws, 3, 0);
    assert_eq!(plates, vec![Plate { left: 0, right: 0 }, Plate { left: 2, right: 2 }]);
    let rects = compact_rects(&ws, 3, 1);
    assert_eq!(rects.len(), 2);
    assert!(rects.contains(&rect(0, 0, 0, 0)));
    assert!(rects.contains(&rect(2, 2, 0, 0)));
}

#[test]
fn entirely_solid_row_is_one_plate() {
    let ws = set_of(&[(0, 5), (1, 5), (2, 5), (3, 5)]);
    assert_eq!(extract_row_plates(&ws, 4, 5), vec![Plate { left: 0, right: 3 }]);
}

#[test]
fn every_solid_cell_covered_exactly_once() {
    // a plus shape
    let cells = [(1, 0), (0, 1), (1, 1), (2, 1), (1, 2)];
    let ws = set_of(&cells);
    let rects = compact_rects(&ws, 3, 3);
    for &(x, y) in &cells {
        let n = rects
            .iter()
            .filter(|rc| rc.left <= x && x <= rc.right && rc.bottom <= y && y <= rc.top)
            .count();
        assert_eq!(n, 1, "cell ({x}, {y}) covered {n} times");
    }
    // and nothing outside the solid cells is covered
    for x in 0..3 {
        for y in 0..3 {
            if !cells.contains(&(x, y)) {
                let n = rects
                    .iter()
                    .filter(|rc| {
                        rc.left <= x && x <= rc.right && rc.bottom <= y && y <= rc.top
                    })
                    .count();
                assert_eq!(n, 0, "empty cell ({x}, {y}) covered {n} times");
            }
        }
    }
}

#[test]
fn degenerate_grid_yields_nothing() {
    let ws = set_of(&[(0, 0)]);
    assert_eq!(compact_rects(&ws, 0, 0), vec![]);
    assert_eq!(compact_rects(&ws, 0, 5), vec![]);
    assert_eq!(compact_rects(&ws, 5, 0), vec![]);
}

#[test]
fn cells_outside_grid_are_ignored() {
    let ws = set_of(&[(5, 5), (-1, 0), (0, -1)]);
    assert_eq!(compact_rects(&ws, 2, 2), vec![]);
}

#[test]
fn merge_stack_directly() {
    let p = Plate { left: 0, right: 1 };
    let stack = vec![vec![p], vec![p], vec![]];
    assert_eq!(merge_plate_stack(&stack), vec![rect(0, 1, 1, 0)]);
}

#[test]
fn shifted_plate_starts_new_rect() {
    // the run moves one column to the right between rows
    let ws = set_of(&[(0, 0), (1, 0), (1, 1), (2, 1)]);
    let rects = compact_rects(&ws, 3, 2);
    assert_eq!(rects.len(), 2);
    assert!(rects.contains(&rect(0, 1, 0, 0)));
    assert!(rects.contains(&rect(1, 2, 1, 1)));
}

#[test]
fn interrupted_column_gives_two_rects() {
    // same plate above and below a hole must not merge across it
    let ws = set_of(&[(0, 0), (0, 2)]);
    let rects = compact_rects(&ws, 1, 3);
    assert_eq!(rects.len(), 2);
    assert!(rects.contains(&rect(0, 0, 0, 0)));
    assert!(rects.contains(&rect(0, 0, 2, 2)));
}
