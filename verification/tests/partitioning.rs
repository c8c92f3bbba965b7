use wall_compactor::compact::compact_rects;
use wall_compactor::grid::{GridCoords, WallCellSet};
use wall_compactor::merge::Rect;
use wall_compactor::partition::{partition_by_level, LevelWalls, TaggedWallCell};

fn tagged(level: Option<u64>, x: i32, y: i32) -> TaggedWallCell {
    TaggedWallCell { level, cell: GridCoords { x, y } }
}

fn level_of(levels: &[LevelWalls], id: u64) -> &LevelWalls {
    levels.iter().find(|lw| lw.level == id).expect("level missing")
}

#[test]
fn empty_batch_signals_nothing() {
    let batch: Vec<TaggedWallCell> = Vec::new();
    let (levels, ready) = partition_by_level(&batch);
    assert_eq!(levels.len(), 0);
    assert!(!ready);
}

#[test]
fn batch_groups_cells_by_level() {
    let batch = vec![
        tagged(Some(1), 0, 0),
        tagged(Some(2), 5, 5),
        tagged(Some(1), 1, 0),
        tagged(Some(2), 6, 5),
    ];
    let (levels, ready) = partition_by_level(&batch);
    assert!(ready);
    assert_eq!(levels.len(), 2);
    let one = level_of(&levels, 1);
    assert!(one.cells.contains(0, 0) && one.cells.contains(1, 0));
    assert!(!one.cells.contains(5, 5));
    let two = level_of(&levels, 2);
    assert!(two.cells.contains(5, 5) && two.cells.contains(6, 5));
    assert!(!two.cells.contains(0, 0));
}

#[test]
fn unresolved_cells_are_excluded() {
    let batch = vec![tagged(None, 0, 0), tagged(Some(7), 1, 1), tagged(None, 2, 2)];
    let (levels, ready) = partition_by_level(&batch);
    assert!(ready);
    assert_eq!(levels.len(), 1);
    assert_eq!(levels[0].level, 7);
    assert!(levels[0].cells.contains(1, 1));
    assert!(!levels[0].cells.contains(0, 0));
    assert!(!levels[0].cells.contains(2, 2));
}

#[test]
fn all_unresolved_batch_still_signals() {
    let batch = vec![tagged(None, 0, 0)];
    let (levels, ready) = partition_by_level(&batch);
    assert_eq!(levels.len(), 0);
    assert!(ready);
}

#[test]
fn duplicate_cells_are_stored_once() {
    let batch = vec![tagged(Some(3), 4, 4), tagged(Some(3), 4, 4), tagged(Some(3), 4, 4)];
    let (levels, _) = partition_by_level(&batch);
    assert_eq!(levels.len(), 1);
    assert_eq!(levels[0].cells.len(), 1);
    assert!(levels[0].cells.contains(4, 4));
}

#[test]
fn levels_compact_independently() {
    // two levels loaded in one batch: each gets its own rectangles
    let batch = vec![
        tagged(Some(10), 0, 0),
        tagged(Some(10), 1, 0),
        tagged(Some(20), 0, 0),
        tagged(Some(20), 0, 1),
    ];
    let (levels, ready) = partition_by_level(&batch);
    assert!(ready);
    let a = compact_rects(&level_of(&levels, 10).cells, 2, 2);
    assert_eq!(a, vec![Rect { left: 0, right: 1, top: 0, bottom: 0 }]);
    let b = compact_rects(&level_of(&levels, 20).cells, 2, 2);
    assert_eq!(b, vec![Rect { left: 0, right: 0, top: 1, bottom: 0 }]);
}

#[test]
fn cell_set_basics() {
    let mut ws = WallCellSet::new();
    assert!(ws.is_empty());
    ws.insert(GridCoords { x: 2, y: 3 });
    ws.insert(GridCoords { x: 2, y: 3 });
    assert_eq!(ws.len(), 1);
    assert!(!ws.is_empty());
    assert!(ws.contains(2, 3));
    assert!(!ws.contains(3, 2));
}
