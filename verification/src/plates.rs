//! Row plate extraction: cutting one grid row into maximal horizontal runs.

use vstd::prelude::*;
use crate::grid::WallCellSet;

verus! {

/// A horizontal run of solid cells within one row: columns `left..=right`,
/// both inclusive. Equality is structural, which the vertical merger relies
/// on: a plate that reappears unchanged on the next row is "the same" plate.
#[derive(Clone, Copy, PartialEq, Eq, Structural, Debug)]
pub struct Plate {
    pub left: i32,
    pub right: i32,
}

/// Whether column `x` lies inside plate `p`.
pub open spec fn plate_covers(p: Plate, x: int) -> bool {
    p.left <= x <= p.right
}

/// The plates of one row stand in left-to-right order, each non-empty, with
/// at least one empty column between consecutive runs.
pub open spec fn row_sorted(row: Seq<Plate>) -> bool {
    &&& forall|i: int| 0 <= i < row.len() ==> row[i].left <= row[i].right
    &&& forall|i: int, j: int| 0 <= i < j < row.len() ==> row[i].right + 1 < row[j].left
}

/// Whether `row` holds `p` itself (by structural equality).
pub open spec fn row_has_plate(row: Seq<Plate>, p: Plate) -> bool {
    exists|i: int| 0 <= i < row.len() && row[i] == p
}

/// Whether some plate of `row` covers column `x`.
pub open spec fn row_covers(row: Seq<Plate>, x: int) -> bool {
    exists|i: int| 0 <= i < row.len() && plate_covers(row[i], x)
}

/// `p` is a maximal solid run of row `y` on a grid `width` columns wide:
/// every column of `p` is solid and the columns just outside `p` are not
/// (or lie outside the grid).
pub open spec fn run_at(ws: WallCellSet, width: int, y: int, p: Plate) -> bool {
    &&& 0 <= p.left <= p.right < width
    &&& forall|x: int| p.left <= x <= p.right ==> ws.solid(x, y)
    &&& (p.left == 0 || !ws.solid(p.left - 1, y))
    &&& (p.right == width - 1 || !ws.solid(p.right + 1, y))
}

/// Full characterization of one row's plate list: ordered, every plate a
/// maximal run, and every in-grid solid cell of the row covered.
pub open spec fn plates_of_row(ws: WallCellSet, width: int, y: int, row: Seq<Plate>) -> bool {
    &&& row_sorted(row)
    &&& forall|i: int| 0 <= i < row.len() ==> run_at(ws, width, y, #[trigger] row[i])
    &&& forall|x: int| 0 <= x < width && ws.solid(x, y) ==> row_covers(row, x)
}

/// A maximal run is always listed: the plate list of a row holds every plate
/// that is a maximal solid run of that row.
pub proof fn lemma_run_has_plate(ws: WallCellSet, width: int, y: int, row: Seq<Plate>, p: Plate)
    requires
        plates_of_row(ws, width, y, row),
        run_at(ws, width, y, p),
    ensures
        row_has_plate(row, p),
{
    assert(ws.solid(p.left as int, y));
    assert(row_covers(row, p.left as int));
    let i = choose|i: int| 0 <= i < row.len() && plate_covers(row[i], p.left as int);
    let q = row[i];
    assert(run_at(ws, width, y, q));
    // The two maximal runs share column p.left, so they coincide.
    lemma_runs_overlap_equal(ws, width, y, p, q, p.left as int);
    assert(row[i] == p);
}

/// Two maximal runs of the same row that share a column are the same run.
pub proof fn lemma_runs_overlap_equal(
    ws: WallCellSet,
    width: int,
    y: int,
    p: Plate,
    q: Plate,
    x: int,
)
    requires
        run_at(ws, width, y, p),
        run_at(ws, width, y, q),
        plate_covers(p, x),
        plate_covers(q, x),
    ensures
        p == q,
{
    if p.left < q.left {
        // q.left - 1 lies inside p, so it is solid, contradicting q's left edge.
        assert(ws.solid(q.left - 1, y));
        assert(false);
    }
    if q.left < p.left {
        assert(ws.solid(p.left - 1, y));
        assert(false);
    }
    if p.right < q.right {
        assert(ws.solid(p.right + 1, y));
        assert(false);
    }
    if q.right < p.right {
        assert(ws.solid(q.right + 1, y));
        assert(false);
    }
}

/// A row of a cell set with no solid cells yields no plates.
pub proof fn lemma_no_solid_no_plates(ws: WallCellSet, width: int, y: int, row: Seq<Plate>)
    requires
        plates_of_row(ws, width, y, row),
        forall|x: int| !ws.solid(x, y),
    ensures
        row.len() == 0,
{
    if row.len() > 0 {
        assert(run_at(ws, width, y, row[0]));
        assert(ws.solid(row[0].left as int, y));
        assert(false);
    }
}

/// Scans row `y` left to right and emits its maximal runs of solid cells,
/// sweeping one column past the grid's right edge so a trailing run closes.
pub fn extract_row_plates(ws: &WallCellSet, width: i32, y: i32) -> (row: Vec<Plate>)
    requires
        width < i32::MAX,
    ensures
        plates_of_row(*ws, width as int, y as int, row@),
{
    let mut row: Vec<Plate> = Vec::new();
    if width <= 0 {
        // A degenerate grid has no columns, hence no runs.
        return row;
    }
    let mut run_start: Option<i32> = None;
    let mut x: i32 = 0;
    while x <= width
        invariant
            width < i32::MAX,
            0 <= x <= width + 1,
            row_sorted(row@),
            forall|i: int|
                0 <= i < row@.len() ==> run_at(*ws, width as int, y as int, #[trigger] row@[i]),
            match run_start {
                Some(s) => {
                    &&& x <= width
                    &&& 0 <= s < x
                    &&& forall|x0: int| s <= x0 < x ==> ws.solid(x0, y as int)
                    &&& (s == 0 || !ws.solid(s - 1, y as int))
                    &&& forall|x0: int| 0 <= x0 < s && ws.solid(x0, y as int) ==> row_covers(row@, x0)
                    &&& forall|i: int| 0 <= i < row@.len() ==> (#[trigger] row@[i]).right + 1 < s
                },
                None => {
                    &&& (x == 0 || x > width || !ws.solid(x - 1, y as int))
                    &&& forall|x0: int|
                        0 <= x0 < x && x0 < width && ws.solid(x0, y as int) ==> row_covers(row@, x0)
                    &&& forall|i: int| 0 <= i < row@.len() ==> (#[trigger] row@[i]).right + 1 < x
                },
            },
        decreases width + 1 - x,
    {
        let is_solid = x < width && ws.contains(x, y);
        match run_start {
            Some(s) => {
                if !is_solid {
                    let p = Plate { left: s, right: x - 1 };
                    proof {
                        assert(run_at(*ws, width as int, y as int, p));
                        assert forall|x0: int|
                            0 <= x0 < x + 1 && x0 < width && ws.solid(x0, y as int)
                                implies row_covers(row@.push(p), x0) by {
                            if x0 < s {
                                assert(row_covers(row@, x0));
                                let i = choose|i: int|
                                    0 <= i < row@.len() && plate_covers(row@[i], x0);
                                assert(plate_covers(row@.push(p)[i], x0));
                            } else {
                                assert(plate_covers(p, x0));
                                assert(plate_covers(row@.push(p)[row@.len() as int], x0));
                            }
                        }
                    }
                    row.push(p);
                    run_start = None;
                }
            },
            None => {
                if is_solid {
                    run_start = Some(x);
                }
            },
        }
        x = x + 1;
    }
    row
}

} // verus!
