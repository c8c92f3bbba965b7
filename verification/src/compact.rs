//! The per-level compaction pipeline: wall cells in, rectangles out.

use vstd::prelude::*;
use crate::grid::WallCellSet;
use crate::plates::{
    Plate, extract_row_plates, lemma_run_has_plate, lemma_runs_overlap_equal, plate_covers,
    plates_of_row, row_covers, row_has_plate, row_sorted, run_at,
};
use crate::merge::{
    merge_plate_stack, merged_rect_ok, merged_spec, padded_row, rect_covers, rect_plate,
    rows_view, stacked_in, Rect,
};

verus! {

/// `rc` is a maximal vertical stack of one maximal horizontal run: every row
/// it spans holds exactly that run of solid cells, and the run does not
/// continue unchanged into the row above or below.
pub open spec fn wall_rect_ok(ws: WallCellSet, width: int, height: int, rc: Rect) -> bool {
    &&& 0 <= rc.left <= rc.right < width
    &&& 0 <= rc.bottom <= rc.top < height
    &&& forall|r: int| rc.bottom <= r <= rc.top ==> #[trigger] run_at(ws, width, r, rect_plate(rc))
    &&& (rc.bottom == 0 || !run_at(ws, width, rc.bottom - 1, rect_plate(rc)))
    &&& (rc.top == height - 1 || !run_at(ws, width, rc.top + 1, rect_plate(rc)))
}

/// Some rectangle of `rects` covers cell `(x, y)`.
pub open spec fn covered(rects: Seq<Rect>, x: int, y: int) -> bool {
    exists|i: int| 0 <= i < rects.len() && rect_covers(#[trigger] rects[i], x, y)
}

/// The compactor's full contract over one level's wall cells: the emitted
/// rectangles are exactly the maximal vertical stacks of maximal horizontal
/// runs, each emitted once, and together they cover every in-grid solid cell.
pub open spec fn wall_rects_spec(
    ws: WallCellSet,
    width: int,
    height: int,
    rects: Seq<Rect>,
) -> bool {
    &&& forall|i: int|
        0 <= i < rects.len() ==> wall_rect_ok(ws, width, height, #[trigger] rects[i])
    &&& forall|i: int, j: int| 0 <= i < j < rects.len() ==> rects[i] != rects[j]
    &&& forall|x: int, y: int|
        0 <= x < width && 0 <= y < height && #[trigger] ws.solid(x, y) ==> covered(rects, x, y)
}

/// Extracts the plate list of every row, top row first.
pub fn build_plate_stack(ws: &WallCellSet, width: i32, height: i32) -> (stack: Vec<Vec<Plate>>)
    requires
        width < i32::MAX,
    ensures
        stack@.len() == (if height >= 0 { height as int } else { 0 }),
        forall|r: int|
            0 <= r < stack@.len() ==> plates_of_row(*ws, width as int, r, (#[trigger] stack@[r])@),
{
    let mut stack: Vec<Vec<Plate>> = Vec::new();
    let mut yy: i32 = 0;
    while yy < height
        invariant
            width < i32::MAX,
            0 <= yy,
            yy <= height || yy == 0,
            stack@.len() == yy as int,
            forall|r: int|
                0 <= r < stack@.len() ==> plates_of_row(
                    *ws,
                    width as int,
                    r,
                    (#[trigger] stack@[r])@,
                ),
        decreases height - yy,
    {
        let row = extract_row_plates(ws, width, yy);
        stack.push(row);
        yy = yy + 1;
    }
    stack
}

/// Compacts one level's wall cells into rectangles: rows are cut into
/// maximal plates, and identical plates of consecutive rows merge vertically.
pub fn compact_rects(ws: &WallCellSet, width: i32, height: i32) -> (rects: Vec<Rect>)
    requires
        width < i32::MAX,
    ensures
        wall_rects_spec(*ws, width as int, height as int, rects@),
{
    let stack = build_plate_stack(ws, width, height);
    proof {
        assert forall|r: int| 0 <= r < stack@.len() implies row_sorted(#[trigger] stack@[r]@) by {
            assert(plates_of_row(*ws, width as int, r, stack@[r]@));
        }
    }
    let rects = merge_plate_stack(&stack);
    proof {
        let ww = width as int;
        let hh = height as int;
        let v = rows_view(stack@);
        assert(merged_spec(v, rects@));
        assert forall|r: int| 0 <= r < v.len() implies plates_of_row(*ws, ww, r, #[trigger] v[r]) by {
            assert(v[r] == stack@[r]@);
        }
        // a row holds a plate exactly when the plate is a maximal run there
        assert forall|r: int, p: Plate|
            0 <= r < v.len() && #[trigger] row_has_plate(v[r], p) implies run_at(*ws, ww, r, p) by {
            let i = choose|i: int| 0 <= i < v[r].len() && v[r][i] == p;
            assert(plates_of_row(*ws, ww, r, v[r]));
            assert(run_at(*ws, ww, r, v[r][i]));
        }
        // every merged rectangle is a maximal stack of maximal runs
        assert forall|i: int| 0 <= i < rects@.len() implies wall_rect_ok(
            *ws,
            ww,
            hh,
            #[trigger] rects@[i],
        ) by {
            let rc = rects@[i];
            assert(merged_rect_ok(v, rc));
            assert forall|r: int| rc.bottom <= r <= rc.top implies #[trigger] run_at(
                *ws,
                ww,
                r,
                rect_plate(rc),
            ) by {
                assert(row_has_plate(padded_row(v, r), rect_plate(rc)));
                assert(padded_row(v, r) == v[r]);
                assert(row_has_plate(v[r], rect_plate(rc)));
            }
            assert(run_at(*ws, ww, rc.bottom as int, rect_plate(rc)));
            if rc.bottom > 0 && run_at(*ws, ww, rc.bottom - 1, rect_plate(rc)) {
                lemma_run_has_plate(*ws, ww, rc.bottom - 1, v[rc.bottom - 1], rect_plate(rc));
                assert(row_has_plate(padded_row(v, rc.bottom - 1), rect_plate(rc)));
                assert(false);
            }
            if rc.top < hh - 1 && run_at(*ws, ww, rc.top + 1, rect_plate(rc)) {
                lemma_run_has_plate(*ws, ww, rc.top + 1, v[rc.top + 1], rect_plate(rc));
                assert(row_has_plate(padded_row(v, rc.top + 1), rect_plate(rc)));
                assert(false);
            }
        }
        // every in-grid solid cell is covered
        assert forall|x: int, y: int|
            0 <= x < ww && 0 <= y < hh && #[trigger] ws.solid(x, y) implies covered(
            rects@,
            x,
            y,
        ) by {
            assert(plates_of_row(*ws, ww, y, v[y]));
            assert(row_covers(v[y], x));
            let i = choose|i: int| 0 <= i < v[y].len() && plate_covers(v[y][i], x);
            let p = v[y][i];
            assert(row_has_plate(v[y], p));
            assert(stacked_in(rects@, y, p));
            let j = choose|j: int|
                0 <= j < rects@.len() && rect_plate(#[trigger] rects@[j]) == p && rects@[j].bottom
                    <= y <= rects@[j].top;
            assert(rect_covers(rects@[j], x, y));
        }
    }
    rects
}

/// Two maximal stacks of the same plate that share a row are the same
/// rectangle.
pub proof fn lemma_stacks_overlap_equal(
    ws: WallCellSet,
    width: int,
    height: int,
    rc1: Rect,
    rc2: Rect,
    y: int,
)
    requires
        wall_rect_ok(ws, width, height, rc1),
        wall_rect_ok(ws, width, height, rc2),
        rect_plate(rc1) == rect_plate(rc2),
        rc1.bottom <= y <= rc1.top,
        rc2.bottom <= y <= rc2.top,
    ensures
        rc1 == rc2,
{
    let p = rect_plate(rc1);
    if rc1.bottom < rc2.bottom {
        // rc1 spans the row just above rc2, so rc2 is not maximal upward
        assert(run_at(ws, width, rc2.bottom - 1, p));
        assert(false);
    }
    if rc2.bottom < rc1.bottom {
        assert(run_at(ws, width, rc1.bottom - 1, p));
        assert(false);
    }
    if rc1.top < rc2.top {
        assert(run_at(ws, width, rc1.top + 1, p));
        assert(false);
    }
    if rc2.top < rc1.top {
        assert(run_at(ws, width, rc2.top + 1, p));
        assert(false);
    }
}

/// Soundness law: a compacted rectangle covers only in-grid solid cells.
pub proof fn lemma_rect_cells_solid(
    ws: WallCellSet,
    width: int,
    height: int,
    rects: Seq<Rect>,
    i: int,
    x: int,
    y: int,
)
    requires
        wall_rects_spec(ws, width, height, rects),
        0 <= i < rects.len(),
        rect_covers(rects[i], x, y),
    ensures
        0 <= x < width,
        0 <= y < height,
        ws.solid(x, y),
{
    assert(wall_rect_ok(ws, width, height, rects[i]));
    assert(run_at(ws, width, y, rect_plate(rects[i])));
}

/// Disjointness law: rectangles of one compaction never share a cell.
pub proof fn lemma_rects_disjoint(
    ws: WallCellSet,
    width: int,
    height: int,
    rects: Seq<Rect>,
    i: int,
    j: int,
    x: int,
    y: int,
)
    requires
        wall_rects_spec(ws, width, height, rects),
        0 <= i < rects.len(),
        0 <= j < rects.len(),
        i != j,
        rect_covers(rects[i], x, y),
    ensures
        !rect_covers(rects[j], x, y),
{
    if rect_covers(rects[j], x, y) {
        let p1 = rect_plate(rects[i]);
        let p2 = rect_plate(rects[j]);
        assert(wall_rect_ok(ws, width, height, rects[i]));
        assert(wall_rect_ok(ws, width, height, rects[j]));
        assert(run_at(ws, width, y, p1));
        assert(run_at(ws, width, y, p2));
        lemma_runs_overlap_equal(ws, width, y, p1, p2, x);
        lemma_stacks_overlap_equal(ws, width, height, rects[i], rects[j], y);
        if i < j {
            assert(rects[i] != rects[j]);
        } else {
            assert(rects[j] != rects[i]);
        }
        assert(false);
    }
}

/// Coverage law: every in-grid solid cell lies in exactly one rectangle.
pub proof fn lemma_exact_cover(
    ws: WallCellSet,
    width: int,
    height: int,
    rects: Seq<Rect>,
    x: int,
    y: int,
)
    requires
        wall_rects_spec(ws, width, height, rects),
        0 <= x < width,
        0 <= y < height,
        ws.solid(x, y),
    ensures
        covered(rects, x, y),
        forall|i: int, j: int|
            0 <= i < rects.len() && 0 <= j < rects.len() && #[trigger] rect_covers(rects[i], x, y)
                && #[trigger] rect_covers(rects[j], x, y) ==> i == j,
{
    assert(covered(rects, x, y));
    assert forall|i: int, j: int|
        0 <= i < rects.len() && 0 <= j < rects.len() && #[trigger] rect_covers(rects[i], x, y)
            && #[trigger] rect_covers(rects[j], x, y) implies i == j by {
        if i != j {
            lemma_rects_disjoint(ws, width, height, rects, i, j, x, y);
        }
    }
}

/// A cell set with no solid cells yields no rectangles.
pub proof fn lemma_empty_no_rects(
    ws: WallCellSet,
    width: int,
    height: int,
    rects: Seq<Rect>,
)
    requires
        wall_rects_spec(ws, width, height, rects),
        forall|x: int, y: int| !ws.solid(x, y),
    ensures
        rects.len() == 0,
{
    if rects.len() > 0 {
        let rc = rects[0];
        assert(wall_rect_ok(ws, width, height, rc));
        assert(run_at(ws, width, rc.bottom as int, rect_plate(rc)));
        assert(ws.solid(rc.left as int, rc.bottom as int));
        assert(false);
    }
}

/// Determinism law: the compactor's contract pins the emitted set of
/// rectangles; any two outputs for the same input hold the same rectangles.
pub proof fn lemma_compact_deterministic(
    ws: WallCellSet,
    width: int,
    height: int,
    rs1: Seq<Rect>,
    rs2: Seq<Rect>,
)
    requires
        wall_rects_spec(ws, width, height, rs1),
        wall_rects_spec(ws, width, height, rs2),
    ensures
        forall|rc: Rect| rs1.contains(rc) <==> rs2.contains(rc),
{
    assert forall|rc: Rect| rs1.contains(rc) implies rs2.contains(rc) by {
        lemma_rect_carries_over(ws, width, height, rs1, rs2, rc);
    }
    assert forall|rc: Rect| rs2.contains(rc) implies rs1.contains(rc) by {
        lemma_rect_carries_over(ws, width, height, rs2, rs1, rc);
    }
}

/// Any rectangle of one valid compaction appears in every other.
proof fn lemma_rect_carries_over(
    ws: WallCellSet,
    width: int,
    height: int,
    rs1: Seq<Rect>,
    rs2: Seq<Rect>,
    rc: Rect,
)
    requires
        wall_rects_spec(ws, width, height, rs1),
        wall_rects_spec(ws, width, height, rs2),
        rs1.contains(rc),
    ensures
        rs2.contains(rc),
{
    let i = choose|i: int| 0 <= i < rs1.len() && rs1[i] == rc;
    assert(wall_rect_ok(ws, width, height, rs1[i]));
    assert(wall_rect_ok(ws, width, height, rc));
    let xl = rc.left as int;
    let yb = rc.bottom as int;
    assert(run_at(ws, width, yb, rect_plate(rc)));
    assert(ws.solid(xl, yb));
    assert(covered(rs2, xl, yb));
    let j = choose|j: int| 0 <= j < rs2.len() && rect_covers(#[trigger] rs2[j], xl, yb);
    assert(wall_rect_ok(ws, width, height, rs2[j]));
    assert(run_at(ws, width, yb, rect_plate(rs2[j])));
    assert(plate_covers(rect_plate(rs2[j]), xl));
    assert(plate_covers(rect_plate(rc), xl));
    lemma_runs_overlap_equal(ws, width, yb, rect_plate(rc), rect_plate(rs2[j]), xl);
    lemma_stacks_overlap_equal(ws, width, height, rc, rs2[j], yb);
    assert(rs2[j] == rc);
}

} // verus!
