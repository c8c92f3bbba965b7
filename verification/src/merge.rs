//! Vertical plate merging: stacking identical plates of consecutive rows
//! into rectangles.

use vstd::prelude::*;
use crate::plates::{Plate, row_has_plate, row_sorted};

verus! {

/// An axis-aligned rectangle in grid-cell coordinates, every bound
/// inclusive: columns `left..=right`, rows `bottom..=top`.
#[derive(Clone, Copy, PartialEq, Eq, Structural, Debug)]
pub struct Rect {
    pub left: i32,
    pub right: i32,
    pub top: i32,
    pub bottom: i32,
}

/// The horizontal extent of a rectangle, as a plate.
pub open spec fn rect_plate(rc: Rect) -> Plate {
    Plate { left: rc.left, right: rc.right }
}

/// Whether cell `(x, y)` lies inside rectangle `rc`.
pub open spec fn rect_covers(rc: Rect, x: int, y: int) -> bool {
    rc.left <= x <= rc.right && rc.bottom <= y <= rc.top
}

/// The rows of a plate stack, as mathematical sequences.
pub open spec fn rows_view(stack: Seq<Vec<Plate>>) -> Seq<Seq<Plate>> {
    Seq::new(stack.len(), |i: int| stack[i]@)
}

/// Row `r` of `v`; any out-of-range index reads as an empty row.
pub open spec fn padded_row(v: Seq<Seq<Plate>>, r: int) -> Seq<Plate> {
    if 0 <= r < v.len() {
        v[r]
    } else {
        Seq::empty()
    }
}

/// `rc` is a maximal vertical stack of one plate shape: every row it spans
/// holds exactly that plate, and the rows just above and below do not.
pub open spec fn merged_rect_ok(v: Seq<Seq<Plate>>, rc: Rect) -> bool {
    &&& rc.left <= rc.right
    &&& 0 <= rc.bottom <= rc.top < v.len()
    &&& forall|r: int|
        rc.bottom <= r <= rc.top ==> #[trigger] row_has_plate(padded_row(v, r), rect_plate(rc))
    &&& !row_has_plate(padded_row(v, rc.bottom - 1), rect_plate(rc))
    &&& !row_has_plate(padded_row(v, rc.top + 1), rect_plate(rc))
}

/// The merger's full contract: every emitted rectangle is a maximal vertical
/// stack, no rectangle appears twice, and every plate occurrence of every row
/// lies inside some emitted rectangle.
pub open spec fn merged_spec(v: Seq<Seq<Plate>>, rects: Seq<Rect>) -> bool {
    &&& forall|i: int| 0 <= i < rects.len() ==> merged_rect_ok(v, #[trigger] rects[i])
    &&& forall|i: int, j: int| 0 <= i < j < rects.len() ==> rects[i] != rects[j]
    &&& forall|r: int, p: Plate|
        0 <= r < v.len() && #[trigger] row_has_plate(v[r], p) ==> stacked_in(rects, r, p)
}

/// Some rectangle of `rects` has horizontal extent `p` and spans row `r`.
pub open spec fn stacked_in(rects: Seq<Rect>, r: int, p: Plate) -> bool {
    exists|i: int|
        0 <= i < rects.len() && rect_plate(#[trigger] rects[i]) == p && rects[i].bottom <= r
            <= rects[i].top
}

/// A rectangle still open while the sweep stands at some row: its plate and
/// the row where it began.
#[derive(Clone, Copy)]
struct OpenRect {
    left: i32,
    right: i32,
    bottom: i32,
}

spec fn open_plate(o: OpenRect) -> Plate {
    Plate { left: o.left, right: o.right }
}

/// The rectangle an open entry closes into when the sweep stands at row `y`
/// and the entry's plate is absent from that row.
spec fn close_rect(o: OpenRect, y: int) -> Rect {
    Rect { left: o.left, right: o.right, bottom: o.bottom, top: (y - 1) as i32 }
}

/// While the sweep stands at row `y`, an open entry spans rows
/// `bottom..=y-1`, each of which holds its plate, and began as far up as the
/// plate reaches.
spec fn open_ok(v: Seq<Seq<Plate>>, o: OpenRect, y: int) -> bool {
    &&& o.left <= o.right
    &&& 0 <= o.bottom <= y - 1
    &&& forall|r: int|
        o.bottom <= r <= y - 1 ==> #[trigger] row_has_plate(padded_row(v, r), open_plate(o))
    &&& !row_has_plate(padded_row(v, o.bottom - 1), open_plate(o))
}

spec fn open_plates_distinct(s: Seq<OpenRect>) -> bool {
    forall|k1: int, k2: int|
        0 <= k1 < k2 < s.len() ==> open_plate(s[k1]) != open_plate(s[k2])
}

spec fn has_open_plate(s: Seq<OpenRect>, p: Plate) -> bool {
    exists|k: int| 0 <= k < s.len() && open_plate(#[trigger] s[k]) == p
}

/// Some open entry of `s` has plate `p` and began at or above row `r`.
spec fn open_spans(s: Seq<OpenRect>, r: int, p: Plate) -> bool {
    exists|k: int|
        0 <= k < s.len() && open_plate(#[trigger] s[k]) == p && s[k].bottom <= r
}

spec fn has_entry(s: Seq<OpenRect>, e: OpenRect) -> bool {
    exists|k: int| 0 <= k < s.len() && #[trigger] s[k] == e
}

spec fn has_rect(rects: Seq<Rect>, rc: Rect) -> bool {
    exists|i: int| 0 <= i < rects.len() && #[trigger] rects[i] == rc
}

/// Pushing onto a sequence of open entries preserves every membership fact.
proof fn lemma_open_push(s: Seq<OpenRect>, o: OpenRect)
    ensures
        forall|p: Plate| has_open_plate(s, p) ==> #[trigger] has_open_plate(s.push(o), p),
        forall|r: int, p: Plate| open_spans(s, r, p) ==> #[trigger] open_spans(s.push(o), r, p),
        forall|e: OpenRect| has_entry(s, e) ==> #[trigger] has_entry(s.push(o), e),
        has_entry(s.push(o), o),
        open_plate(s.push(o)[s.len() as int]) == open_plate(o),
{
    assert(s.push(o)[s.len() as int] == o);
    assert forall|p: Plate| has_open_plate(s, p) implies #[trigger] has_open_plate(s.push(o), p) by {
        let k = choose|k: int| 0 <= k < s.len() && open_plate(#[trigger] s[k]) == p;
        assert(s.push(o)[k] == s[k]);
        assert(open_plate(s.push(o)[k]) == p);
    }
    assert forall|r: int, p: Plate| open_spans(s, r, p) implies #[trigger] open_spans(
        s.push(o),
        r,
        p,
    ) by {
        let k = choose|k: int|
            0 <= k < s.len() && open_plate(#[trigger] s[k]) == p && s[k].bottom <= r;
        assert(s.push(o)[k] == s[k]);
    }
    assert forall|e: OpenRect| has_entry(s, e) implies #[trigger] has_entry(s.push(o), e) by {
        let k = choose|k: int| 0 <= k < s.len() && #[trigger] s[k] == e;
        assert(s.push(o)[k] == e);
    }
}

/// Pushing onto a sequence of rectangles preserves every membership fact.
proof fn lemma_rects_push(rects: Seq<Rect>, rc: Rect)
    ensures
        forall|r: int, p: Plate| stacked_in(rects, r, p) ==> #[trigger] stacked_in(
            rects.push(rc),
            r,
            p,
        ),
        forall|rc0: Rect| has_rect(rects, rc0) ==> #[trigger] has_rect(rects.push(rc), rc0),
        has_rect(rects.push(rc), rc),
        rects.push(rc)[rects.len() as int] == rc,
{
    assert(rects.push(rc)[rects.len() as int] == rc);
    assert forall|r: int, p: Plate| stacked_in(rects, r, p) implies #[trigger] stacked_in(
        rects.push(rc),
        r,
        p,
    ) by {
        let i = choose|i: int|
            0 <= i < rects.len() && rect_plate(#[trigger] rects[i]) == p && rects[i].bottom <= r
                <= rects[i].top;
        assert(rects.push(rc)[i] == rects[i]);
    }
    assert forall|rc0: Rect| has_rect(rects, rc0) implies #[trigger] has_rect(
        rects.push(rc),
        rc0,
    ) by {
        let i = choose|i: int| 0 <= i < rects.len() && #[trigger] rects[i] == rc0;
        assert(rects.push(rc)[i] == rc0);
    }
}

/// Whether `row` holds the plate `p`, by linear scan.
fn row_has(row: &Vec<Plate>, p: Plate) -> (found: bool)
    ensures
        found == row_has_plate(row@, p),
{
    let mut k: usize = 0;
    while k < row.len()
        invariant
            k <= row@.len(),
            forall|i: int| 0 <= i < k ==> row@[i] != p,
        decreases row@.len() - k,
    {
        if row[k].left == p.left && row[k].right == p.right {
            proof {
                assert(row@[k as int] == p);
            }
            return true;
        }
        k = k + 1;
    }
    false
}

/// Whether some open entry of `s` has plate `p`, by linear scan.
fn open_has(s: &Vec<OpenRect>, p: Plate) -> (found: bool)
    ensures
        found == has_open_plate(s@, p),
{
    let mut k: usize = 0;
    while k < s.len()
        invariant
            k <= s@.len(),
            forall|i: int| 0 <= i < k ==> open_plate(#[trigger] s@[i]) != p,
        decreases s@.len() - k,
    {
        if s[k].left == p.left && s[k].right == p.right {
            proof {
                assert(open_plate(s@[k as int]) == p);
            }
            return true;
        }
        k = k + 1;
    }
    false
}

/// Sweeps the per-row plate lists top to bottom (one virtual empty row past
/// the end, so every rectangle closes) and merges identical plates of
/// consecutive rows into rectangles.
pub fn merge_plate_stack(stack: &Vec<Vec<Plate>>) -> (rects: Vec<Rect>)
    requires
        stack@.len() <= i32::MAX as int,
        forall|r: int| 0 <= r < stack@.len() ==> row_sorted(#[trigger] stack@[r]@),
    ensures
        merged_spec(rows_view(stack@), rects@),
{
    let ghost v = rows_view(stack@);
    let mut rects: Vec<Rect> = Vec::new();
    let mut active: Vec<OpenRect> = Vec::new();
    let mut y: usize = 0;
    while y <= stack.len()
        invariant
            v == rows_view(stack@),
            stack@.len() <= i32::MAX as int,
            forall|r: int| 0 <= r < stack@.len() ==> row_sorted(#[trigger] stack@[r]@),
            y <= stack@.len() + 1,
            forall|k: int| 0 <= k < active@.len() ==> open_ok(v, #[trigger] active@[k], y as int),
            forall|k: int|
                0 <= k < active@.len() ==> row_has_plate(
                    padded_row(v, y as int - 1),
                    open_plate(#[trigger] active@[k]),
                ),
            forall|p: Plate|
                #[trigger] row_has_plate(padded_row(v, y as int - 1), p) ==> has_open_plate(
                    active@,
                    p,
                ),
            open_plates_distinct(active@),
            forall|i: int| 0 <= i < rects@.len() ==> merged_rect_ok(v, #[trigger] rects@[i]),
            forall|i: int| 0 <= i < rects@.len() ==> (#[trigger] rects@[i]).top + 1 < y,
            forall|i: int, j: int| 0 <= i < j < rects@.len() ==> rects@[i] != rects@[j],
            forall|r: int, p: Plate|
                0 <= r < y && r < v.len() && #[trigger] row_has_plate(v[r], p) ==> stacked_in(
                    rects@,
                    r,
                    p,
                ) || open_spans(active@, r, p),
        decreases stack@.len() + 1 - y,
    {
        let ghost prev_active = active@;
        let ghost cur = padded_row(v, y as int);
        proof {
            if y < stack@.len() {
                assert(cur == stack@[y as int]@);
            }
        }
        // Close every active rectangle whose plate is absent from this row.
        let mut kept: Vec<OpenRect> = Vec::new();
        let mut k: usize = 0;
        while k < active.len()
            invariant
                v == rows_view(stack@),
                stack@.len() <= i32::MAX as int,
                y <= stack@.len(),
                cur == padded_row(v, y as int),
                active@ == prev_active,
                k <= active@.len(),
                forall|kk: int|
                    0 <= kk < active@.len() ==> open_ok(v, #[trigger] active@[kk], y as int),
                forall|p: Plate|
                    #[trigger] row_has_plate(padded_row(v, y as int - 1), p) ==> has_open_plate(
                        active@,
                        p,
                    ),
                open_plates_distinct(active@),
                forall|kk: int|
                    0 <= kk < kept@.len() ==> exists|k0: int|
                        0 <= k0 < k && active@[k0] == #[trigger] kept@[kk],
                forall|kk: int|
                    0 <= kk < kept@.len() ==> open_ok(v, #[trigger] kept@[kk], y as int + 1),
                forall|kk: int|
                    0 <= kk < kept@.len() ==> row_has_plate(cur, open_plate(#[trigger] kept@[kk])),
                open_plates_distinct(kept@),
                forall|k0: int|
                    0 <= k0 < k && row_has_plate(cur, open_plate(#[trigger] active@[k0]))
                        ==> has_entry(kept@, active@[k0]),
                forall|k0: int|
                    0 <= k0 < k && !row_has_plate(cur, open_plate(#[trigger] active@[k0]))
                        ==> has_rect(rects@, close_rect(active@[k0], y as int)),
                forall|i: int| 0 <= i < rects@.len() ==> merged_rect_ok(v, #[trigger] rects@[i]),
                forall|i: int| 0 <= i < rects@.len() ==> (#[trigger] rects@[i]).top + 1 <= y,
                forall|i: int, j: int| 0 <= i < j < rects@.len() ==> rects@[i] != rects@[j],
                forall|i: int|
                    0 <= i < rects@.len() && (#[trigger] rects@[i]).top + 1 == y ==> exists|k0: int|
                        0 <= k0 < k && rects@[i] == close_rect(active@[k0], y as int),
                forall|r: int, p: Plate|
                    0 <= r < y && r < v.len() && #[trigger] row_has_plate(v[r], p) ==> stacked_in(
                        rects@,
                        r,
                        p,
                    ) || open_spans(prev_active, r, p),
            decreases active@.len() - k,
        {
            let o = active[k];
            let pl = Plate { left: o.left, right: o.right };
            let present = if y < stack.len() {
                row_has(&stack[y], pl)
            } else {
                false
            };
            proof {
                assert(pl == open_plate(o));
                assert(present == row_has_plate(cur, open_plate(o)));
            }
            if present {
                proof {
                    // the entry's plate differs from every kept plate, each of
                    // which stems from an earlier active entry
                    assert forall|kk: int| 0 <= kk < kept@.len()
                        implies open_plate(#[trigger] kept@[kk]) != open_plate(o) by {
                        let k0 = choose|k0: int| 0 <= k0 < k && active@[k0] == kept@[kk];
                        assert(open_plate(active@[k0]) != open_plate(active@[k as int]));
                    }
                    // open through row y as well
                    assert(open_ok(v, o, y as int + 1)) by {
                        assert forall|r: int| o.bottom <= r <= y as int
                            implies #[trigger] row_has_plate(padded_row(v, r), open_plate(o)) by {
                            if r <= y as int - 1 {
                                assert(open_ok(v, o, y as int));
                            } else {
                                assert(row_has_plate(cur, open_plate(o)));
                            }
                        }
                    }
                    lemma_open_push(kept@, o);
                }
                kept.push(o);
                proof {
                    assert(kept@[kept@.len() - 1] == o);
                    assert(has_entry(kept@, active@[k as int]));
                }
            } else {
                proof {
                    assert(open_ok(v, o, y as int));
                    assert(y >= 1);
                }
                let top_i: i32 = (y - 1) as i32;
                let rc = Rect { left: o.left, right: o.right, bottom: o.bottom, top: top_i };
                proof {
                    assert(rc == close_rect(o, y as int));
                    assert(rect_plate(rc) == open_plate(o));
                    // the closed rectangle is a maximal vertical stack
                    assert(merged_rect_ok(v, rc)) by {
                        assert(row_has_plate(padded_row(v, o.bottom as int), open_plate(o)));
                        assert(padded_row(v, o.bottom as int).len() > 0);
                        assert(0 <= o.bottom && (o.bottom as int) < v.len());
                        assert forall|r: int| rc.bottom <= r <= rc.top
                            implies #[trigger] row_has_plate(padded_row(v, r), rect_plate(rc)) by {
                            assert(open_ok(v, o, y as int));
                        }
                        assert(!row_has_plate(padded_row(v, rc.top + 1), rect_plate(rc)));
                    }
                    // it differs from every rectangle closed so far
                    assert forall|i: int| 0 <= i < rects@.len()
                        implies #[trigger] rects@[i] != rc by {
                        if rects@[i].top + 1 == y {
                            let k0 = choose|k0: int|
                                0 <= k0 < k && rects@[i] == close_rect(active@[k0], y as int);
                            assert(open_plate(active@[k0]) != open_plate(active@[k as int]));
                        }
                    }
                    lemma_rects_push(rects@, rc);
                }
                rects.push(rc);
                proof {
                    assert(has_rect(rects@, close_rect(active@[k as int], y as int)));
                }
            }
            k = k + 1;
        }
        // Start a rectangle for every plate of this row that has none open.
        if y < stack.len() {
            let row = &stack[y];
            let mut t: usize = 0;
            while t < row.len()
                invariant
                    v == rows_view(stack@),
                    stack@.len() <= i32::MAX as int,
                    forall|r: int| 0 <= r < stack@.len() ==> row_sorted(#[trigger] stack@[r]@),
                    y < stack@.len(),
                    cur == padded_row(v, y as int),
                    cur == stack@[y as int]@,
                    row@ == cur,
                    active@ == prev_active,
                    t <= cur.len(),
                    forall|kk: int|
                        0 <= kk < active@.len() ==> open_ok(v, #[trigger] active@[kk], y as int),
                    forall|p: Plate|
                        #[trigger] row_has_plate(padded_row(v, y as int - 1), p) ==> has_open_plate(
                            active@,
                            p,
                        ),
                    open_plates_distinct(active@),
                    forall|kk: int|
                        0 <= kk < kept@.len() ==> open_ok(v, #[trigger] kept@[kk], y as int + 1),
                    forall|kk: int|
                        0 <= kk < kept@.len() ==> row_has_plate(cur, open_plate(#[trigger] kept@[kk])),
                    open_plates_distinct(kept@),
                    forall|t0: int| 0 <= t0 < t ==> has_open_plate(kept@, #[trigger] cur[t0]),
                    forall|k0: int|
                        0 <= k0 < active@.len() && row_has_plate(
                            cur,
                            open_plate(#[trigger] active@[k0]),
                        ) ==> has_entry(kept@, active@[k0]),
                    forall|k0: int|
                        0 <= k0 < active@.len() && !row_has_plate(
                            cur,
                            open_plate(#[trigger] active@[k0]),
                        ) ==> has_rect(rects@, close_rect(active@[k0], y as int)),
                    forall|i: int| 0 <= i < rects@.len() ==> merged_rect_ok(v, #[trigger] rects@[i]),
                    forall|i: int| 0 <= i < rects@.len() ==> (#[trigger] rects@[i]).top + 1 <= y,
                    forall|i: int, j: int| 0 <= i < j < rects@.len() ==> rects@[i] != rects@[j],
                    forall|r: int, p: Plate|
                        0 <= r < y && r < v.len() && #[trigger] row_has_plate(v[r], p)
                            ==> stacked_in(rects@, r, p) || open_spans(prev_active, r, p),
                decreases cur.len() - t,
            {
                let q = row[t];
                proof {
                    assert(cur[t as int] == q);
                    assert(row_has_plate(cur, q));
                    assert(row_sorted(cur));
                    assert(q.left <= q.right);
                }
                if !open_has(&kept, q) {
                    proof {
                        // were q on the previous row, its entry would have
                        // survived into kept
                        if row_has_plate(padded_row(v, y as int - 1), q) {
                            assert(has_open_plate(active@, q));
                            let k0 = choose|k0: int|
                                0 <= k0 < active@.len() && open_plate(#[trigger] active@[k0]) == q;
                            assert(row_has_plate(cur, open_plate(active@[k0])));
                            assert(has_entry(kept@, active@[k0]));
                            let kk = choose|kk: int|
                                0 <= kk < kept@.len() && #[trigger] kept@[kk] == active@[k0];
                            assert(open_plate(kept@[kk]) == q);
                            assert(false);
                        }
                    }
                    let o_new = OpenRect { left: q.left, right: q.right, bottom: y as i32 };
                    proof {
                        assert(open_plate(o_new) == q);
                        assert(open_ok(v, o_new, y as int + 1)) by {
                            assert(row_has_plate(padded_row(v, y as int), q));
                            assert(!row_has_plate(padded_row(v, y as int - 1), open_plate(o_new)));
                        }
                        lemma_open_push(kept@, o_new);
                    }
                    kept.push(o_new);
                    proof {
                        assert(kept@[kept@.len() - 1] == o_new);
                        assert(has_open_plate(kept@, q));
                    }
                }
                t = t + 1;
            }
        }
        // The next sweep row sees `kept` as its set of open rectangles.
        proof {
            let yy = y as int;
            if yy >= v.len() {
                // virtual empty row: nothing was kept
                assert(kept@.len() == 0) by {
                    if kept@.len() > 0 {
                        assert(row_has_plate(cur, open_plate(kept@[0])));
                        assert(cur.len() == 0);
                    }
                }
            }
            // coverage carries over: what was open was kept or closed
            assert forall|r: int, p: Plate|
                0 <= r < yy + 1 && r < v.len() && #[trigger] row_has_plate(v[r], p)
                    implies stacked_in(rects@, r, p) || open_spans(kept@, r, p) by {
                if r < yy {
                    if !stacked_in(rects@, r, p) {
                        assert(open_spans(prev_active, r, p));
                        let k0 = choose|k0: int|
                            0 <= k0 < prev_active.len() && open_plate(#[trigger] prev_active[k0])
                                == p && prev_active[k0].bottom <= r;
                        if row_has_plate(cur, open_plate(prev_active[k0])) {
                            assert(has_entry(kept@, prev_active[k0]));
                            let kk = choose|kk: int|
                                0 <= kk < kept@.len() && #[trigger] kept@[kk] == prev_active[k0];
                            assert(open_plate(kept@[kk]) == p && kept@[kk].bottom <= r);
                            assert(open_spans(kept@, r, p));
                        } else {
                            assert(has_rect(rects@, close_rect(prev_active[k0], yy)));
                            let i = choose|i: int|
                                0 <= i < rects@.len() && #[trigger] rects@[i] == close_rect(
                                    prev_active[k0],
                                    yy,
                                );
                            assert(open_ok(v, prev_active[k0], yy));
                            assert(rect_plate(rects@[i]) == p);
                            assert(rects@[i].bottom <= r <= rects@[i].top);
                            assert(stacked_in(rects@, r, p));
                        }
                    }
                } else {
                    // r == yy: this row's plates all have open entries now
                    assert(cur == v[r]);
                    let t0 = choose|t0: int| 0 <= t0 < cur.len() && cur[t0] == p;
                    assert(has_open_plate(kept@, cur[t0]));
                    let kk = choose|kk: int|
                        0 <= kk < kept@.len() && open_plate(#[trigger] kept@[kk]) == p;
                    assert(open_ok(v, kept@[kk], yy + 1));
                    assert(kept@[kk].bottom <= yy);
                    assert(open_spans(kept@, r, p));
                }
            }
            // the kept plates are exactly this row's plates
            assert forall|p: Plate| #[trigger] row_has_plate(padded_row(v, yy), p)
                implies has_open_plate(kept@, p) by {
                let t0 = choose|t0: int| 0 <= t0 < cur.len() && cur[t0] == p;
                assert(has_open_plate(kept@, cur[t0]));
            }
        }
        active = kept;
        y = y + 1;
    }
    proof {
        // after the virtual empty row every rectangle has closed
        assert(active@.len() == 0) by {
            if active@.len() > 0 {
                assert(row_has_plate(padded_row(v, y as int - 1), open_plate(active@[0])));
                assert(padded_row(v, y as int - 1).len() == 0);
            }
        }
        assert forall|r: int, p: Plate|
            0 <= r < v.len() && #[trigger] row_has_plate(v[r], p) implies stacked_in(
            rects@,
            r,
            p,
        ) by {
            if open_spans(active@, r, p) {
                let k = choose|k: int|
                    0 <= k < active@.len() && open_plate(#[trigger] active@[k]) == p
                        && active@[k].bottom <= r;
                assert(false);
            }
        }
    }
    rects
}

} // verus!
