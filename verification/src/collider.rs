//! Turning closed rectangles into physics collider descriptors.

use vstd::prelude::*;
use vstd::arithmetic::mul::{lemma_mul_inequality, lemma_mul_strictly_positive};
use crate::grid::WallCellSet;
use crate::merge::Rect;
use crate::compact::{compact_rects, wall_rect_ok, wall_rects_spec};

verus! {

/// The collider shape for one rectangle, in the level's local space.
///
/// Every field carries twice its world-space value: `double_hx` and
/// `double_hy` are twice the half-extents (the full side lengths), and
/// `double_cx`, `double_cy` twice the center coordinates. Doubling keeps each
/// quantity an exact integer for every cell size; the physics layer halves
/// the fields when it builds the collider shape.
#[derive(Clone, Copy, PartialEq, Eq, Structural, Debug)]
pub struct ColliderDescriptor {
    pub double_hx: i64,
    pub double_hy: i64,
    pub double_cx: i64,
    pub double_cy: i64,
}

/// The emitter's formulas, doubled: half-extents `(right-left+1)*cell/2` and
/// `(top-bottom+1)*cell/2`, center `(left+right+1)*cell/2` and
/// `(bottom+top+1)*cell/2`.
pub open spec fn descriptor_matches(d: ColliderDescriptor, rc: Rect, cell_size: int) -> bool {
    &&& d.double_hx == (rc.right - rc.left + 1) * cell_size
    &&& d.double_hy == (rc.top - rc.bottom + 1) * cell_size
    &&& d.double_cx == (rc.left + rc.right + 1) * cell_size
    &&& d.double_cy == (rc.bottom + rc.top + 1) * cell_size
}

/// Converts one closed rectangle into a collider descriptor. The half
/// extents are strictly positive: a rectangle spans at least one cell each
/// way.
pub fn emit_collider(rc: &Rect, cell_size: i32) -> (d: ColliderDescriptor)
    requires
        0 < cell_size,
        0 <= rc.left <= rc.right,
        0 <= rc.bottom <= rc.top,
        (rc.right + 1) * cell_size <= i32::MAX,
        (rc.top + 1) * cell_size <= i32::MAX,
    ensures
        descriptor_matches(d, *rc, cell_size as int),
        d.double_hx > 0,
        d.double_hy > 0,
{
    let cs = cell_size as i64;
    proof {
        let l = rc.left as int;
        let r = rc.right as int;
        let b = rc.bottom as int;
        let t = rc.top as int;
        let c = cell_size as int;
        lemma_mul_strictly_positive(r - l + 1, c);
        lemma_mul_strictly_positive(t - b + 1, c);
        lemma_mul_inequality(r - l + 1, r + 1, c);
        lemma_mul_inequality(t - b + 1, t + 1, c);
        lemma_mul_inequality(l + r + 1, 2 * (r + 1), c);
        lemma_mul_inequality(b + t + 1, 2 * (t + 1), c);
        lemma_mul_strictly_positive(l + r + 1, c);
        lemma_mul_strictly_positive(b + t + 1, c);
        assert(2 * (r + 1) * c == 2 * ((r + 1) * c)) by (nonlinear_arith);
        assert(2 * (t + 1) * c == 2 * ((t + 1) * c)) by (nonlinear_arith);
    }
    ColliderDescriptor {
        double_hx: (rc.right as i64 - rc.left as i64 + 1) * cs,
        double_hy: (rc.top as i64 - rc.bottom as i64 + 1) * cs,
        double_cx: (rc.left as i64 + rc.right as i64 + 1) * cs,
        double_cy: (rc.bottom as i64 + rc.top as i64 + 1) * cs,
    }
}

/// Compacts one level's wall cells and emits one collider descriptor per
/// rectangle, in the rectangles' order.
pub fn compact(ws: &WallCellSet, width: i32, height: i32, cell_size: i32) -> (ds: Vec<
    ColliderDescriptor,
>)
    requires
        0 < cell_size,
        width < i32::MAX,
        width * cell_size <= i32::MAX,
        height * cell_size <= i32::MAX,
    ensures
        exists|rects: Seq<Rect>|
            {
                &&& #[trigger] wall_rects_spec(*ws, width as int, height as int, rects)
                &&& ds@.len() == rects.len()
                &&& forall|i: int|
                    0 <= i < rects.len() ==> descriptor_matches(
                        #[trigger] ds@[i],
                        rects[i],
                        cell_size as int,
                    )
            },
{
    let rects = compact_rects(ws, width, height);
    let mut ds: Vec<ColliderDescriptor> = Vec::new();
    let mut i: usize = 0;
    while i < rects.len()
        invariant
            wall_rects_spec(*ws, width as int, height as int, rects@),
            0 < cell_size,
            width as int * cell_size as int <= i32::MAX,
            height as int * cell_size as int <= i32::MAX,
            i <= rects@.len(),
            ds@.len() == i,
            forall|k: int|
                0 <= k < i ==> descriptor_matches(
                    #[trigger] ds@[k],
                    rects@[k],
                    cell_size as int,
                ),
        decreases rects@.len() - i,
    {
        let rc = rects[i];
        proof {
            assert(wall_rect_ok(*ws, width as int, height as int, rc));
            lemma_mul_inequality(rc.right as int + 1, width as int, cell_size as int);
            lemma_mul_inequality(rc.top as int + 1, height as int, cell_size as int);
        }
        let d = emit_collider(&rc, cell_size);
        ds.push(d);
        i = i + 1;
    }
    proof {
        assert(wall_rects_spec(*ws, width as int, height as int, rects@));
    }
    ds
}

} // verus!
