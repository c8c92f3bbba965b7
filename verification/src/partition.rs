//! Grouping a batch of newly observed wall cells by their owning level.

use vstd::prelude::*;
use crate::grid::{GridCoords, WallCellSet};

verus! {

/// One newly observed wall cell, tagged with the identity of the level that
/// owns it. A cell whose owning level could not be resolved carries `None`
/// and is silently excluded from every level's set.
#[derive(Clone, Copy, Debug)]
pub struct TaggedWallCell {
    pub level: Option<u64>,
    pub cell: GridCoords,
}

/// One level's identity together with its accumulated wall cells.
pub struct LevelWalls {
    pub level: u64,
    pub cells: WallCellSet,
}

/// Whether the first `n` batch records hold a cell `(x, y)` resolved to
/// level `l`.
pub open spec fn batch_has_upto(
    batch: Seq<TaggedWallCell>,
    n: int,
    l: u64,
    x: int,
    y: int,
) -> bool {
    exists|i: int|
        0 <= i < n && i < batch.len() && (#[trigger] batch[i]).level == Some(l)
            && batch[i].cell.x == x && batch[i].cell.y == y
}

/// Whether the batch holds a cell `(x, y)` resolved to level `l`.
pub open spec fn batch_has(batch: Seq<TaggedWallCell>, l: u64, x: int, y: int) -> bool {
    batch_has_upto(batch, batch.len() as int, l, x, y)
}

/// Whether one of the first `n` batch records resolves to level `l`.
pub open spec fn batch_names_level(batch: Seq<TaggedWallCell>, n: int, l: u64) -> bool {
    exists|i: int| 0 <= i < n && i < batch.len() && (#[trigger] batch[i]).level == Some(l)
}

/// Whether the grouped output lists `(x, y)` among level `l`'s wall cells.
pub open spec fn levels_have(levels: Seq<LevelWalls>, l: u64, x: int, y: int) -> bool {
    exists|k: int|
        0 <= k < levels.len() && (#[trigger] levels[k]).level == l && levels[k].cells.solid(x, y)
}

/// Each level identity appears at most once.
pub open spec fn levels_distinct(levels: Seq<LevelWalls>) -> bool {
    forall|a: int, b: int| 0 <= a < b < levels.len() ==> levels[a].level != levels[b].level
}

/// The index of the entry for level `l`, if one exists.
fn find_level(levels: &Vec<LevelWalls>, l: u64) -> (r: Option<usize>)
    ensures
        match r {
            Some(k) => k < levels@.len() && levels@[k as int].level == l,
            None => forall|k: int| 0 <= k < levels@.len() ==> (#[trigger] levels@[k]).level != l,
        },
{
    let mut k: usize = 0;
    while k < levels.len()
        invariant
            k <= levels@.len(),
            forall|k0: int| 0 <= k0 < k ==> (#[trigger] levels@[k0]).level != l,
        decreases levels@.len() - k,
    {
        if levels[k].level == l {
            return Some(k);
        }
        k = k + 1;
    }
    None
}

/// Groups a batch of tagged wall cells into one `WallCellSet` per resolved
/// level, dropping unresolved cells and duplicate coordinates. The returned
/// flag signals whether a non-empty batch was processed, i.e. whether new
/// level geometry is ready.
pub fn partition_by_level(batch: &Vec<TaggedWallCell>) -> (out: (Vec<LevelWalls>, bool))
    ensures
        out.1 == (batch@.len() > 0),
        levels_distinct(out.0@),
        forall|k: int| 0 <= k < out.0@.len() ==> (#[trigger] out.0@[k]).cells.wf(),
        forall|k: int| 0 <= k < out.0@.len() ==> (#[trigger] out.0@[k]).cells.count() > 0,
        forall|k: int|
            0 <= k < out.0@.len() ==> batch_names_level(
                batch@,
                batch@.len() as int,
                (#[trigger] out.0@[k]).level,
            ),
        forall|l: u64, x: int, y: int|
            #[trigger] batch_has(batch@, l, x, y) ==> levels_have(out.0@, l, x, y),
        forall|l: u64, x: int, y: int|
            #[trigger] levels_have(out.0@, l, x, y) ==> batch_has(batch@, l, x, y),
{
    let mut levels: Vec<LevelWalls> = Vec::new();
    let mut i: usize = 0;
    while i < batch.len()
        invariant
            i <= batch@.len(),
            levels_distinct(levels@),
            forall|k: int| 0 <= k < levels@.len() ==> (#[trigger] levels@[k]).cells.wf(),
            forall|k: int| 0 <= k < levels@.len() ==> (#[trigger] levels@[k]).cells.count() > 0,
            forall|k: int|
                0 <= k < levels@.len() ==> batch_names_level(
                    batch@,
                    i as int,
                    (#[trigger] levels@[k]).level,
                ),
            forall|l: u64, x: int, y: int|
                #[trigger] batch_has_upto(batch@, i as int, l, x, y) ==> levels_have(
                    levels@,
                    l,
                    x,
                    y,
                ),
            forall|l: u64, x: int, y: int|
                #[trigger] levels_have(levels@, l, x, y) ==> batch_has_upto(
                    batch@,
                    i as int,
                    l,
                    x,
                    y,
                ),
        decreases batch@.len() - i,
    {
        let rec = batch[i];
        let ghost levels0 = levels@;
        let ghost ii = i as int;
        match rec.level {
            Some(l) => {
                match find_level(&levels, l) {
                    Some(k) => {
                        let mut entry = levels.remove(k);
                        let ghost entry0 = entry;
                        entry.cells.insert(rec.cell);
                        let ghost entry1 = entry;
                        levels.insert(k, entry);
                        proof {
                            assert(levels@ =~= levels0.update(k as int, entry1));
                            assert(entry1.level == l);
                            lemma_membership_update(
                                batch@,
                                ii,
                                levels0,
                                levels@,
                                k as int,
                                entry0,
                                entry1,
                                rec,
                            );
                            assert(levels0[k as int].cells.count() > 0);
                            assert(entry1.cells.count() >= entry0.cells.count());
                            assert forall|k0: int| 0 <= k0 < levels@.len()
                                implies (#[trigger] levels@[k0]).cells.count() > 0 by {
                                if k0 != k as int {
                                    assert(levels@[k0] == levels0[k0]);
                                }
                            }
                            assert forall|k0: int| 0 <= k0 < levels@.len()
                                implies (#[trigger] levels@[k0]).cells.wf() by {
                                if k0 != k as int {
                                    assert(levels@[k0] == levels0[k0]);
                                }
                            }
                            assert forall|k0: int| 0 <= k0 < levels@.len()
                                implies batch_names_level(
                                batch@,
                                ii + 1,
                                (#[trigger] levels@[k0]).level,
                            ) by {
                                if k0 == k as int {
                                    assert(batch@[ii].level == Some(entry1.level));
                                } else {
                                    assert(levels@[k0] == levels0[k0]);
                                    lemma_names_level_widen(batch@, ii, levels0[k0].level);
                                }
                            }
                            assert forall|a: int, b: int| 0 <= a < b < levels@.len()
                                implies levels@[a].level != levels@[b].level by {
                                assert(levels@[a].level == levels0[a].level);
                                assert(levels@[b].level == levels0[b].level);
                            }
                        }
                    },
                    None => {
                        let mut fresh = WallCellSet::new();
                        fresh.insert(rec.cell);
                        let entry = LevelWalls { level: l, cells: fresh };
                        let ghost entry1 = entry;
                        levels.push(entry);
                        proof {
                            assert(levels@ =~= levels0.push(entry1));
                            lemma_membership_push(batch@, ii, levels0, levels@, entry1, rec);
                            assert(entry1.cells.solid(rec.cell.x as int, rec.cell.y as int));
                            let n0 = levels0.len() as int;
                            assert(levels@[n0] == entry1);
                            assert forall|k0: int| 0 <= k0 < levels@.len()
                                implies (#[trigger] levels@[k0]).cells.count() > 0 by {
                                if k0 < n0 {
                                    assert(levels@[k0] == levels0[k0]);
                                } else {
                                    assert(entry1.cells.solid(rec.cell.x as int, rec.cell.y as int));
                                }
                            }
                            assert forall|k0: int| 0 <= k0 < levels@.len()
                                implies (#[trigger] levels@[k0]).cells.wf() by {
                                if k0 < n0 {
                                    assert(levels@[k0] == levels0[k0]);
                                }
                            }
                            assert forall|k0: int| 0 <= k0 < levels@.len()
                                implies batch_names_level(
                                batch@,
                                ii + 1,
                                (#[trigger] levels@[k0]).level,
                            ) by {
                                if k0 < n0 {
                                    assert(levels@[k0] == levels0[k0]);
                                    lemma_names_level_widen(batch@, ii, levels0[k0].level);
                                } else {
                                    assert(batch@[ii].level == Some(entry1.level));
                                }
                            }
                            assert forall|a: int, b: int| 0 <= a < b < levels@.len()
                                implies levels@[a].level != levels@[b].level by {
                                if b < n0 {
                                    assert(levels@[a] == levels0[a] && levels@[b] == levels0[b]);
                                } else {
                                    assert(levels@[a] == levels0[a]);
                                    assert(levels@[b] == entry1);
                                    assert(levels0[a].level != entry1.level);
                                }
                            }
                        }
                    },
                }
            },
            None => {
                proof {
                    assert forall|k0: int| 0 <= k0 < levels@.len()
                        implies batch_names_level(
                        batch@,
                        ii + 1,
                        (#[trigger] levels@[k0]).level,
                    ) by {
                        lemma_names_level_widen(batch@, ii, levels@[k0].level);
                    }
                    // an unresolved cell joins no level
                    assert forall|l: u64, x: int, y: int|
                        #[trigger] batch_has_upto(batch@, ii + 1, l, x, y) implies levels_have(
                        levels@,
                        l,
                        x,
                        y,
                    ) by {
                        let i0 = choose|i0: int|
                            0 <= i0 < ii + 1 && i0 < batch@.len() && (#[trigger] batch@[i0]).level
                                == Some(l) && batch@[i0].cell.x == x && batch@[i0].cell.y == y;
                        assert(i0 < ii);
                        assert(batch_has_upto(batch@, ii, l, x, y));
                    }
                }
            },
        }
        i = i + 1;
    }
    let ready = batch.len() > 0;
    proof {
        assert forall|l: u64, x: int, y: int|
            #[trigger] batch_has(batch@, l, x, y) implies batch_has_upto(
            batch@,
            i as int,
            l,
            x,
            y,
        ) by {}
    }
    (levels, ready)
}

/// Extending one level's cell set with one resolved batch record keeps the
/// grouped output in step with the batch prefix it was built from.
proof fn lemma_membership_update(
    batch: Seq<TaggedWallCell>,
    ii: int,
    levels0: Seq<LevelWalls>,
    levels1: Seq<LevelWalls>,
    k: int,
    entry0: LevelWalls,
    entry1: LevelWalls,
    rec: TaggedWallCell,
)
    requires
        0 <= ii < batch.len(),
        batch[ii] == rec,
        0 <= k < levels0.len(),
        levels1 =~= levels0.update(k, entry1),
        rec.level == Some(entry1.level),
        levels0[k].level == entry1.level,
        levels0[k] == entry0,
        entry0.level == entry1.level,
        forall|x: int, y: int|
            entry1.cells.solid(x, y) <==> (entry0.cells.solid(x, y) || (x == rec.cell.x && y
                == rec.cell.y)),
        forall|l: u64, x: int, y: int|
            #[trigger] batch_has_upto(batch, ii, l, x, y) ==> levels_have(levels0, l, x, y),
        forall|l: u64, x: int, y: int|
            #[trigger] levels_have(levels0, l, x, y) ==> batch_has_upto(batch, ii, l, x, y),
    ensures
        forall|l: u64, x: int, y: int|
            #[trigger] batch_has_upto(batch, ii + 1, l, x, y) ==> levels_have(levels1, l, x, y),
        forall|l: u64, x: int, y: int|
            #[trigger] levels_have(levels1, l, x, y) ==> batch_has_upto(batch, ii + 1, l, x, y),
{
    assert forall|l: u64, x: int, y: int|
        #[trigger] batch_has_upto(batch, ii + 1, l, x, y) implies levels_have(
        levels1,
        l,
        x,
        y,
    ) by {
        let i0 = choose|i0: int|
            0 <= i0 < ii + 1 && i0 < batch.len() && (#[trigger] batch[i0]).level == Some(l)
                && batch[i0].cell.x == x && batch[i0].cell.y == y;
        if i0 < ii {
            assert(batch_has_upto(batch, ii, l, x, y));
            let k0 = choose|k0: int|
                0 <= k0 < levels0.len() && (#[trigger] levels0[k0]).level == l
                    && levels0[k0].cells.solid(x, y);
            if k0 == k {
                assert(entry1.cells.solid(x, y));
                assert((levels1[k]).level == l && levels1[k].cells.solid(x, y));
            } else {
                assert(levels1[k0] == levels0[k0]);
            }
            assert(levels_have(levels1, l, x, y));
        } else {
            assert(l == entry1.level);
            assert(entry1.cells.solid(x, y));
            assert((levels1[k]).level == l && levels1[k].cells.solid(x, y));
            assert(levels_have(levels1, l, x, y));
        }
    }
    assert forall|l: u64, x: int, y: int|
        #[trigger] levels_have(levels1, l, x, y) implies batch_has_upto(
        batch,
        ii + 1,
        l,
        x,
        y,
    ) by {
        let k0 = choose|k0: int|
            0 <= k0 < levels1.len() && (#[trigger] levels1[k0]).level == l
                && levels1[k0].cells.solid(x, y);
        if k0 == k {
            if entry0.cells.solid(x, y) {
                assert((levels0[k]).level == l && levels0[k].cells.solid(x, y));
                assert(levels_have(levels0, l, x, y));
                assert(batch_has_upto(batch, ii, l, x, y));
                let i0 = choose|i0: int|
                    0 <= i0 < ii && i0 < batch.len() && (#[trigger] batch[i0]).level == Some(l)
                        && batch[i0].cell.x == x && batch[i0].cell.y == y;
                assert(batch_has_upto(batch, ii + 1, l, x, y));
            } else {
                assert(x == rec.cell.x && y == rec.cell.y);
                assert(batch[ii].level == Some(l));
                assert(batch_has_upto(batch, ii + 1, l, x, y));
            }
        } else {
            assert(levels1[k0] == levels0[k0]);
            assert(levels_have(levels0, l, x, y));
            assert(batch_has_upto(batch, ii, l, x, y));
            let i0 = choose|i0: int|
                0 <= i0 < ii && i0 < batch.len() && (#[trigger] batch[i0]).level == Some(l)
                    && batch[i0].cell.x == x && batch[i0].cell.y == y;
            assert(batch_has_upto(batch, ii + 1, l, x, y));
        }
    }
}

/// Starting a fresh level set for one resolved batch record keeps the
/// grouped output in step with the batch prefix it was built from.
proof fn lemma_membership_push(
    batch: Seq<TaggedWallCell>,
    ii: int,
    levels0: Seq<LevelWalls>,
    levels1: Seq<LevelWalls>,
    entry1: LevelWalls,
    rec: TaggedWallCell,
)
    requires
        0 <= ii < batch.len(),
        batch[ii] == rec,
        levels1 =~= levels0.push(entry1),
        rec.level == Some(entry1.level),
        forall|x: int, y: int|
            entry1.cells.solid(x, y) <==> (x == rec.cell.x && y == rec.cell.y),
        forall|l: u64, x: int, y: int|
            #[trigger] batch_has_upto(batch, ii, l, x, y) ==> levels_have(levels0, l, x, y),
        forall|l: u64, x: int, y: int|
            #[trigger] levels_have(levels0, l, x, y) ==> batch_has_upto(batch, ii, l, x, y),
    ensures
        forall|l: u64, x: int, y: int|
            #[trigger] batch_has_upto(batch, ii + 1, l, x, y) ==> levels_have(levels1, l, x, y),
        forall|l: u64, x: int, y: int|
            #[trigger] levels_have(levels1, l, x, y) ==> batch_has_upto(batch, ii + 1, l, x, y),
{
    let n0 = levels0.len() as int;
    assert(levels1[n0] == entry1);
    assert forall|l: u64, x: int, y: int|
        #[trigger] batch_has_upto(batch, ii + 1, l, x, y) implies levels_have(
        levels1,
        l,
        x,
        y,
    ) by {
        let i0 = choose|i0: int|
            0 <= i0 < ii + 1 && i0 < batch.len() && (#[trigger] batch[i0]).level == Some(l)
                && batch[i0].cell.x == x && batch[i0].cell.y == y;
        if i0 < ii {
            assert(batch_has_upto(batch, ii, l, x, y));
            let k0 = choose|k0: int|
                0 <= k0 < levels0.len() && (#[trigger] levels0[k0]).level == l
                    && levels0[k0].cells.solid(x, y);
            assert(levels1[k0] == levels0[k0]);
            assert(levels_have(levels1, l, x, y));
        } else {
            assert(l == entry1.level);
            assert(entry1.cells.solid(x, y));
            assert((levels1[n0]).level == l && levels1[n0].cells.solid(x, y));
            assert(levels_have(levels1, l, x, y));
        }
    }
    assert forall|l: u64, x: int, y: int|
        #[trigger] levels_have(levels1, l, x, y) implies batch_has_upto(
        batch,
        ii + 1,
        l,
        x,
        y,
    ) by {
        let k0 = choose|k0: int|
            0 <= k0 < levels1.len() && (#[trigger] levels1[k0]).level == l
                && levels1[k0].cells.solid(x, y);
        if k0 < n0 {
            assert(levels1[k0] == levels0[k0]);
            assert(levels_have(levels0, l, x, y));
            assert(batch_has_upto(batch, ii, l, x, y));
            let i0 = choose|i0: int|
                0 <= i0 < ii && i0 < batch.len() && (#[trigger] batch[i0]).level == Some(l)
                    && batch[i0].cell.x == x && batch[i0].cell.y == y;
            assert(batch_has_upto(batch, ii + 1, l, x, y));
        } else {
            assert(levels1[k0] == entry1);
            assert(x == rec.cell.x && y == rec.cell.y);
            assert(batch[ii].level == Some(l));
            assert(batch_has_upto(batch, ii + 1, l, x, y));
        }
    }
}

/// A level named within a prefix is named within any longer prefix.
proof fn lemma_names_level_widen(batch: Seq<TaggedWallCell>, n: int, l: u64)
    requires
        batch_names_level(batch, n, l),
    ensures
        batch_names_level(batch, n + 1, l),
{
    let i = choose|i: int|
        0 <= i < n && i < batch.len() && (#[trigger] batch[i]).level == Some(l);
    assert(0 <= i < n + 1 && i < batch.len() && batch[i].level == Some(l));
}

} // verus!
