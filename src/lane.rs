use vstd::prelude::*;
use crate::board::MAX_SHIFT_VALUE;

verus! {

/// One tile of a lane meets the tiles already placed against the edge.
/// The placed tiles are `acc.0`, and `acc.1` marks those that absorbed a
/// merge in this shift. An empty cell (0) changes nothing; a tile equal to
/// the last placed one merges into it unless that one already merged;
/// otherwise it is placed on the next free cell.
pub open spec fn lane_step(acc: (Seq<int>, Seq<bool>), v: u32) -> (Seq<int>, Seq<bool>) {
    if v == 0 {
        acc
    } else if acc.0.len() > 0 && acc.1.len() == acc.0.len() && !acc.1.last() && acc.0.last()
        == v as int {
        (acc.0.update(acc.0.len() - 1, 2 * v), acc.1.update(acc.1.len() - 1, true))
    } else {
        (acc.0.push(v as int), acc.1.push(false))
    }
}

/// A lane after a shift, read from the edge it moves toward: the values of
/// its tiles in order, and for each whether it absorbed a merge. The input
/// lists the lane's cells from that edge, 0 for an empty cell.
pub open spec fn slide(lane: Seq<u32>) -> (Seq<int>, Seq<bool>)
    decreases lane.len(),
{
    if lane.len() == 0 {
        (Seq::empty(), Seq::empty())
    } else {
        lane_step(slide(lane.drop_last()), lane.last())
    }
}

/// Value on slot `k` of a lane after the shift; 0 where the slot is empty.
pub open spec fn slid_value(lane: Seq<u32>, k: int) -> int {
    if 0 <= k < slide(lane).0.len() {
        slide(lane).0[k]
    } else {
        0
    }
}

/// Whether slot `k` of a lane absorbed a merge in the shift.
pub open spec fn slid_merged(lane: Seq<u32>, k: int) -> bool {
    0 <= k < slide(lane).1.len() && slide(lane).1[k]
}

/// Sum of the values on a lane.
pub open spec fn lane_total(lane: Seq<u32>) -> int
    decreases lane.len(),
{
    if lane.len() == 0 {
        0
    } else {
        lane_total(lane.drop_last()) + lane.last()
    }
}

/// Sum of a sequence of values.
pub open spec fn values_total(vals: Seq<int>) -> int
    decreases vals.len(),
{
    if vals.len() == 0 {
        0
    } else {
        values_total(vals.drop_last()) + vals.last()
    }
}

/// Number of tiles (non-empty cells) on a lane.
pub open spec fn tile_count(lane: Seq<u32>) -> int
    decreases lane.len(),
{
    if lane.len() == 0 {
        0
    } else {
        tile_count(lane.drop_last()) + if lane.last() != 0 {
            1int
        } else {
            0
        }
    }
}

/// Number of cells that absorbed a merge.
pub open spec fn merge_count(flags: Seq<bool>) -> int
    decreases flags.len(),
{
    if flags.len() == 0 {
        0
    } else {
        merge_count(flags.drop_last()) + if flags.last() {
            1int
        } else {
            0
        }
    }
}

/// The lane's tiles all stand against the edge, with no gap between them,
/// and no two neighbouring tiles have equal values.
pub open spec fn packed_without_pairs(lane: Seq<u32>) -> bool {
    &&& forall|i: int, j: int| 0 <= i < j < lane.len() && lane[j] != 0 ==> lane[i] != 0
    &&& forall|i: int| 0 <= i < lane.len() - 1 && #[trigger] lane[i] != 0 ==> lane[i] != lane[i + 1]
}

/// The two parts of a slid lane have one entry per placed tile, fewer than
/// the lane has cells, and every placed value is positive.
pub proof fn lemma_slide_shape(lane: Seq<u32>)
    ensures
        slide(lane).0.len() == slide(lane).1.len(),
        slide(lane).0.len() <= lane.len(),
        forall|j: int| 0 <= j < slide(lane).0.len() ==> slide(lane).0[j] >= 1,
    decreases lane.len(),
{
    if lane.len() > 0 {
        lemma_slide_shape(lane.drop_last());
    }
}

/// A shift keeps the sum of each lane: a merged tile is worth exactly the
/// two tiles it was made of.
pub proof fn lemma_slide_keeps_total(lane: Seq<u32>)
    ensures
        values_total(slide(lane).0) == lane_total(lane),
    decreases lane.len(),
{
    if lane.len() > 0 {
        let prev = lane.drop_last();
        lemma_slide_keeps_total(prev);
        lemma_slide_shape(prev);
        let acc = slide(prev);
        let v = lane.last();
        if v != 0 {
            if acc.0.len() > 0 && !acc.1.last() && acc.0.last() == v as int {
                let u = acc.0.update(acc.0.len() - 1, 2 * v);
                assert(u.drop_last() =~= acc.0.drop_last());
            } else {
                assert(acc.0.push(v as int).drop_last() =~= acc.0);
            }
        }
    }
}

/// Each cell of a shifted lane holds one tile of the lane before, or the
/// merge of exactly two: the tiles before number the tiles after plus the
/// merges. Together with one flag per cell, no cell absorbs a second merge.
pub proof fn lemma_slide_merges_once(lane: Seq<u32>)
    ensures
        tile_count(lane) == slide(lane).0.len() + merge_count(slide(lane).1),
    decreases lane.len(),
{
    if lane.len() > 0 {
        let prev = lane.drop_last();
        lemma_slide_merges_once(prev);
        lemma_slide_shape(prev);
        let acc = slide(prev);
        let v = lane.last();
        if v != 0 {
            if acc.0.len() > 0 && !acc.1.last() && acc.0.last() == v as int {
                let f = acc.1.update(acc.1.len() - 1, true);
                assert(f.drop_last() =~= acc.1.drop_last());
                assert(acc.1 =~= acc.1.drop_last().push(acc.1.last()));
            } else {
                assert(acc.1.push(false).drop_last() =~= acc.1);
            }
        }
    }
}

/// A lane whose tiles already stand against the edge with no equal
/// neighbours is left as it is by a shift, and nothing merges.
pub proof fn lemma_packed_lane_unchanged(lane: Seq<u32>)
    requires
        packed_without_pairs(lane),
    ensures
        forall|k: int| 0 <= k < lane.len() ==> slid_value(lane, k) == lane[k] as int,
        forall|k: int| 0 <= k < lane.len() ==> !slid_merged(lane, k),
{
    lemma_packed_prefix(lane);
}

proof fn lemma_packed_prefix(lane: Seq<u32>)
    requires
        packed_without_pairs(lane),
    ensures
        slide(lane).0.len() == tile_count(lane),
        slide(lane).1.len() == tile_count(lane),
        0 <= tile_count(lane) <= lane.len(),
        forall|k: int| 0 <= k < tile_count(lane) ==> slide(lane).0[k] == lane[k] as int && lane[k] != 0,
        forall|k: int| 0 <= k < tile_count(lane) ==> !slide(lane).1[k],
        forall|k: int| tile_count(lane) <= k < lane.len() ==> lane[k] == 0,
    decreases lane.len(),
{
    if lane.len() > 0 {
        let prev = lane.drop_last();
        assert(packed_without_pairs(prev));
        lemma_packed_prefix(prev);
        let c = tile_count(prev);
        let v = lane.last();
        assert forall|k: int| 0 <= k < prev.len() implies #[trigger] prev[k] == lane[k] by {}
        if v == 0 {
            assert(slide(lane) == slide(prev));
            assert forall|k: int| 0 <= k < tile_count(lane) implies slide(lane).0[k] == lane[k] as int
                && lane[k] != 0 by {
                assert(prev[k] != 0);
            }
            assert forall|k: int| tile_count(lane) <= k < lane.len() implies lane[k] == 0 by {
                if k < prev.len() {
                    assert(prev[k] == 0);
                }
            }
        } else {
            assert(c == prev.len()) by {
                if c < prev.len() {
                    assert(prev[c] == 0);
                    assert(lane[c] == 0);
                }
            }
            if c > 0 {
                assert(lane[c - 1] != lane[c]);
            }
            assert forall|k: int| 0 <= k < tile_count(lane) implies slide(lane).0[k] == lane[k] as int
                && lane[k] != 0 by {
                if k < c {
                    assert(prev[k] != 0);
                }
            }
        }
    }
}

/// `v` is one of 2, 4, 8, ...: the values a tile can take.
pub open spec fn doubling_value(v: int) -> bool
    decreases v,
{
    if v <= 2 {
        v == 2
    } else {
        v % 2 == 0 && doubling_value(v / 2)
    }
}

/// Where every tile of a lane is worth 2, 4, 8, ..., so is every tile after
/// a shift: merging two equal such values gives the next one.
pub proof fn lemma_slide_keeps_doubling(lane: Seq<u32>)
    requires
        forall|i: int| 0 <= i < lane.len() && lane[i] != 0 ==> doubling_value(#[trigger] lane[i] as int),
    ensures
        forall|j: int| 0 <= j < slide(lane).0.len() ==> doubling_value(#[trigger] slide(lane).0[j]),
    decreases lane.len(),
{
    if lane.len() > 0 {
        let prev = lane.drop_last();
        assert forall|i: int| 0 <= i < prev.len() && prev[i] != 0 implies doubling_value(
            #[trigger] prev[i] as int,
        ) by {
            assert(prev[i] == lane[i]);
        }
        lemma_slide_keeps_doubling(prev);
        lemma_slide_shape(prev);
        let acc = slide(prev);
        let v = lane.last();
        if v != 0 && acc.0.len() > 0 && !acc.1.last() && acc.0.last() == v as int {
            let w = 2 * v as int;
            assert(w > 2 && w % 2 == 0 && w / 2 == v as int);
            assert(doubling_value(v as int));
            assert(doubling_value(w));
        }
    }
}

/// Shifts one lane toward its first cell, merging equal neighbours once.
pub fn slide_lane(lane: &Vec<u32>) -> (r: (Vec<u32>, Vec<bool>))
    requires
        forall|i: int| 0 <= i < lane@.len() ==> lane@[i] <= MAX_SHIFT_VALUE,
    ensures
        r.0@.len() == slide(lane@).0.len(),
        r.1@ == slide(lane@).1,
        forall|j: int| 0 <= j < r.0@.len() ==> r.0@[j] as int == slide(lane@).0[j],
{
    let mut vals: Vec<u32> = Vec::new();
    let mut merged: Vec<bool> = Vec::new();
    let mut k: usize = 0;
    while k < lane.len()
        invariant
            0 <= k <= lane.len(),
            forall|i: int| 0 <= i < lane@.len() ==> lane@[i] <= MAX_SHIFT_VALUE,
            vals@.len() == slide(lane@.subrange(0, k as int)).0.len(),
            merged@ == slide(lane@.subrange(0, k as int)).1,
            vals@.len() == merged@.len(),
            forall|j: int|
                0 <= j < vals@.len() ==> vals@[j] as int == slide(lane@.subrange(0, k as int)).0[j],
        decreases lane.len() - k,
    {
        proof {
            assert(lane@.subrange(0, k + 1).drop_last() =~= lane@.subrange(0, k as int));
        }
        let v = lane[k];
        if v != 0 {
            let m = vals.len();
            if m > 0 && !merged[m - 1] && vals[m - 1] == v {
                vals.set(m - 1, 2 * v);
                merged.set(m - 1, true);
            } else {
                vals.push(v);
                merged.push(false);
            }
        }
        k += 1;
    }
    proof {
        assert(lane@.subrange(0, lane@.len() as int) =~= lane@);
    }
    (vals, merged)
}

} // verus!
