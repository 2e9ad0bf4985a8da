use vstd::prelude::*;
use crate::board::{
    lemma_value_at_push, positions_unique, tile_at, tiles_wf, value_at, value_at_cell, occupied,
    has_unique_positions, tiles_within, values_positive, Board, BoardError, Position, Tile,
    MAX_SHIFT_VALUE,
};
use crate::lane::{
    lane_total, lemma_packed_lane_unchanged, lemma_slide_keeps_total, lemma_slide_shape,
    packed_without_pairs, slid_merged, slid_value, slide, slide_lane, values_total,
};

verus! {

/// The way a move pushes every tile.
#[derive(Clone, Copy, Debug, PartialEq, Eq, Structural)]
pub enum Direction {
    Left,
    Right,
    Up,
    Down,
}

impl Direction {
    /// The direction bound to a movement key: `w` up, `a` left, `s` down,
    /// `d` right, in either case. Any other key has none.
    pub fn from_key(key: char) -> (r: Option<Direction>)
        ensures
            r == (if key == 'w' || key == 'W' {
                Some(Direction::Up)
            } else if key == 'a' || key == 'A' {
                Some(Direction::Left)
            } else if key == 's' || key == 'S' {
                Some(Direction::Down)
            } else if key == 'd' || key == 'D' {
                Some(Direction::Right)
            } else {
                None
            }),
    {
        match key {
            'w' | 'W' => Some(Direction::Up),
            'a' | 'A' => Some(Direction::Left),
            's' | 'S' => Some(Direction::Down),
            'd' | 'D' => Some(Direction::Right),
            _ => None,
        }
    }
}

/// Cell number `k`, counted from the edge that `d` moves toward, of lane
/// `l`. Lanes are rows for `Left` and `Right`, columns for `Up` and `Down`;
/// `y` grows upward.
pub open spec fn lane_cell(n: int, d: Direction, l: int, k: int) -> (int, int) {
    match d {
        Direction::Left => (k, l),
        Direction::Right => (n - 1 - k, l),
        Direction::Down => (l, k),
        Direction::Up => (l, n - 1 - k),
    }
}

/// The lane that cell `(x, y)` belongs to for direction `d`.
pub open spec fn lane_of(d: Direction, x: int, y: int) -> int {
    match d {
        Direction::Left | Direction::Right => y,
        Direction::Up | Direction::Down => x,
    }
}

/// How far cell `(x, y)` stands from the edge that `d` moves toward.
pub open spec fn slot_of(n: int, d: Direction, x: int, y: int) -> int {
    match d {
        Direction::Left => x,
        Direction::Right => n - 1 - x,
        Direction::Down => y,
        Direction::Up => n - 1 - y,
    }
}

/// The cells of lane `l`, read from the edge that `d` moves toward; 0 for an empty cell.
pub open spec fn lane_values(tiles: Seq<Tile>, n: int, d: Direction, l: int) -> Seq<u32> {
    Seq::new(n as nat, |k: int| value_at(tiles, lane_cell(n, d, l, k).0, lane_cell(n, d, l, k).1))
}

/// The value on cell `(x, y)` once the board has been shifted toward `d`.
pub open spec fn shifted_value(tiles: Seq<Tile>, n: int, d: Direction, x: int, y: int) -> int {
    slid_value(lane_values(tiles, n, d, lane_of(d, x, y)), slot_of(n, d, x, y))
}

/// Whether cell `(x, y)` absorbs a merge when the board is shifted toward `d`.
pub open spec fn shifted_merged(tiles: Seq<Tile>, n: int, d: Direction, x: int, y: int) -> bool {
    slid_merged(lane_values(tiles, n, d, lane_of(d, x, y)), slot_of(n, d, x, y))
}

/// Every tile's value is at most `MAX_SHIFT_VALUE`, so a merge cannot overflow.
pub open spec fn values_mergeable(tiles: Seq<Tile>) -> bool {
    forall|i: int| 0 <= i < tiles.len() ==> tiles[i].value <= MAX_SHIFT_VALUE
}

/// Some cell of a board of side `n` holds another value in `a` than in `b`.
pub open spec fn boards_differ(a: Seq<Tile>, b: Seq<Tile>, n: int) -> bool {
    exists|x: int, y: int|
        0 <= x < n && 0 <= y < n && #[trigger] value_at(a, x, y) != #[trigger] value_at(b, x, y)
}

/// A merge in a shift: the cell that absorbed it and the value it now holds.
#[derive(Clone, Copy, Debug, PartialEq, Eq, Structural)]
pub struct MergeEvent {
    pub pos: Position,
    pub value: u32,
}

/// What a shift produces: the new tiles, the merges, and whether anything changed.
#[derive(Debug)]
pub struct ShiftOutcome {
    pub tiles: Vec<Tile>,
    pub merges: Vec<MergeEvent>,
    pub moved: bool,
}

/// `o` is the result of shifting `tiles` toward `d` on a board of side `n`.
pub open spec fn is_shift_of(o: ShiftOutcome, tiles: Seq<Tile>, n: int, d: Direction) -> bool {
    &&& tiles_wf(o.tiles@, n)
    &&& forall|x: int, y: int|
        0 <= x < n && 0 <= y < n ==> #[trigger] value_at(o.tiles@, x, y) as int == shifted_value(
            tiles,
            n,
            d,
            x,
            y,
        )
    &&& o.moved == boards_differ(o.tiles@, tiles, n)
    &&& forall|i: int|
        0 <= i < o.merges@.len() ==> {
            let p = #[trigger] o.merges@[i].pos;
            &&& p.x < n && p.y < n
            &&& shifted_merged(tiles, n, d, p.x as int, p.y as int)
            &&& o.merges@[i].value == value_at(o.tiles@, p.x as int, p.y as int)
        }
    &&& forall|x: int, y: int|
        0 <= x < n && 0 <= y < n && #[trigger] shifted_merged(tiles, n, d, x, y) ==> exists|i: int|
            0 <= i < o.merges@.len() && o.merges@[i].pos.x == x && o.merges@[i].pos.y == y
    &&& forall|i: int, j: int|
        0 <= i < o.merges@.len() && 0 <= j < o.merges@.len() && i != j ==> o.merges@[i].pos
            != o.merges@[j].pos
}

proof fn lemma_lane_geometry(n: int, d: Direction)
    requires
        n >= 1,
    ensures
        forall|x: int, y: int|
            0 <= x < n && 0 <= y < n ==> {
                &&& 0 <= #[trigger] lane_of(d, x, y) < n
                &&& 0 <= #[trigger] slot_of(n, d, x, y) < n
                &&& lane_cell(n, d, lane_of(d, x, y), slot_of(n, d, x, y)) == (x, y)
            },
        forall|l: int, k: int|
            0 <= l < n && 0 <= k < n ==> {
                let c = #[trigger] lane_cell(n, d, l, k);
                &&& 0 <= c.0 < n
                &&& 0 <= c.1 < n
                &&& lane_of(d, c.0, c.1) == l
                &&& slot_of(n, d, c.0, c.1) == k
            },
{
}

/// Coordinates of cell `k` of lane `l`, as `lane_cell` gives them.
fn lane_cell_exec(n: u8, d: Direction, l: u8, k: u8) -> (r: (u8, u8))
    requires
        l < n,
        k < n,
    ensures
        r.0 as int == lane_cell(n as int, d, l as int, k as int).0,
        r.1 as int == lane_cell(n as int, d, l as int, k as int).1,
{
    match d {
        Direction::Left => (k, l),
        Direction::Right => (n - 1 - k, l),
        Direction::Down => (l, k),
        Direction::Up => (l, n - 1 - k),
    }
}

/// The values on lane `l`, from the edge that `d` moves toward.
fn read_lane(tiles: &Vec<Tile>, n: u8, d: Direction, l: u8) -> (r: Vec<u32>)
    requires
        positions_unique(tiles@),
        l < n,
    ensures
        r@ == lane_values(tiles@, n as int, d, l as int),
{
    let mut lane: Vec<u32> = Vec::new();
    let mut k: u8 = 0;
    while k < n
        invariant
            k <= n,
            l < n,
            positions_unique(tiles@),
            lane@.len() == k,
            forall|j: int|
                0 <= j < k ==> lane@[j] == lane_values(tiles@, n as int, d, l as int)[j],
        decreases n - k,
    {
        let (x, y) = lane_cell_exec(n, d, l, k);
        let v = value_at_cell(tiles, x, y);
        lane.push(v);
        k += 1;
    }
    assert(lane@ =~= lane_values(tiles@, n as int, d, l as int));
    lane
}

/// Cell `(x, y)` comes before cell `k` of lane `l` in the order a shift walks the board.
spec fn settled(n: int, d: Direction, l: int, k: int, x: int, y: int) -> bool {
    lane_of(d, x, y) < l || (lane_of(d, x, y) == l && slot_of(n, d, x, y) < k)
}

/// What a shift has built once every cell before cell `k` of lane `l` is done.
spec fn shift_progress(
    tiles: Seq<Tile>,
    n: int,
    d: Direction,
    l: int,
    k: int,
    out: Seq<Tile>,
    merges: Seq<MergeEvent>,
    moved: bool,
) -> bool {
    &&& tiles_wf(out, n)
    &&& forall|x: int, y: int|
        0 <= x < n && 0 <= y < n && settled(n, d, l, k, x, y) ==> value_at(out, x, y) as int
            == #[trigger] shifted_value(tiles, n, d, x, y)
    &&& forall|x: int, y: int|
        0 <= x < n && 0 <= y < n && !settled(n, d, l, k, x, y) ==> !#[trigger] occupied(out, x, y)
    &&& moved == exists|x: int, y: int|
        0 <= x < n && 0 <= y < n && settled(n, d, l, k, x, y) && #[trigger] shifted_value(
            tiles,
            n,
            d,
            x,
            y,
        ) != value_at(tiles, x, y) as int
    &&& forall|i: int|
        0 <= i < merges.len() ==> {
            let p = #[trigger] merges[i].pos;
            &&& p.x < n && p.y < n
            &&& settled(n, d, l, k, p.x as int, p.y as int)
            &&& shifted_merged(tiles, n, d, p.x as int, p.y as int)
            &&& merges[i].value as int == shifted_value(tiles, n, d, p.x as int, p.y as int)
        }
    &&& forall|x: int, y: int|
        0 <= x < n && 0 <= y < n && settled(n, d, l, k, x, y) && #[trigger] shifted_merged(
            tiles,
            n,
            d,
            x,
            y,
        ) ==> exists|i: int| 0 <= i < merges.len() && merges[i].pos.x == x && merges[i].pos.y == y
    &&& forall|i: int, j: int|
        0 <= i < merges.len() && 0 <= j < merges.len() && i != j ==> merges[i].pos
            != merges[j].pos
}

/// Shifts every tile toward `d`: each lane slides toward that edge, and two
/// equal neighbours merge into one tile of twice the value, at most once
/// per cell. Tiles that share a cell are refused.
pub fn shift(board: &Board, tiles: &Vec<Tile>, d: Direction) -> (r: Result<
    ShiftOutcome,
    BoardError,
>)
    requires
        board.wf(),
        tiles_within(tiles@, board.side()),
        values_positive(tiles@),
        values_mergeable(tiles@),
    ensures
        !positions_unique(tiles@) ==> r == Err::<ShiftOutcome, BoardError>(
            BoardError::DuplicatePosition,
        ),
        positions_unique(tiles@) ==> (r matches Ok(o) && is_shift_of(o, tiles@, board.side(), d)),
{
    if !has_unique_positions(tiles) {
        return Err(BoardError::DuplicatePosition);
    }
    let n = board.size;
    let ghost gn = n as int;
    proof {
        lemma_lane_geometry(gn, d);
    }
    let mut out: Vec<Tile> = Vec::new();
    let mut merges: Vec<MergeEvent> = Vec::new();
    let mut moved = false;
    let mut l: u8 = 0;
    while l < n
        invariant
            l <= n,
            n == board.size,
            gn == n as int,
            n >= 2,
            positions_unique(tiles@),
            values_mergeable(tiles@),
            shift_progress(tiles@, gn, d, l as int, 0, out@, merges@, moved),
        decreases n - l,
    {
        proof {
            lemma_lane_geometry(gn, d);
        }
        let lane = read_lane(tiles, n, d, l);
        proof {
            assert forall|i: int| 0 <= i < lane@.len() implies lane@[i] <= MAX_SHIFT_VALUE by {
                let c = lane_cell(gn, d, l as int, i);
                if occupied(tiles@, c.0, c.1) {
                    let w = choose|j: int|
                        0 <= j < tiles@.len() && #[trigger] tile_at(tiles@[j], c.0, c.1);
                    assert(tiles@[w].value <= MAX_SHIFT_VALUE);
                }
            }
            lemma_slide_shape(lane@);
        }
        let (vals, flags) = slide_lane(&lane);
        let mut k: u8 = 0;
        while k < n
            invariant
                k <= n,
                l < n,
                n == board.size,
                gn == n as int,
                n >= 2,
                lane@ == lane_values(tiles@, gn, d, l as int),
                vals@.len() == slide(lane@).0.len(),
                flags@ == slide(lane@).1,
                vals@.len() == flags@.len(),
                forall|j: int| 0 <= j < vals@.len() ==> vals@[j] as int == slide(lane@).0[j],
                forall|j: int| 0 <= j < vals@.len() ==> vals@[j] >= 1,
                shift_progress(tiles@, gn, d, l as int, k as int, out@, merges@, moved),
            decreases n - k,
        {
            proof {
                lemma_lane_geometry(gn, d);
            }
            let (x, y) = lane_cell_exec(n, d, l, k);
            let ku = k as usize;
            let v: u32 = if ku < vals.len() {
                vals[ku]
            } else {
                0
            };
            let ghost old_out = out@;
            let ghost old_merges = merges@;
            let ghost old_moved = moved;
            let t = Tile { pos: Position { x, y }, value: v };
            proof {
                assert(lane_of(d, x as int, y as int) == l);
                assert(slot_of(gn, d, x as int, y as int) == k);
                assert(shifted_value(tiles@, gn, d, x as int, y as int) == v as int);
                assert(lane@[k as int] == value_at(tiles@, x as int, y as int));
                assert(!settled(gn, d, l as int, k as int, x as int, y as int));
                assert(!occupied(out@, x as int, y as int));
            }
            if v != 0 {
                proof {
                    assert forall|x2: int, y2: int| true implies occupied(out@.push(t), x2, y2) == (
                    tile_at(t, x2, y2) || occupied(out@, x2, y2)) && value_at(out@.push(t), x2, y2)
                        == if tile_at(t, x2, y2) {
                        t.value
                    } else {
                        value_at(out@, x2, y2)
                    } by {
                        lemma_value_at_push(out@, t, x2, y2);
                    }
                    lemma_value_at_push(out@, t, 0, 0);
                }
                out.push(t);
            }
            if ku < flags.len() && flags[ku] {
                merges.push(MergeEvent { pos: Position { x, y }, value: v });
            }
            if v != lane[ku] {
                moved = true;
            }
            proof {
                let nl = l as int;
                let nk = k as int + 1;
                assert forall|x2: int, y2: int|
                    0 <= x2 < gn && 0 <= y2 < gn implies #[trigger] settled(gn, d, nl, nk, x2, y2)
                    == (settled(gn, d, nl, k as int, x2, y2) || (x2 == x && y2 == y)) by {
                    if lane_of(d, x2, y2) == nl && slot_of(gn, d, x2, y2) == k {
                        assert(lane_cell(gn, d, nl, k as int) == (x2, y2));
                    }
                }
                assert(tiles_wf(out@, gn));
                assert forall|x2: int, y2: int|
                    0 <= x2 < gn && 0 <= y2 < gn && settled(gn, d, nl, nk, x2, y2) implies value_at(
                    out@,
                    x2,
                    y2,
                ) as int == #[trigger] shifted_value(tiles@, gn, d, x2, y2) by {
                    if v != 0 {
                        lemma_value_at_push(old_out, t, x2, y2);
                    }
                    if x2 != x || y2 != y {
                        assert(settled(gn, d, nl, k as int, x2, y2));
                        assert(value_at(old_out, x2, y2) as int == shifted_value(tiles@, gn, d, x2, y2));
                    } else if v == 0 {
                        assert(!occupied(out@, x2, y2));
                    }
                }
                assert forall|x2: int, y2: int|
                    0 <= x2 < gn && 0 <= y2 < gn && !settled(gn, d, nl, nk, x2, y2) implies !#[trigger] occupied(
                    out@,
                    x2,
                    y2,
                ) by {
                    assert(!settled(gn, d, nl, k as int, x2, y2));
                    assert(!occupied(old_out, x2, y2));
                    if v != 0 {
                        lemma_value_at_push(old_out, t, x2, y2);
                    }
                }
                if moved && !old_moved {
                    assert(settled(gn, d, nl, nk, x as int, y as int));
                    assert(shifted_value(tiles@, gn, d, x as int, y as int) != value_at(tiles@, x as int, y as int) as int);
                }
                if !moved {
                    assert forall|x2: int, y2: int|
                        0 <= x2 < gn && 0 <= y2 < gn && settled(gn, d, nl, nk, x2, y2) implies #[trigger] shifted_value(
                        tiles@,
                        gn,
                        d,
                        x2,
                        y2,
                    ) == value_at(tiles@, x2, y2) as int by {
                        if x2 != x || y2 != y {
                            assert(settled(gn, d, nl, k as int, x2, y2));
                        }
                    }
                }
                assert forall|x2: int, y2: int|
                    0 <= x2 < gn && 0 <= y2 < gn && settled(gn, d, nl, nk, x2, y2) && #[trigger] shifted_merged(
                    tiles@,
                    gn,
                    d,
                    x2,
                    y2,
                ) implies exists|i: int|
                    0 <= i < merges@.len() && merges@[i].pos.x == x2 && merges@[i].pos.y == y2 by {
                    if x2 != x || y2 != y {
                        assert(settled(gn, d, nl, k as int, x2, y2));
                        let i = choose|i: int|
                            0 <= i < old_merges.len() && old_merges[i].pos.x == x2
                                && old_merges[i].pos.y == y2;
                        assert(merges@[i] == old_merges[i]);
                    } else {
                        assert(merges@[merges@.len() - 1].pos.x == x2);
                    }
                }
                assert forall|i: int| 0 <= i < merges@.len() implies {
                    let p = #[trigger] merges@[i].pos;
                    &&& p.x < gn && p.y < gn
                    &&& settled(gn, d, nl, nk, p.x as int, p.y as int)
                    &&& shifted_merged(tiles@, gn, d, p.x as int, p.y as int)
                    &&& merges@[i].value as int == shifted_value(tiles@, gn, d, p.x as int, p.y as int)
                } by {
                    if i < old_merges.len() {
                        assert(merges@[i] == old_merges[i]);
                        let p = old_merges[i].pos;
                        assert(settled(gn, d, nl, k as int, p.x as int, p.y as int));
                    }
                }
                assert forall|i: int, j: int|
                    0 <= i < merges@.len() && 0 <= j < merges@.len() && i != j implies merges@[i].pos
                        != merges@[j].pos by {
                    if i < old_merges.len() && j == old_merges.len() {
                        let p = old_merges[i].pos;
                        assert(settled(gn, d, nl, k as int, p.x as int, p.y as int));
                    }
                    if j < old_merges.len() && i == old_merges.len() {
                        let p = old_merges[j].pos;
                        assert(settled(gn, d, nl, k as int, p.x as int, p.y as int));
                    }
                }
            }
            k += 1;
        }
        proof {
            assert forall|x2: int, y2: int|
                0 <= x2 < gn && 0 <= y2 < gn implies #[trigger] settled(gn, d, l as int + 1, 0, x2, y2)
                == settled(gn, d, l as int, gn, x2, y2) by {}
        }
        l += 1;
    }
    proof {
        assert forall|x2: int, y2: int|
            0 <= x2 < gn && 0 <= y2 < gn implies #[trigger] settled(gn, d, gn, 0, x2, y2) by {}
    }
    let o = ShiftOutcome { tiles: out, merges, moved };
    proof {
        assert forall|i: int| 0 <= i < o.merges@.len() implies o.merges@[i].value == value_at(
            o.tiles@,
            o.merges@[i].pos.x as int,
            o.merges@[i].pos.y as int,
        ) by {
            let p = o.merges@[i].pos;
            assert(settled(gn, d, gn, 0, p.x as int, p.y as int));
        }
        if moved {
            let (x, y) = choose|x: int, y: int|
                0 <= x < gn && 0 <= y < gn && settled(gn, d, gn, 0, x, y) && #[trigger] shifted_value(
                    tiles@,
                    gn,
                    d,
                    x,
                    y,
                ) != value_at(tiles@, x, y) as int;
            assert(value_at(o.tiles@, x, y) != value_at(tiles@, x, y));
        }
        if boards_differ(o.tiles@, tiles@, gn) {
            let (x, y) = choose|x: int, y: int|
                0 <= x < gn && 0 <= y < gn && #[trigger] value_at(o.tiles@, x, y)
                    != #[trigger] value_at(tiles@, x, y);
            assert(settled(gn, d, gn, 0, x, y));
            assert(shifted_value(tiles@, gn, d, x, y) != value_at(tiles@, x, y) as int);
        }
    }
    Ok(o)
}

/// Shifting a board whose lanes all stand packed against the target edge,
/// with no two equal neighbours, changes nothing: every cell keeps its
/// value, nothing merges, and no movement is reported.
pub proof fn lemma_packed_shift_is_noop(tiles: Seq<Tile>, n: int, d: Direction, o: ShiftOutcome)
    requires
        n >= 1,
        forall|l: int| 0 <= l < n ==> packed_without_pairs(#[trigger] lane_values(tiles, n, d, l)),
        is_shift_of(o, tiles, n, d),
    ensures
        !o.moved,
        o.merges@.len() == 0,
        forall|x: int, y: int|
            0 <= x < n && 0 <= y < n ==> #[trigger] value_at(o.tiles@, x, y) == value_at(tiles, x, y),
{
    lemma_lane_geometry(n, d);
    assert forall|x: int, y: int| 0 <= x < n && 0 <= y < n implies shifted_value(tiles, n, d, x, y)
        == value_at(tiles, x, y) as int && !shifted_merged(tiles, n, d, x, y) by {
        let l = lane_of(d, x, y);
        let lane = lane_values(tiles, n, d, l);
        lemma_packed_lane_unchanged(lane);
        assert(lane[slot_of(n, d, x, y)] == value_at(tiles, x, y));
    }
    assert forall|x: int, y: int|
        0 <= x < n && 0 <= y < n implies #[trigger] value_at(o.tiles@, x, y) == value_at(tiles, x, y) by {
        assert(value_at(o.tiles@, x, y) as int == shifted_value(tiles, n, d, x, y));
    }
    if o.merges@.len() > 0 {
        let p = o.merges@[0].pos;
        assert(shifted_merged(tiles, n, d, p.x as int, p.y as int));
    }
}

proof fn lemma_padded_total(s: Seq<u32>, vals: Seq<int>)
    requires
        vals.len() <= s.len(),
        forall|k: int| 0 <= k < vals.len() ==> s[k] as int == vals[k],
        forall|k: int| vals.len() <= k < s.len() ==> s[k] == 0,
    ensures
        lane_total(s) == values_total(vals),
    decreases s.len(),
{
    if s.len() > 0 {
        if vals.len() == s.len() {
            lemma_padded_total(s.drop_last(), vals.drop_last());
        } else {
            lemma_padded_total(s.drop_last(), vals);
        }
    }
}

/// A shift keeps the sum of every lane, and so of the board: merges add
/// nothing, a merged tile is worth the two it was made of.
pub proof fn lemma_shift_keeps_lane_totals(tiles: Seq<Tile>, n: int, d: Direction, o: ShiftOutcome, l: int)
    requires
        n >= 1,
        0 <= l < n,
        is_shift_of(o, tiles, n, d),
    ensures
        lane_total(lane_values(o.tiles@, n, d, l)) == lane_total(lane_values(tiles, n, d, l)),
{
    lemma_lane_geometry(n, d);
    let before = lane_values(tiles, n, d, l);
    let after = lane_values(o.tiles@, n, d, l);
    lemma_slide_shape(before);
    lemma_slide_keeps_total(before);
    assert forall|k: int| 0 <= k < n implies after[k] as int == slid_value(before, k) by {
        let c = lane_cell(n, d, l, k);
        assert(value_at(o.tiles@, c.0, c.1) as int == shifted_value(tiles, n, d, c.0, c.1));
    }
    lemma_padded_total(after, slide(before).0);
}

} // verus!
