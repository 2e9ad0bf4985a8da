use vstd::prelude::*;
use crate::lane::lemma_slide_shape;
use crate::shift::{is_shift_of, lane_of, lane_values, shifted_merged, Direction, ShiftOutcome};
use crate::board::{
    lemma_value_at_index, occupied, positions_unique, tile_at, value_at, value_at_cell,
    values_positive, Board, Tile,
};

verus! {

/// Where a game stands after a turn.
#[derive(Clone, Copy, Debug, PartialEq, Eq, Structural)]
pub enum GameStatus {
    InProgress,
    Won,
    Lost,
}

/// Some tile is worth `win` or more.
pub open spec fn reached(tiles: Seq<Tile>, win: u32) -> bool {
    exists|i: int| 0 <= i < tiles.len() && #[trigger] tiles[i].value >= win
}

/// Cell `(x, y)` holds a tile, and neither its right nor its upper
/// neighbour holds an equal value.
pub open spec fn cell_stuck(tiles: Seq<Tile>, n: int, x: int, y: int) -> bool {
    &&& occupied(tiles, x, y)
    &&& x + 1 < n ==> value_at(tiles, x, y) != value_at(tiles, x + 1, y)
    &&& y + 1 < n ==> value_at(tiles, x, y) != value_at(tiles, x, y + 1)
}

/// No cell is empty and no two adjacent tiles are equal: no shift can change the board.
pub open spec fn stuck(tiles: Seq<Tile>, n: int) -> bool {
    forall|x: int, y: int| 0 <= x < n && 0 <= y < n ==> #[trigger] cell_stuck(tiles, n, x, y)
}

/// The state of a game on a board of side `n`: won as soon as a tile
/// reaches `win`, lost when the board is stuck, in progress otherwise.
pub open spec fn status_of(tiles: Seq<Tile>, n: int, win: u32) -> GameStatus {
    if reached(tiles, win) {
        GameStatus::Won
    } else if stuck(tiles, n) {
        GameStatus::Lost
    } else {
        GameStatus::InProgress
    }
}

/// Whether some tile is worth `win` or more.
pub fn has_won(tiles: &Vec<Tile>, win: u32) -> (r: bool)
    ensures
        r == reached(tiles@, win),
{
    let mut i: usize = 0;
    while i < tiles.len()
        invariant
            0 <= i <= tiles.len(),
            forall|j: int| 0 <= j < i ==> !(#[trigger] tiles@[j].value >= win),
        decreases tiles.len() - i,
    {
        if tiles[i].value >= win {
            return true;
        }
        i += 1;
    }
    false
}

/// Whether the board is full and no two adjacent tiles are equal.
pub fn is_lost(board: &Board, tiles: &Vec<Tile>) -> (r: bool)
    requires
        board.wf(),
        positions_unique(tiles@),
        values_positive(tiles@),
    ensures
        r == stuck(tiles@, board.side()),
{
    let n = board.size;
    let ghost gn = n as int;
    let mut y: u8 = 0;
    while y < n
        invariant
            y <= n,
            n == board.size,
            gn == n as int,
            positions_unique(tiles@),
            values_positive(tiles@),
            forall|x2: int, y2: int|
                0 <= x2 < gn && 0 <= y2 < y ==> #[trigger] cell_stuck(tiles@, gn, x2, y2),
        decreases n - y,
    {
        let mut x: u8 = 0;
        while x < n
            invariant
                x <= n,
                y < n,
                n == board.size,
                gn == n as int,
                positions_unique(tiles@),
                values_positive(tiles@),
                forall|x2: int, y2: int|
                    0 <= x2 < gn && 0 <= y2 < y ==> #[trigger] cell_stuck(tiles@, gn, x2, y2),
                forall|x2: int| 0 <= x2 < x ==> #[trigger] cell_stuck(tiles@, gn, x2, y as int),
            decreases n - x,
        {
            let v = value_at_cell(tiles, x, y);
            if v == 0 {
                proof {
                    if occupied(tiles@, x as int, y as int) {
                        let c = choose|i: int|
                            0 <= i < tiles@.len() && #[trigger] tile_at(tiles@[i], x as int, y as int);
                        lemma_value_at_index(tiles@, c);
                    }
                    assert(!cell_stuck(tiles@, gn, x as int, y as int));
                }
                return false;
            }
            if x + 1 < n && value_at_cell(tiles, x + 1, y) == v {
                assert(!cell_stuck(tiles@, gn, x as int, y as int));
                return false;
            }
            if y + 1 < n && value_at_cell(tiles, x, y + 1) == v {
                assert(!cell_stuck(tiles@, gn, x as int, y as int));
                return false;
            }
            assert(cell_stuck(tiles@, gn, x as int, y as int));
            x += 1;
        }
        y += 1;
    }
    true
}

/// The state of the game: `Won` where a tile is worth `win` or more, else
/// `Lost` where the board is stuck, else `InProgress`.
pub fn game_status(board: &Board, tiles: &Vec<Tile>, win: u32) -> (r: GameStatus)
    requires
        board.wf(),
        positions_unique(tiles@),
        values_positive(tiles@),
    ensures
        r == status_of(tiles@, board.side(), win),
{
    if has_won(tiles, win) {
        GameStatus::Won
    } else if is_lost(board, tiles) {
        GameStatus::Lost
    } else {
        GameStatus::InProgress
    }
}

/// A merge that makes a tile worth `win` or more wins the game on that
/// turn, however many cells are still empty.
pub proof fn lemma_merge_reaching_target_wins(
    tiles: Seq<Tile>,
    n: int,
    d: Direction,
    o: ShiftOutcome,
    win: u32,
    i: int,
)
    requires
        n >= 1,
        is_shift_of(o, tiles, n, d),
        0 <= i < o.merges@.len(),
        o.merges@[i].value >= win,
    ensures
        reached(o.tiles@, win),
        status_of(o.tiles@, n, win) == GameStatus::Won,
{
    let p = o.merges@[i].pos;
    let x = p.x as int;
    let y = p.y as int;
    assert(shifted_merged(tiles, n, d, x, y));
    lemma_slide_shape(lane_values(tiles, n, d, lane_of(d, x, y)));
    assert(value_at(o.tiles@, x, y) >= 1);
    let c = choose|j: int| 0 <= j < o.tiles@.len() && #[trigger] tile_at(o.tiles@[j], x, y);
    assert(o.tiles@[c].value >= win);
}

} // verus!
