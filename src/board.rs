use vstd::prelude::*;

verus! {

/// Side length of a tile in layout units.
pub const TILE_SIZE: u32 = 40;

/// Gap between two tiles, and between a tile and the board's border.
pub const TILE_SPACER: u32 = 10;

/// Value of a freshly spawned tile.
pub const INITIAL_TILE_VALUE: u32 = 2;

/// Default target value for a win.
pub const DEFAULT_WIN_VALUE: u32 = 2048;

/// Largest tile value a shift accepts: doubling it still fits in a `u32`.
pub const MAX_SHIFT_VALUE: u32 = 0x7fff_ffff;

/// Errors of the board logic.
#[derive(Clone, Copy, Debug, PartialEq, Eq, Structural)]
pub enum BoardError {
    /// The requested side length is below two.
    InvalidBoardSize,
    /// Two tiles share one cell.
    DuplicatePosition,
    /// More tiles were asked for than there are empty cells.
    SpawnOverflow,
}

/// A cell of the board: `x` counts columns from the left, `y` rows from the bottom.
#[derive(Clone, Copy, Debug, PartialEq, Eq, Structural)]
pub struct Position {
    pub x: u8,
    pub y: u8,
}

impl Position {
    pub fn new(x: u8, y: u8) -> (r: Position)
        ensures
            r.x == x,
            r.y == y,
    {
        Position { x, y }
    }
}

/// A live tile: where it is and what it is worth.
#[derive(Clone, Copy, Debug, PartialEq, Eq, Structural)]
pub struct Tile {
    pub pos: Position,
    pub value: u32,
}

impl Tile {
    pub fn new(x: u8, y: u8, value: u32) -> (r: Tile)
        ensures
            r.pos.x == x,
            r.pos.y == y,
            r.value == value,
    {
        Tile { pos: Position { x, y }, value }
    }
}

/// The square grid the tiles live on. Its side length is fixed when it is made.
#[derive(Clone, Copy, Debug, PartialEq, Eq, Structural)]
pub struct Board {
    pub size: u8,
}

pub open spec fn tile_at(t: Tile, x: int, y: int) -> bool {
    t.pos.x == x && t.pos.y == y
}

/// Some tile of `tiles` stands on cell `(x, y)`.
pub open spec fn occupied(tiles: Seq<Tile>, x: int, y: int) -> bool {
    exists|i: int| 0 <= i < tiles.len() && #[trigger] tile_at(tiles[i], x, y)
}

/// The value on cell `(x, y)`, or 0 where the cell is empty.
pub open spec fn value_at(tiles: Seq<Tile>, x: int, y: int) -> u32 {
    if occupied(tiles, x, y) {
        tiles[choose|i: int| 0 <= i < tiles.len() && #[trigger] tile_at(tiles[i], x, y)].value
    } else {
        0
    }
}

/// No two tiles share a cell.
pub open spec fn positions_unique(tiles: Seq<Tile>) -> bool {
    forall|i: int, j: int|
        0 <= i < tiles.len() && 0 <= j < tiles.len() && i != j ==> tiles[i].pos != tiles[j].pos
}

/// Every tile lies on a board of side `n`.
pub open spec fn tiles_within(tiles: Seq<Tile>, n: int) -> bool {
    forall|i: int| 0 <= i < tiles.len() ==> tiles[i].pos.x < n && tiles[i].pos.y < n
}

/// Every tile has a positive value.
pub open spec fn values_positive(tiles: Seq<Tile>) -> bool {
    forall|i: int| 0 <= i < tiles.len() ==> tiles[i].value >= 1
}

/// A tile set that can be placed on a board of side `n`.
pub open spec fn tiles_wf(tiles: Seq<Tile>, n: int) -> bool {
    positions_unique(tiles) && tiles_within(tiles, n) && values_positive(tiles)
}

/// The value on a cell is the value of the one tile that stands there.
pub proof fn lemma_value_at_index(tiles: Seq<Tile>, i: int)
    requires
        positions_unique(tiles),
        0 <= i < tiles.len(),
    ensures
        occupied(tiles, tiles[i].pos.x as int, tiles[i].pos.y as int),
        value_at(tiles, tiles[i].pos.x as int, tiles[i].pos.y as int) == tiles[i].value,
{
    let x = tiles[i].pos.x as int;
    let y = tiles[i].pos.y as int;
    assert(tile_at(tiles[i], x, y));
    let c = choose|j: int| 0 <= j < tiles.len() && #[trigger] tile_at(tiles[j], x, y);
    assert(tiles[c].pos == tiles[i].pos);
}

/// Appending a tile on an empty cell changes that cell only.
pub proof fn lemma_value_at_push(tiles: Seq<Tile>, t: Tile, x: int, y: int)
    requires
        positions_unique(tiles),
        !occupied(tiles, t.pos.x as int, t.pos.y as int),
    ensures
        positions_unique(tiles.push(t)),
        occupied(tiles.push(t), x, y) == (tile_at(t, x, y) || occupied(tiles, x, y)),
        value_at(tiles.push(t), x, y) == if tile_at(t, x, y) {
            t.value
        } else {
            value_at(tiles, x, y)
        },
{
    let s = tiles.push(t);
    assert forall|i: int, j: int| 0 <= i < s.len() && 0 <= j < s.len() && i != j implies s[i].pos
        != s[j].pos by {
        if i == tiles.len() {
            assert(tile_at(s[j], t.pos.x as int, t.pos.y as int) ==> s[j].pos == t.pos);
            if s[j].pos == t.pos {
                assert(tile_at(tiles[j], t.pos.x as int, t.pos.y as int));
            }
        } else if j == tiles.len() {
            if s[i].pos == t.pos {
                assert(tile_at(tiles[i], t.pos.x as int, t.pos.y as int));
            }
        }
    }
    if tile_at(t, x, y) {
        assert(tile_at(s[tiles.len() as int], x, y));
        lemma_value_at_index(s, tiles.len() as int);
    } else {
        if occupied(tiles, x, y) {
            let c = choose|i: int| 0 <= i < tiles.len() && #[trigger] tile_at(tiles[i], x, y);
            assert(tile_at(s[c], x, y));
            lemma_value_at_index(tiles, c);
            lemma_value_at_index(s, c);
        }
        if occupied(s, x, y) {
            let c = choose|i: int| 0 <= i < s.len() && #[trigger] tile_at(s[i], x, y);
            assert(tile_at(tiles[c], x, y));
        }
    }
}

/// The value on cell `(x, y)`: that of the tile standing there, or 0 where none does.
pub fn value_at_cell(tiles: &Vec<Tile>, x: u8, y: u8) -> (r: u32)
    requires
        positions_unique(tiles@),
    ensures
        r == value_at(tiles@, x as int, y as int),
{
    let mut i: usize = 0;
    while i < tiles.len()
        invariant
            0 <= i <= tiles.len(),
            positions_unique(tiles@),
            forall|j: int| 0 <= j < i ==> !#[trigger] tile_at(tiles@[j], x as int, y as int),
        decreases tiles.len() - i,
    {
        if tiles[i].pos.x == x && tiles[i].pos.y == y {
            proof {
                lemma_value_at_index(tiles@, i as int);
            }
            return tiles[i].value;
        }
        i += 1;
    }
    0
}

/// Whether no two tiles share a cell.
pub fn has_unique_positions(tiles: &Vec<Tile>) -> (r: bool)
    ensures
        r == positions_unique(tiles@),
{
    let mut i: usize = 0;
    while i < tiles.len()
        invariant
            0 <= i <= tiles.len(),
            forall|a: int, b: int|
                0 <= a < i && 0 <= b < tiles.len() && a != b ==> tiles@[a].pos != tiles@[b].pos,
        decreases tiles.len() - i,
    {
        let mut j: usize = 0;
        while j < tiles.len()
            invariant
                0 <= i < tiles.len(),
                0 <= j <= tiles.len(),
                forall|a: int, b: int|
                    0 <= a < i && 0 <= b < tiles.len() && a != b ==> tiles@[a].pos
                        != tiles@[b].pos,
                forall|b: int| 0 <= b < j && b != i ==> tiles@[i as int].pos != tiles@[b].pos,
            decreases tiles.len() - j,
        {
            if j != i && tiles[i].pos == tiles[j].pos {
                return false;
            }
            j += 1;
        }
        i += 1;
    }
    true
}

impl Board {
    /// Side length of the board.
    pub open spec fn side(&self) -> int {
        self.size as int
    }

    /// A board has at least two cells on a side.
    pub open spec fn wf(&self) -> bool {
        self.size >= 2
    }

    /// Makes a board of side `size`; a side below two is refused.
    pub fn new(size: u8) -> (r: Result<Board, BoardError>)
        ensures
            size < 2 ==> r == Err::<Board, BoardError>(BoardError::InvalidBoardSize),
            size >= 2 ==> (r matches Ok(b) && b.side() == size && b.wf()),
    {
        if size < 2 {
            Err(BoardError::InvalidBoardSize)
        } else {
            Ok(Board { size })
        }
    }

    /// Side length of the board, in cells.
    pub fn size(&self) -> (r: u8)
        ensures
            r == self.side(),
    {
        self.size
    }

    /// Total extent of the board in layout units: the tiles and the gaps around them.
    pub fn dimension(&self) -> (r: u32)
        ensures
            r == self.side() * TILE_SIZE + (self.side() + 1) * TILE_SPACER,
    {
        self.size as u32 * TILE_SIZE + (self.size as u32 + 1) * TILE_SPACER
    }

    /// Layout coordinate of the centre of cell index `pos`, with the board
    /// centred on 0.
    pub fn cell_position_to_physical(&self, pos: u8) -> (r: i32)
        ensures
            2 * r == 2 * (pos * TILE_SIZE + (pos + 1) * TILE_SPACER) + TILE_SIZE - (self.side()
                * TILE_SIZE + (self.side() + 1) * TILE_SPACER),
    {
        let half_extent: i32 = (self.dimension() / 2) as i32;
        let p = pos as i32;
        let tile = TILE_SIZE as i32;
        let spacer = TILE_SPACER as i32;
        assert(p * tile == p * 40 && (p + 1) * spacer == (p + 1) * 10);
        p * tile + (p + 1) * spacer + tile / 2 - half_extent
    }
}

} // verus!
