use vstd::prelude::*;
use crate::board::{
    positions_unique, tiles_wf, tiles_within, values_positive, Board, BoardError, Tile,
    DEFAULT_WIN_VALUE, INITIAL_TILE_VALUE,
};
use crate::shift::{is_shift_of, shift, values_mergeable, Direction, MergeEvent, ShiftOutcome};
use crate::spawn::{empty_cells_of, lemma_empty_board_cells, spawn_tiles};
use crate::terminal::{game_status, status_of, GameStatus};

verus! {

/// The settings a game runs with.
#[derive(Clone, Copy, Debug, PartialEq, Eq, Structural)]
pub struct GameConfig {
    /// A tile worth this much wins.
    pub win_value: u32,
    /// Tiles placed on the empty board at the start.
    pub spawn_count_initial: usize,
    /// Tiles placed after each move that changed the board.
    pub spawn_count_per_turn: usize,
    /// Value of every spawned tile.
    pub initial_tile_value: u32,
}

impl Default for GameConfig {
    fn default() -> (r: GameConfig)
        ensures
            r.win_value == DEFAULT_WIN_VALUE,
            r.spawn_count_initial == 2,
            r.spawn_count_per_turn == 1,
            r.initial_tile_value == INITIAL_TILE_VALUE,
    {
        GameConfig {
            win_value: DEFAULT_WIN_VALUE,
            spawn_count_initial: 2,
            spawn_count_per_turn: 1,
            initial_tile_value: INITIAL_TILE_VALUE,
        }
    }
}

/// What one turn did: the merges of its shift, whether the shift changed
/// the board, and where the game stands afterwards.
#[derive(Debug)]
pub struct TurnReport {
    pub merges: Vec<MergeEvent>,
    pub moved: bool,
    pub status: GameStatus,
}

/// `after` is `shifted` with `count` new tiles of value `value` appended on
/// cells that were empty, or `shifted` itself where too few cells were
/// empty.
pub open spec fn spawned_after(
    shifted: Seq<Tile>,
    after: Seq<Tile>,
    n: int,
    count: int,
    value: u32,
) -> bool {
    if count > empty_cells_of(shifted, n).len() {
        after == shifted
    } else {
        &&& after.len() == shifted.len() + count
        &&& after.subrange(0, shifted.len() as int) == shifted
        &&& forall|i: int|
            shifted.len() <= i < after.len() ==> {
                &&& (#[trigger] after[i]).value == value
                &&& empty_cells_of(shifted, n).contains(after[i].pos)
            }
    }
}

/// Plays one turn: shifts toward `d`; where that changed the board, spawns
/// `spawn_count_per_turn` tiles on empty cells (none where too few are
/// empty); then reports the state of the game. Tiles that share a cell are
/// refused and left as they are.
pub fn play_turn(board: &Board, tiles: &mut Vec<Tile>, d: Direction, config: &GameConfig) -> (r:
    Result<TurnReport, BoardError>)
    requires
        board.wf(),
        tiles_within(old(tiles)@, board.side()),
        values_positive(old(tiles)@),
        values_mergeable(old(tiles)@),
        config.initial_tile_value >= 1,
    ensures
        !positions_unique(old(tiles)@) ==> r == Err::<TurnReport, BoardError>(
            BoardError::DuplicatePosition,
        ) && final(tiles)@ == old(tiles)@,
        positions_unique(old(tiles)@) ==> (r matches Ok(rep) && exists|o: ShiftOutcome|
            {
                &&& #[trigger] is_shift_of(o, old(tiles)@, board.side(), d)
                &&& rep.moved == o.moved
                &&& rep.merges@ == o.merges@
                &&& !o.moved ==> final(tiles)@ == o.tiles@
                &&& o.moved ==> spawned_after(
                    o.tiles@,
                    final(tiles)@,
                    board.side(),
                    config.spawn_count_per_turn as int,
                    config.initial_tile_value,
                )
            } && tiles_wf(final(tiles)@, board.side()) && rep.status == status_of(
            final(tiles)@,
            board.side(),
            config.win_value,
        )),
{
    let outcome = match shift(board, tiles, d) {
        Ok(o) => o,
        Err(e) => {
            return Err(e);
        },
    };
    let ghost o = outcome;
    let ghost n = board.side();
    let ShiftOutcome { tiles: mut next, merges, moved } = outcome;
    if moved {
        let _ = spawn_tiles(board, &mut next, config.spawn_count_per_turn, config.initial_tile_value);
        proof {
            if config.spawn_count_per_turn as int <= empty_cells_of(o.tiles@, n).len() {
                assert forall|i: int| 0 <= i < next@.len() implies next@[i].value >= 1
                    && next@[i].pos.x < n && next@[i].pos.y < n by {
                    if i < o.tiles@.len() {
                        assert(next@[i] == next@.subrange(0, o.tiles@.len() as int)[i]);
                    }
                }
            }
        }
    }
    let status = game_status(board, &next, config.win_value);
    *tiles = next;
    Ok(TurnReport { merges, moved, status })
}

/// Starts a game: the board empty but for `spawn_count_initial` tiles of
/// the initial value on random cells. Asking for more tiles than the board
/// has cells gives `SpawnOverflow`.
pub fn new_game(board: &Board, config: &GameConfig) -> (r: Result<Vec<Tile>, BoardError>)
    requires
        board.wf(),
    ensures
        config.spawn_count_initial > board.side() * board.side() ==> r == Err::<
            Vec<Tile>,
            BoardError,
        >(BoardError::SpawnOverflow),
        config.spawn_count_initial <= board.side() * board.side() ==> (
        r matches Ok(t) && positions_unique(t@) && spawned_after(
            Seq::empty(),
            t@,
            board.side(),
            config.spawn_count_initial as int,
            config.initial_tile_value,
        )),
{
    let mut tiles: Vec<Tile> = Vec::new();
    proof {
        lemma_empty_board_cells(board.side());
    }
    match spawn_tiles(board, &mut tiles, config.spawn_count_initial, config.initial_tile_value) {
        Ok(()) => Ok(tiles),
        Err(e) => Err(e),
    }
}

} // verus!
