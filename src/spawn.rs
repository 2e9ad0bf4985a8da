use vstd::prelude::*;
use itertools::Itertools;
use rand::seq::IteratorRandom;
use crate::board::{
    lemma_value_at_push, occupied, positions_unique, tile_at, Board,
    BoardError, Position, Tile,
};

verus! {

/// The cells of a board of side `n`, column by column: cell `i` is `(i / n, i % n)`.
pub open spec fn cell_order(n: int) -> Seq<(u8, u8)> {
    Seq::new((n * n) as nat, |i: int| ((i / n) as u8, (i % n) as u8))
}

/// The cells of `cells` that no tile stands on, in the same order.
pub open spec fn free_cells(tiles: Seq<Tile>, cells: Seq<(u8, u8)>) -> Seq<Position>
    decreases cells.len(),
{
    if cells.len() == 0 {
        Seq::empty()
    } else {
        let rest = free_cells(tiles, cells.drop_last());
        let c = cells.last();
        if occupied(tiles, c.0 as int, c.1 as int) {
            rest
        } else {
            rest.push(Position { x: c.0, y: c.1 })
        }
    }
}

/// The empty cells of a board of side `n`, in the order of `cell_order`.
pub open spec fn empty_cells_of(tiles: Seq<Tile>, n: int) -> Seq<Position> {
    free_cells(tiles, cell_order(n))
}

/// New tiles of value `value` on the given cells.
pub open spec fn tiles_on(cells: Seq<Position>, value: u32) -> Seq<Tile> {
    Seq::new(cells.len(), |i: int| Tile { pos: cells[i], value })
}

/// Relies on itertools' `Itertools::cartesian_product`: every pair of the
/// two ranges, the first component varying slowest.
#[verifier::external_body]
fn board_cells(size: u8) -> (r: Vec<(u8, u8)>)
    ensures
        r@ == cell_order(size as int),
{
    (0..size).cartesian_product(0..size).collect()
}

/// Relies on rand's `IteratorRandom::choose_multiple`, drawing from the
/// thread-local generator: `amount` items, or all of them where there are
/// fewer, each taken from a different place of the input.
#[verifier::external_body]
fn choose_cells(cells: Vec<Position>, amount: usize) -> (r: Vec<Position>)
    ensures
        r@.len() == if amount <= cells@.len() {
            amount as int
        } else {
            cells@.len() as int
        },
        forall|i: int| 0 <= i < r@.len() ==> cells@.contains(#[trigger] r@[i]),
        cells@.no_duplicates() ==> r@.no_duplicates(),
{
    cells.into_iter().choose_multiple(&mut rand::thread_rng(), amount)
}

proof fn lemma_cell_order(n: int)
    requires
        1 <= n <= 255,
    ensures
        cell_order(n).no_duplicates(),
        forall|i: int|
            0 <= i < cell_order(n).len() ==> (#[trigger] cell_order(n)[i]).0 < n && cell_order(
                n,
            )[i].1 < n,
{
    let s = cell_order(n);
    assert forall|i: int| 0 <= i < s.len() implies (#[trigger] s[i]).0 < n && s[i].1 < n
        && s[i].0 == i / n && s[i].1 == i % n by {
        vstd::arithmetic::div_mod::lemma_fundamental_div_mod(i, n);
        let q = i / n;
        let r = i % n;
        assert(0 <= r < n);
        assert(0 <= q) by (nonlinear_arith)
            requires
                i == n * q + r,
                0 <= i,
                r < n,
                n >= 1,
        ;
        assert(q < n) by (nonlinear_arith)
            requires
                i == n * q + r,
                i < n * n,
                0 <= r,
                n >= 1,
        ;
    }
    assert forall|i: int, j: int| 0 <= i < s.len() && 0 <= j < s.len() && i != j implies s[i]
        != s[j] by {
        vstd::arithmetic::div_mod::lemma_fundamental_div_mod(i, n);
        vstd::arithmetic::div_mod::lemma_fundamental_div_mod(j, n);
    }
}

proof fn lemma_free_cells(tiles: Seq<Tile>, cells: Seq<(u8, u8)>)
    ensures
        forall|j: int|
            0 <= j < free_cells(tiles, cells).len() ==> {
                let p = #[trigger] free_cells(tiles, cells)[j];
                &&& !occupied(tiles, p.x as int, p.y as int)
                &&& cells.contains((p.x, p.y))
            },
        cells.no_duplicates() ==> free_cells(tiles, cells).no_duplicates(),
    decreases cells.len(),
{
    if cells.len() > 0 {
        let prev = cells.drop_last();
        lemma_free_cells(tiles, prev);
        let rest = free_cells(tiles, prev);
        let c = cells.last();
        assert forall|j: int| 0 <= j < rest.len() implies cells.contains(
            (#[trigger] rest[j].x, rest[j].y),
        ) by {
            let k = choose|k: int| 0 <= k < prev.len() && prev[k] == (rest[j].x, rest[j].y);
            assert(cells[k] == prev[k]);
        }
        assert(cells[cells.len() - 1] == c);
        if cells.no_duplicates() && !occupied(tiles, c.0 as int, c.1 as int) {
            let f = rest.push(Position { x: c.0, y: c.1 });
            assert forall|i: int, j: int| 0 <= i < f.len() && 0 <= j < f.len() && i != j implies f[i]
                != f[j] by {
                if j == rest.len() && i < rest.len() {
                    let k = choose|k: int| 0 <= k < prev.len() && prev[k] == (rest[i].x, rest[i].y);
                    assert(cells[k] == prev[k]);
                }
                if i == rest.len() && j < rest.len() {
                    let k = choose|k: int| 0 <= k < prev.len() && prev[k] == (rest[j].x, rest[j].y);
                    assert(cells[k] == prev[k]);
                }
            }
        }
    }
}

/// On a board without tiles every cell is empty: a board of side `n` has
/// `n * n` of them, in the order of `cell_order`.
pub proof fn lemma_empty_board_cells(n: int)
    requires
        n >= 0,
    ensures
        empty_cells_of(Seq::empty(), n).len() == n * n,
{
    assert(n * n >= 0) by (nonlinear_arith)
        requires
            n >= 0,
    ;
    lemma_free_cells_of_nothing(cell_order(n));
}

proof fn lemma_free_cells_of_nothing(cells: Seq<(u8, u8)>)
    ensures
        free_cells(Seq::empty(), cells).len() == cells.len(),
    decreases cells.len(),
{
    if cells.len() > 0 {
        lemma_free_cells_of_nothing(cells.drop_last());
        let c = cells.last();
        assert(!occupied(Seq::<Tile>::empty(), c.0 as int, c.1 as int));
    }
}

/// The empty cells of the board, column by column.
pub fn empty_cells(board: &Board, tiles: &Vec<Tile>) -> (r: Vec<Position>)
    requires
        board.wf(),
    ensures
        r@ == empty_cells_of(tiles@, board.side()),
{
    let cells = board_cells(board.size);
    let mut r: Vec<Position> = Vec::new();
    let mut i: usize = 0;
    while i < cells.len()
        invariant
            0 <= i <= cells.len(),
            r@ == free_cells(tiles@, cells@.subrange(0, i as int)),
        decreases cells.len() - i,
    {
        proof {
            assert(cells@.subrange(0, i + 1).drop_last() =~= cells@.subrange(0, i as int));
        }
        let (x, y) = cells[i];
        if !has_tile_at(tiles, x, y) {
            r.push(Position { x, y });
        }
        i += 1;
    }
    proof {
        assert(cells@.subrange(0, cells@.len() as int) =~= cells@);
    }
    r
}

/// Whether some tile stands on cell `(x, y)`.
fn has_tile_at(tiles: &Vec<Tile>, x: u8, y: u8) -> (r: bool)
    ensures
        r == occupied(tiles@, x as int, y as int),
{
    let mut i: usize = 0;
    while i < tiles.len()
        invariant
            0 <= i <= tiles.len(),
            forall|j: int| 0 <= j < i ==> !#[trigger] tile_at(tiles@[j], x as int, y as int),
        decreases tiles.len() - i,
    {
        if tiles[i].pos.x == x && tiles[i].pos.y == y {
            assert(tile_at(tiles@[i as int], x as int, y as int));
            return true;
        }
        i += 1;
    }
    false
}

/// Appends one tile of value `value` on each of the given cells, which are
/// distinct and empty.
pub fn place_tiles(tiles: &mut Vec<Tile>, cells: &Vec<Position>, value: u32)
    requires
        positions_unique(old(tiles)@),
        cells@.no_duplicates(),
        forall|i: int|
            0 <= i < cells@.len() ==> !occupied(old(tiles)@, #[trigger] cells@[i].x as int, cells@[i].y as int),
    ensures
        final(tiles)@ == old(tiles)@ + tiles_on(cells@, value),
        positions_unique(final(tiles)@),
{
    let ghost start = tiles@;
    let mut i: usize = 0;
    while i < cells.len()
        invariant
            0 <= i <= cells.len(),
            cells@.no_duplicates(),
            forall|j: int|
                0 <= j < cells@.len() ==> !occupied(start, #[trigger] cells@[j].x as int, cells@[j].y as int),
            tiles@ == start + tiles_on(cells@.subrange(0, i as int), value),
            positions_unique(tiles@),
            forall|j: int|
                i <= j < cells@.len() ==> !occupied(tiles@, #[trigger] cells@[j].x as int, cells@[j].y as int),
        decreases cells.len() - i,
    {
        let t = Tile { pos: cells[i], value };
        proof {
            assert(!occupied(tiles@, cells@[i as int].x as int, cells@[i as int].y as int));
            assert forall|j: int| i + 1 <= j < cells@.len() implies !occupied(
                tiles@.push(t),
                #[trigger] cells@[j].x as int,
                cells@[j].y as int,
            ) by {
                lemma_value_at_push(tiles@, t, cells@[j].x as int, cells@[j].y as int);
                assert(cells@[j] != cells@[i as int]);
            }
            lemma_value_at_push(tiles@, t, 0, 0);
            assert(tiles_on(cells@.subrange(0, i + 1), value) =~= tiles_on(
                cells@.subrange(0, i as int),
                value,
            ).push(t));
        }
        tiles.push(t);
        i += 1;
    }
    proof {
        assert(cells@.subrange(0, cells@.len() as int) =~= cells@);
    }
}

/// Puts `amount` new tiles of value `value` on empty cells picked at random.
/// Where fewer cells are empty than `amount`, nothing is placed and
/// `SpawnOverflow` is returned.
pub fn spawn_tiles(board: &Board, tiles: &mut Vec<Tile>, amount: usize, value: u32) -> (r: Result<
    (),
    BoardError,
>)
    requires
        board.wf(),
        positions_unique(old(tiles)@),
    ensures
        amount > empty_cells_of(old(tiles)@, board.side()).len() ==> r == Err::<(), BoardError>(
            BoardError::SpawnOverflow,
        ) && final(tiles)@ == old(tiles)@,
        amount <= empty_cells_of(old(tiles)@, board.side()).len() ==> {
            &&& r is Ok
            &&& final(tiles)@.len() == old(tiles)@.len() + amount
            &&& final(tiles)@.subrange(0, old(tiles)@.len() as int) == old(tiles)@
            &&& positions_unique(final(tiles)@)
            &&& forall|i: int|
                old(tiles)@.len() <= i < final(tiles)@.len() ==> {
                    &&& (#[trigger] final(tiles)@[i]).value == value
                    &&& empty_cells_of(old(tiles)@, board.side()).contains(final(tiles)@[i].pos)
                    &&& final(tiles)@[i].pos.x < board.side()
                    &&& final(tiles)@[i].pos.y < board.side()
                    &&& !occupied(old(tiles)@, final(tiles)@[i].pos.x as int, final(tiles)@[i].pos.y as int)
                }
        },
{
    let free = empty_cells(board, tiles);
    if amount > free.len() {
        return Err(BoardError::SpawnOverflow);
    }
    let ghost n = board.side();
    let ghost start = tiles@;
    proof {
        lemma_cell_order(n);
        lemma_free_cells(tiles@, cell_order(n));
    }
    let chosen = choose_cells(free, amount);
    proof {
        assert forall|i: int| 0 <= i < chosen@.len() implies !occupied(
            tiles@,
            #[trigger] chosen@[i].x as int,
            chosen@[i].y as int,
        ) by {
            assert(empty_cells_of(start, n).contains(chosen@[i]));
        }
    }
    place_tiles(tiles, &chosen, value);
    proof {
        assert(tiles@.subrange(0, start.len() as int) =~= start);
        assert forall|i: int| start.len() <= i < tiles@.len() implies {
            &&& (#[trigger] tiles@[i]).value == value
            &&& empty_cells_of(start, n).contains(tiles@[i].pos)
            &&& tiles@[i].pos.x < n
            &&& tiles@[i].pos.y < n
            &&& !occupied(start, tiles@[i].pos.x as int, tiles@[i].pos.y as int)
        } by {
            let p = chosen@[i - start.len()];
            assert(tiles@[i].pos == p);
            assert(empty_cells_of(start, n).contains(p));
            let k = choose|k: int| 0 <= k < empty_cells_of(start, n).len() && empty_cells_of(start, n)[k] == p;
            let fp = empty_cells_of(start, n)[k];
            assert(cell_order(n).contains((fp.x, fp.y)));
        }
    }
    Ok(())
}

} // verus!
