use tile_slide::board::{has_unique_positions, value_at_cell, Board, BoardError, Position, Tile};
use tile_slide::game::{new_game, play_turn, GameConfig};
use tile_slide::lane::slide_lane;
use tile_slide::shift::{shift, Direction, ShiftOutcome};
use tile_slide::spawn::{empty_cells, place_tiles, spawn_tiles};
use tile_slide::terminal::{game_status, has_won, is_lost, GameStatus};

fn tiles_of(cells: &[(u8, u8, u32)]) -> Vec<Tile> {
    cells.iter().map(|&(x, y, v)| Tile::new(x, y, v)).collect()
}

fn board(size: u8) -> Board {
    Board::new(size).unwrap()
}

fn grid(size: u8, tiles: &Vec<Tile>) -> Vec<Vec<u32>> {
    (0..size)
        .map(|y| (0..size).map(|x| value_at_cell(tiles, x, y)).collect())
        .collect()
}

fn total(tiles: &Vec<Tile>) -> u64 {
    tiles.iter().map(|t| t.value as u64).sum()
}

fn do_shift(size: u8, tiles: &Vec<Tile>, d: Direction) -> ShiftOutcome {
    shift(&board(size), tiles, d).unwrap()
}

#[test]
fn two_equal_tiles_merge_left() {
    let tiles = tiles_of(&[(0, 0, 2), (1, 0, 2)]);
    let o = do_shift(2, &tiles, Direction::Left);
    assert_eq!(o.tiles, vec![Tile::new(0, 0, 4)]);
    assert!(o.moved);
    assert_eq!(o.merges.len(), 1);
    assert_eq!(o.merges[0].value, 4);
    assert_eq!(o.merges[0].pos, Position::new(0, 0));
}

#[test]
fn different_tiles_do_not_merge() {
    let tiles = tiles_of(&[(0, 0, 2), (1, 0, 4)]);
    let o = do_shift(2, &tiles, Direction::Left);
    assert_eq!(grid(2, &o.tiles), grid(2, &tiles));
    assert_eq!(o.tiles.len(), 2);
    assert!(o.merges.is_empty());
    assert!(!o.moved);
}

#[test]
fn three_equal_tiles_merge_leftmost_pair() {
    let tiles = tiles_of(&[(0, 0, 2), (1, 0, 2), (2, 0, 2)]);
    let o = do_shift(4, &tiles, Direction::Left);
    assert_eq!(value_at_cell(&o.tiles, 0, 0), 4);
    assert_eq!(value_at_cell(&o.tiles, 1, 0), 2);
    assert_eq!(value_at_cell(&o.tiles, 2, 0), 0);
    assert_eq!(value_at_cell(&o.tiles, 3, 0), 0);
    assert_eq!(o.tiles.len(), 2);
    assert_eq!(o.merges.len(), 1);
    assert!(o.moved);
}

#[test]
fn merged_cell_does_not_merge_again() {
    assert_eq!(slide_lane(&vec![2, 2, 4, 0]), (vec![4, 4], vec![true, false]));
    assert_eq!(slide_lane(&vec![2, 2, 2, 2]), (vec![4, 4], vec![true, true]));
    assert_eq!(slide_lane(&vec![4, 0, 4, 8]), (vec![8, 8], vec![true, false]));
    assert_eq!(slide_lane(&vec![0, 0, 0, 2]), (vec![2], vec![false]));
    assert_eq!(slide_lane(&vec![]), (vec![], vec![]));
}

#[test]
fn shift_right_up_and_down() {
    let tiles = tiles_of(&[(0, 1, 2), (1, 1, 2), (3, 1, 8), (2, 0, 16), (2, 3, 16)]);
    let right = do_shift(4, &tiles, Direction::Right);
    assert_eq!(value_at_cell(&right.tiles, 3, 1), 8);
    assert_eq!(value_at_cell(&right.tiles, 2, 1), 4);
    assert_eq!(value_at_cell(&right.tiles, 3, 0), 16);
    assert_eq!(value_at_cell(&right.tiles, 3, 3), 16);
    assert_eq!(right.tiles.len(), 4);

    let up = do_shift(4, &tiles, Direction::Up);
    assert_eq!(value_at_cell(&up.tiles, 2, 3), 32);
    assert_eq!(value_at_cell(&up.tiles, 0, 3), 2);
    assert_eq!(value_at_cell(&up.tiles, 1, 3), 2);
    assert_eq!(value_at_cell(&up.tiles, 3, 3), 8);
    assert_eq!(up.merges.len(), 1);
    assert_eq!(up.merges[0].pos, Position::new(2, 3));

    let down = do_shift(4, &tiles, Direction::Down);
    assert_eq!(value_at_cell(&down.tiles, 2, 0), 32);
    assert_eq!(value_at_cell(&down.tiles, 0, 0), 2);
    assert_eq!(value_at_cell(&down.tiles, 3, 0), 8);
}

#[test]
fn packed_board_shift_is_noop() {
    let tiles = tiles_of(&[(0, 0, 2), (1, 0, 4), (2, 0, 8), (0, 1, 16), (0, 2, 2), (1, 2, 8)]);
    let o = do_shift(4, &tiles, Direction::Left);
    assert!(!o.moved);
    assert!(o.merges.is_empty());
    assert_eq!(grid(4, &o.tiles), grid(4, &tiles));
    let again = do_shift(4, &o.tiles, Direction::Left);
    assert_eq!(again.tiles, o.tiles);
}

#[test]
fn shift_keeps_total_value() {
    let tiles = tiles_of(&[(0, 0, 2), (1, 0, 2), (2, 0, 4), (3, 0, 4), (1, 1, 8), (3, 1, 8)]);
    for d in [Direction::Left, Direction::Right, Direction::Up, Direction::Down] {
        let o = do_shift(4, &tiles, d);
        assert_eq!(total(&o.tiles), total(&tiles));
        let merged: u64 = o.merges.iter().map(|m| m.value as u64).sum();
        assert_eq!(o.tiles.len() + o.merges.len(), tiles.len());
        assert_eq!(merged % 2, 0);
    }
    let o = do_shift(4, &tiles, Direction::Left);
    assert_eq!(grid(4, &o.tiles)[0], vec![4, 8, 0, 0]);
    assert_eq!(grid(4, &o.tiles)[1], vec![16, 0, 0, 0]);
}

#[test]
fn shift_keeps_single_occupancy() {
    let tiles = tiles_of(&[(0, 0, 2), (1, 0, 2), (2, 0, 2), (3, 0, 2), (0, 3, 4), (3, 3, 4)]);
    for d in [Direction::Left, Direction::Right, Direction::Up, Direction::Down] {
        let o = do_shift(4, &tiles, d);
        assert!(has_unique_positions(&o.tiles));
        assert!(o.tiles.iter().all(|t| t.pos.x < 4 && t.pos.y < 4));
    }
}

#[test]
fn duplicate_positions_are_refused() {
    let tiles = tiles_of(&[(0, 0, 2), (0, 0, 4)]);
    assert!(matches!(shift(&board(2), &tiles, Direction::Left), Err(BoardError::DuplicatePosition)));
    assert!(!has_unique_positions(&tiles));
}

#[test]
fn board_size_below_two_is_refused() {
    assert_eq!(Board::new(1), Err(BoardError::InvalidBoardSize));
    assert_eq!(Board::new(0), Err(BoardError::InvalidBoardSize));
    assert_eq!(Board::new(2).unwrap().size(), 2);
}

#[test]
fn board_layout() {
    let b = board(4);
    assert_eq!(b.dimension(), 210);
    assert_eq!(b.cell_position_to_physical(0), -75);
    assert_eq!(b.cell_position_to_physical(1), -25);
    assert_eq!(b.cell_position_to_physical(2), 25);
    assert_eq!(b.cell_position_to_physical(3), 75);
    let b3 = board(3);
    assert_eq!(b3.dimension(), 160);
    assert_eq!(b3.cell_position_to_physical(1), 0);
}

#[test]
fn keys_map_to_directions() {
    assert_eq!(Direction::from_key('w'), Some(Direction::Up));
    assert_eq!(Direction::from_key('A'), Some(Direction::Left));
    assert_eq!(Direction::from_key('s'), Some(Direction::Down));
    assert_eq!(Direction::from_key('d'), Some(Direction::Right));
    assert_eq!(Direction::from_key('q'), None);
}

#[test]
fn full_board_without_pairs_is_lost() {
    let tiles = tiles_of(&[(0, 0, 2), (1, 0, 4), (0, 1, 4), (1, 1, 2)]);
    assert!(is_lost(&board(2), &tiles));
    assert_eq!(game_status(&board(2), &tiles, 2048), GameStatus::Lost);
}

#[test]
fn full_board_with_equal_neighbours_is_not_lost() {
    let tiles = tiles_of(&[(0, 0, 2), (1, 0, 2), (0, 1, 4), (1, 1, 8)]);
    assert!(!is_lost(&board(2), &tiles));
    let vertical = tiles_of(&[(0, 0, 2), (1, 0, 4), (0, 1, 2), (1, 1, 8)]);
    assert!(!is_lost(&board(2), &vertical));
    assert_eq!(game_status(&board(2), &vertical, 2048), GameStatus::InProgress);
}

#[test]
fn board_with_empty_cell_is_not_lost() {
    let tiles = tiles_of(&[(0, 0, 2), (1, 0, 4), (0, 1, 4)]);
    assert!(!is_lost(&board(2), &tiles));
}

#[test]
fn merge_reaching_target_wins() {
    let tiles = tiles_of(&[(2, 1, 1024), (3, 1, 1024)]);
    assert!(!has_won(&tiles, 2048));
    let o = do_shift(4, &tiles, Direction::Left);
    assert_eq!(o.merges[0].value, 2048);
    assert!(has_won(&o.tiles, 2048));
    assert_eq!(game_status(&board(4), &o.tiles, 2048), GameStatus::Won);
}

#[test]
fn empty_cells_in_column_order() {
    let tiles = tiles_of(&[(0, 1, 2), (1, 0, 4)]);
    let cells = empty_cells(&board(2), &tiles);
    assert_eq!(cells, vec![Position::new(0, 0), Position::new(1, 1)]);
    assert_eq!(empty_cells(&board(2), &vec![]).len(), 4);
    assert_eq!(
        empty_cells(&board(2), &vec![]),
        vec![Position::new(0, 0), Position::new(0, 1), Position::new(1, 0), Position::new(1, 1)]
    );
}

#[test]
fn spawn_fills_empty_cells() {
    let b = board(3);
    let mut tiles = tiles_of(&[(0, 0, 2), (1, 1, 8)]);
    assert_eq!(spawn_tiles(&b, &mut tiles, 3, 2), Ok(()));
    assert_eq!(tiles.len(), 5);
    assert!(has_unique_positions(&tiles));
    assert_eq!(&tiles[..2], &tiles_of(&[(0, 0, 2), (1, 1, 8)])[..]);
    assert!(tiles[2..].iter().all(|t| t.value == 2 && t.pos.x < 3 && t.pos.y < 3));
    assert_eq!(spawn_tiles(&b, &mut tiles, 4, 2), Ok(()));
    assert_eq!(tiles.len(), 9);
    assert!(has_unique_positions(&tiles));
    assert!(empty_cells(&b, &tiles).is_empty());
}

#[test]
fn spawn_overflow_leaves_tiles() {
    let b = board(2);
    let mut tiles = tiles_of(&[(0, 0, 2), (1, 0, 4), (0, 1, 8)]);
    assert_eq!(spawn_tiles(&b, &mut tiles, 2, 2), Err(BoardError::SpawnOverflow));
    assert_eq!(tiles.len(), 3);
    assert_eq!(spawn_tiles(&b, &mut tiles, 0, 2), Ok(()));
    assert_eq!(tiles.len(), 3);
    assert_eq!(spawn_tiles(&b, &mut tiles, 1, 2), Ok(()));
    assert_eq!(value_at_cell(&tiles, 1, 1), 2);
}

#[test]
fn place_tiles_appends() {
    let mut tiles = tiles_of(&[(0, 0, 2)]);
    place_tiles(&mut tiles, &vec![Position::new(1, 0), Position::new(1, 1)], 2);
    assert_eq!(tiles, tiles_of(&[(0, 0, 2), (1, 0, 2), (1, 1, 2)]));
}

#[test]
fn new_game_places_initial_tiles() {
    let b = board(4);
    let config = GameConfig::default();
    let tiles = new_game(&b, &config).unwrap();
    assert_eq!(tiles.len(), 2);
    assert!(has_unique_positions(&tiles));
    assert!(tiles.iter().all(|t| t.value == 2));
    let crowded = GameConfig { spawn_count_initial: 5, ..config };
    assert!(matches!(new_game(&board(2), &crowded), Err(BoardError::SpawnOverflow)));
}

#[test]
fn turn_spawns_only_after_movement() {
    let b = board(4);
    let config = GameConfig::default();
    let mut tiles = tiles_of(&[(0, 0, 2), (1, 0, 4)]);
    let report = play_turn(&b, &mut tiles, Direction::Left, &config).unwrap();
    assert!(!report.moved);
    assert_eq!(tiles, tiles_of(&[(0, 0, 2), (1, 0, 4)]));
    assert_eq!(report.status, GameStatus::InProgress);

    let report = play_turn(&b, &mut tiles, Direction::Right, &config).unwrap();
    assert!(report.moved);
    assert_eq!(tiles.len(), 3);
    assert_eq!(value_at_cell(&tiles, 3, 0), 4);
    assert_eq!(value_at_cell(&tiles, 2, 0), 2);
    assert!(has_unique_positions(&tiles));
}

#[test]
fn turn_reports_win() {
    let b = board(4);
    let config = GameConfig::default();
    let mut tiles = tiles_of(&[(0, 3, 1024), (0, 0, 1024)]);
    let report = play_turn(&b, &mut tiles, Direction::Down, &config).unwrap();
    assert_eq!(report.status, GameStatus::Won);
    assert_eq!(report.merges.len(), 1);
    assert_eq!(value_at_cell(&tiles, 0, 0), 2048);
}

#[test]
fn turn_refuses_duplicates() {
    let mut tiles = tiles_of(&[(1, 1, 2), (1, 1, 2)]);
    let r = play_turn(&board(4), &mut tiles, Direction::Up, &GameConfig::default());
    assert!(matches!(r, Err(BoardError::DuplicatePosition)));
    assert_eq!(tiles.len(), 2);
}

#[test]
fn merged_values_stay_powers_of_two() {
    let tiles = tiles_of(&[(0, 0, 2), (1, 0, 2), (2, 0, 4), (3, 0, 8), (0, 1, 64), (0, 2, 64)]);
    for d in [Direction::Left, Direction::Right, Direction::Up, Direction::Down] {
        let o = do_shift(4, &tiles, d);
        assert!(o.tiles.iter().all(|t| t.value >= 2 && t.value.is_power_of_two()));
    }
}
