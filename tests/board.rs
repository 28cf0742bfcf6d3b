use std::collections::HashSet;

use board_plugin::{
    handle_discover_event, handle_input, BombExplosionEvent, Board, Coordinates, TileDiscoverEvent, TileMap,
    TileMarkEvent,
};

fn at(x: u16, y: u16) -> Coordinates {
    Coordinates { x, y }
}

fn board_with(width: u16, height: u16, bombs: &[(u16, u16)]) -> Board {
    let mut map = TileMap::empty(width, height);
    let bombs: Vec<Coordinates> = bombs.iter().map(|&(x, y)| at(x, y)).collect();
    map.place_bombs(&bombs);
    Board::new(map)
}

fn set_of(cells: &[Coordinates]) -> HashSet<Coordinates> {
    cells.iter().copied().collect()
}

fn discovered(board: &Board) -> HashSet<Coordinates> {
    let mut r = HashSet::new();
    for y in 0..board.tile_map.height {
        for x in 0..board.tile_map.width {
            if board.is_discovered_at(&at(x, y)) {
                r.insert(at(x, y));
            }
        }
    }
    r
}

fn flagged(board: &Board) -> HashSet<Coordinates> {
    let mut r = HashSet::new();
    for y in 0..board.tile_map.height {
        for x in 0..board.tile_map.width {
            if board.is_flag_at(&at(x, y)) {
                r.insert(at(x, y));
            }
        }
    }
    r
}

#[test]
fn one_cell_no_mine() {
    let mut board = board_with(1, 1, &[]);
    assert!(!board.is_completed());
    let r = board.flood_discovery(at(0, 0));
    assert_eq!(r, vec![at(0, 0)]);
    assert_eq!(discovered(&board), set_of(&[at(0, 0)]));
    assert!(board.is_completed());
}

#[test]
fn numbered_cell_stops_the_flood() {
    // 3x3 with the mine in the centre: every other cell shows 1, so a reveal of
    // (0, 0) discovers that cell alone.
    let mut board = board_with(3, 3, &[(1, 1)]);
    for y in 0..3u16 {
        for x in 0..3u16 {
            if (x, y) != (1, 1) {
                assert_eq!(board.tile_map.bomb_count_at(at(x, y)), 1);
            }
        }
    }
    let r = board.flood_discovery(at(0, 0));
    assert_eq!(r, vec![at(0, 0)]);
    assert_eq!(discovered(&board), set_of(&[at(0, 0)]));
    let mut all = Vec::new();
    for y in 0..3u16 {
        for x in 0..3u16 {
            if (x, y) != (1, 1) {
                all.extend(board.flood_discovery(at(x, y)));
            }
        }
    }
    assert_eq!(all.len(), 8);
    assert!(board.is_completed());
}

#[test]
fn interior_empty_cell_floods_region() {
    let mut board = board_with(5, 5, &[(0, 0), (4, 4)]);
    let r = board.flood_discovery(at(2, 2));
    let got = set_of(&r);
    assert_eq!(r.len(), got.len());
    assert_eq!(got.len(), 23);
    assert!(!got.contains(&at(0, 0)));
    assert!(!got.contains(&at(4, 4)));
    assert!(got.contains(&at(2, 2)));
    assert!(got.contains(&at(1, 1)));
    assert!(got.contains(&at(3, 3)));
    assert_eq!(discovered(&board), got);
    assert!(board.is_completed());
}

#[test]
fn flag_then_reveal_does_nothing() {
    let mut board = board_with(5, 5, &[(0, 0), (4, 4)]);
    assert!(board.try_toggle_mark(at(2, 2)));
    let before = discovered(&board);
    let r = board.flood_discovery(at(2, 2));
    assert!(r.is_empty());
    assert_eq!(discovered(&board), before);
    assert!(board.is_flag_at(&at(2, 2)));
}

#[test]
fn empty_grid_reveals_everything() {
    for &(sx, sy) in &[(0u16, 0u16), (3, 2), (1, 1), (3, 0)] {
        let mut board = board_with(4, 3, &[]);
        let r = board.flood_discovery(at(sx, sy));
        assert_eq!(r.len(), 12);
        assert_eq!(set_of(&r).len(), 12);
        assert!(board.is_completed());
    }
}

#[test]
fn flag_blocks_the_flood() {
    // One row, no mines: the flag in the middle keeps the two halves apart.
    let mut board = board_with(5, 1, &[]);
    assert!(board.try_toggle_mark(at(2, 0)));
    let left = board.flood_discovery(at(0, 0));
    assert_eq!(set_of(&left), set_of(&[at(0, 0), at(1, 0)]));
    let right = board.flood_discovery(at(4, 0));
    assert_eq!(set_of(&right), set_of(&[at(3, 0), at(4, 0)]));
    assert!(!board.is_discovered_at(&at(2, 0)));
    assert!(!board.is_completed());
}

#[test]
fn flagged_wall_keeps_regions_apart() {
    // A flagged column across a 5x3 board without mines.
    let mut board = board_with(5, 3, &[]);
    for y in 0..3 {
        assert!(board.try_toggle_mark(at(2, y)));
    }
    let r = board.flood_discovery(at(0, 1));
    let got = set_of(&r);
    assert_eq!(got.len(), 6);
    assert!(got.iter().all(|c| c.x < 2));
}

#[test]
fn toggle_on_discovered_cell_is_rejected() {
    let mut board = board_with(3, 3, &[(1, 1)]);
    board.flood_discovery(at(0, 0));
    let before = flagged(&board);
    assert!(!board.try_toggle_mark(at(0, 0)));
    assert_eq!(flagged(&board), before);
    assert!(!board.is_flag_at(&at(0, 0)));
}

#[test]
fn toggle_flips_flag() {
    let mut board = board_with(3, 3, &[(1, 1)]);
    assert!(board.try_toggle_mark(at(1, 1)));
    assert!(board.is_flag_at(&at(1, 1)));
    assert!(!board.try_toggle_mark(at(1, 1)));
    assert!(!board.is_flag_at(&at(1, 1)));
    assert!(!board.try_toggle_mark(at(3, 0)));
    assert!(flagged(&board).is_empty());
}

#[test]
fn reveal_twice_is_idempotent() {
    let mut board = board_with(5, 5, &[(0, 0), (4, 4)]);
    board.try_toggle_mark(at(0, 4));
    let first = board.flood_discovery(at(2, 0));
    let after_first = discovered(&board);
    let second = board.flood_discovery(at(2, 0));
    assert_eq!(set_of(&first), set_of(&second));
    assert_eq!(discovered(&board), after_first);
    let again = board.flood_discovery(at(0, 1));
    assert_eq!(again, vec![at(0, 1)]);
    assert_eq!(discovered(&board), after_first);
}

#[test]
fn discovered_and_flagged_stay_disjoint() {
    let mut board = board_with(4, 4, &[(3, 3)]);
    board.try_toggle_mark(at(1, 1));
    board.try_toggle_mark(at(3, 3));
    board.flood_discovery(at(0, 0));
    board.try_toggle_mark(at(0, 0));
    board.try_toggle_mark(at(1, 1));
    board.flood_discovery(at(1, 1));
    board.try_toggle_mark(at(1, 1));
    let d = discovered(&board);
    let f = flagged(&board);
    assert!(d.is_disjoint(&f));
    assert!(f.contains(&at(3, 3)));
    assert!(d.contains(&at(1, 1)));
}

#[test]
fn revealing_a_mine_loses() {
    let mut board = board_with(2, 1, &[(0, 0)]);
    assert_eq!(board.flood_discovery(at(0, 0)), vec![at(0, 0)]);
    assert!(board.bomb_discovered);
    board.flood_discovery(at(1, 0));
    assert!(!board.is_completed());
}

#[test]
fn reveal_outside_grid_is_neutral() {
    let mut board = board_with(2, 2, &[]);
    assert!(board.flood_discovery(at(2, 0)).is_empty());
    assert!(discovered(&board).is_empty());
}

#[test]
fn completion_counts_non_mine_cells() {
    let mut board = board_with(3, 1, &[(2, 0)]);
    board.flood_discovery(at(0, 0));
    assert_eq!(discovered(&board), set_of(&[at(0, 0), at(1, 0)]));
    assert!(board.is_completed());
}

#[test]
fn input_turns_into_requests() {
    let board = board_with(2, 2, &[]);
    assert_eq!(
        handle_input(&board, Some(at(1, 1)), true, false),
        (Some(TileDiscoverEvent(at(1, 1))), None)
    );
    assert_eq!(
        handle_input(&board, Some(at(0, 1)), false, true),
        (None, Some(TileMarkEvent(at(0, 1))))
    );
    assert_eq!(handle_input(&board, Some(at(2, 1)), true, true), (None, None));
    assert_eq!(handle_input(&board, None, true, true), (None, None));
}

#[test]
fn discover_event_reports_explosion() {
    let mut board = board_with(3, 3, &[(1, 1)]);
    let (cells, boom) = handle_discover_event(&mut board, TileDiscoverEvent(at(1, 1)));
    assert_eq!(cells, vec![at(1, 1)]);
    assert_eq!(boom, Some(BombExplosionEvent));
    let (cells, boom) = handle_discover_event(&mut board, TileDiscoverEvent(at(0, 0)));
    assert_eq!(cells, vec![at(0, 0)]);
    assert_eq!(boom, None);
}

#[test]
fn flagged_mine_does_not_explode() {
    let mut board = board_with(3, 3, &[(1, 1)]);
    board.try_toggle_mark(at(1, 1));
    let (cells, boom) = handle_discover_event(&mut board, TileDiscoverEvent(at(1, 1)));
    assert!(cells.is_empty());
    assert_eq!(boom, None);
    assert!(!board.bomb_discovered);
}
