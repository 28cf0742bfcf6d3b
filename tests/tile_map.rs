use board_plugin::{Coordinates, GenerationError, Tile, TileMap};

fn at(x: u16, y: u16) -> Coordinates {
    Coordinates { x, y }
}

fn map_with(width: u16, height: u16, bombs: &[(u16, u16)]) -> TileMap {
    let mut map = TileMap::empty(width, height);
    let bombs: Vec<Coordinates> = bombs.iter().map(|&(x, y)| at(x, y)).collect();
    map.place_bombs(&bombs);
    map
}

#[test]
fn empty_map_has_no_bombs() {
    let map = TileMap::empty(4, 3);
    assert_eq!(map.width, 4);
    assert_eq!(map.height, 3);
    assert_eq!(map.bomb_count, 0);
    for y in 0..3 {
        for x in 0..4 {
            assert!(map.is_empty_at(at(x, y)));
            assert!(!map.is_bomb_at(at(x, y)));
            assert_eq!(map.bomb_count_at(at(x, y)), 0);
        }
    }
}

#[test]
fn queries_outside_the_grid_are_neutral() {
    let map = map_with(2, 2, &[(0, 0)]);
    assert!(!map.is_bomb_at(at(2, 0)));
    assert!(!map.is_empty_at(at(0, 2)));
    assert!(!map.is_bomb_at(at(65535, 65535)));
    assert_eq!(map.bomb_count_at(at(2, 1)), 0);
    assert_eq!(map.bomb_count_at(at(1, 1)), 1);
}

#[test]
fn neighbors_of_corner_skip_underflow() {
    let map = TileMap::empty(3, 3);
    assert_eq!(map.get_neighbor_coordinates(at(0, 0)), vec![at(1, 0), at(0, 1), at(1, 1)]);
}

#[test]
fn neighbors_in_fixed_order() {
    let map = TileMap::empty(3, 3);
    assert_eq!(
        map.get_neighbor_coordinates(at(1, 1)),
        vec![at(0, 0), at(1, 0), at(2, 0), at(0, 1), at(2, 1), at(0, 2), at(1, 2), at(2, 2)]
    );
}

#[test]
fn neighbors_at_u16_limit_skip_overflow() {
    let map = TileMap::empty(3, 3);
    assert_eq!(
        map.get_neighbor_coordinates(at(65535, 65535)),
        vec![at(65534, 65534), at(65535, 65534), at(65534, 65535)]
    );
}

#[test]
fn offset_is_checked() {
    assert_eq!(at(0, 0).offset(-1, 0), None);
    assert_eq!(at(0, 0).offset(0, -1), None);
    assert_eq!(at(65535, 0).offset(1, 0), None);
    assert_eq!(at(2, 3).offset(1, -1), Some(at(3, 2)));
    assert_eq!(at(2, 3).key(), 3 * 65536 + 2);
}

#[test]
fn center_mine_counts_one_everywhere() {
    let map = map_with(3, 3, &[(1, 1)]);
    assert_eq!(map.bomb_count, 1);
    assert!(map.is_bomb_at(at(1, 1)));
    for y in 0..3 {
        for x in 0..3 {
            if (x, y) != (1, 1) {
                assert_eq!(map.bomb_count_at(at(x, y)), 1);
                assert_eq!(map.map[y as usize][x as usize], Tile::BombNeighbor(1));
                assert!(!map.is_empty_at(at(x, y)));
            }
        }
    }
}

#[test]
fn counts_after_all_bombs_placed() {
    // Mines in a row: the middle of the row above sees all three.
    let map = map_with(3, 2, &[(0, 0), (1, 0), (2, 0)]);
    assert_eq!(map.bomb_count, 3);
    assert_eq!(map.bomb_count_at(at(0, 1)), 2);
    assert_eq!(map.bomb_count_at(at(1, 1)), 3);
    assert_eq!(map.bomb_count_at(at(2, 1)), 2);
    assert_eq!(map.map[1][1], Tile::BombNeighbor(3));
}

#[test]
fn eight_mines_around_one_cell() {
    let ring = [(0, 0), (1, 0), (2, 0), (0, 1), (2, 1), (0, 2), (1, 2), (2, 2)];
    let map = map_with(3, 3, &ring);
    assert_eq!(map.bomb_count, 8);
    assert_eq!(map.map[1][1], Tile::BombNeighbor(8));
}

#[test]
fn duplicate_and_outside_bombs_are_ignored() {
    let map = map_with(2, 2, &[(0, 0), (0, 0), (5, 5)]);
    assert_eq!(map.bomb_count, 1);
    assert!(map.is_bomb_at(at(0, 0)));
    assert_eq!(map.bomb_count_at(at(1, 1)), 1);
}

#[test]
fn five_by_five_two_corner_mines() {
    let map = map_with(5, 5, &[(0, 0), (4, 4)]);
    assert!(map.is_empty_at(at(2, 2)));
    assert_eq!(map.bomb_count_at(at(1, 1)), 1);
    assert_eq!(map.bomb_count_at(at(3, 3)), 1);
    assert_eq!(map.bomb_count_at(at(4, 0)), 0);
}

fn check_generated(map: &TileMap) {
    let mut mines = 0;
    for y in 0..map.height {
        for x in 0..map.width {
            let c = at(x, y);
            let around = map
                .get_neighbor_coordinates(c)
                .into_iter()
                .filter(|n| map.is_bomb_at(*n))
                .count() as u8;
            match map.map[y as usize][x as usize] {
                Tile::Bomb => mines += 1,
                Tile::BombNeighbor(n) => {
                    assert_eq!(n, around);
                    assert!(n >= 1 && n <= 8);
                }
                Tile::Empty => assert_eq!(around, 0),
            }
        }
    }
    assert_eq!(mines, map.bomb_count as usize);
}

#[test]
fn generated_map_is_consistent() {
    for _ in 0..20 {
        let map = TileMap::generate(10, 8, 20).unwrap();
        assert_eq!((map.width, map.height, map.bomb_count), (10, 8, 20));
        check_generated(&map);
    }
}

#[test]
fn generate_fills_every_cell() {
    let map = TileMap::generate(3, 3, 9).unwrap();
    check_generated(&map);
    for y in 0..3 {
        for x in 0..3 {
            assert!(map.is_bomb_at(at(x, y)));
        }
    }
}

#[test]
fn set_bombs_on_empty_map() {
    let mut map = TileMap::empty(6, 6);
    map.set_bombs(7);
    assert_eq!(map.bomb_count, 7);
    check_generated(&map);
}

#[test]
fn generate_rejects_too_many_bombs() {
    assert_eq!(TileMap::generate(3, 3, 10).unwrap_err(), GenerationError::TooManyBombs);
    assert_eq!(TileMap::generate(0, 5, 1).unwrap_err(), GenerationError::TooManyBombs);
}

#[test]
fn generate_zero_sized() {
    let map = TileMap::generate(0, 0, 0).unwrap();
    assert_eq!(map.bomb_count, 0);
}

#[test]
fn tile_kinds() {
    assert!(Tile::Bomb.is_bomb());
    assert!(!Tile::Bomb.is_empty());
    assert!(Tile::Empty.is_empty());
    assert!(!Tile::BombNeighbor(2).is_empty());
    assert!(!Tile::BombNeighbor(2).is_bomb());
}

#[test]
fn console_output_draws_rows_top_down() {
    let map = map_with(2, 2, &[(0, 0)]);
    assert_eq!(map.console_output(), "Map (2, 2) with 1 bombms:\n----\n|11|\n|*1|\n----");
}

#[test]
fn console_output_writes_numbers_in_decimal() {
    let map = TileMap::empty(12, 1);
    assert_eq!(
        map.console_output(),
        "Map (12, 1) with 0 bombms:\n--------------\n|            |\n--------------"
    );
}

#[test]
fn tile_console_output() {
    assert_eq!(Tile::Bomb.console_output(), "*");
    assert_eq!(Tile::Empty.console_output(), " ");
    assert_eq!(Tile::BombNeighbor(3).console_output(), "3");
    assert_eq!(Tile::BombNeighbor(12).console_output(), "12");
}

#[test]
fn safe_start_is_first_empty_cell() {
    let map = map_with(3, 3, &[(0, 0)]);
    // Row 0: mine, 1, empty.
    assert_eq!(map.safe_start(), Some(at(2, 0)));
    let full = map_with(2, 1, &[(0, 0), (1, 0)]);
    assert_eq!(full.safe_start(), None);
    let numbered = map_with(3, 3, &[(1, 1)]);
    assert_eq!(numbered.safe_start(), None);
}

#[test]
fn count_outside_grid_beside_a_mine_is_zero() {
    let map = map_with(2, 2, &[(1, 1)]);
    assert_eq!(map.bomb_count_at(at(2, 2)), 0);
    assert_eq!(map.bomb_count_at(at(2, 1)), 0);
    assert_eq!(map.bomb_count_at(at(0, 2)), 0);
    let single = map_with(1, 1, &[(0, 0)]);
    assert_eq!(single.bomb_count_at(at(1, 0)), 0);
}

#[test]
fn console_output_of_zero_sized_map() {
    let map = TileMap::empty(0, 0);
    assert_eq!(map.console_output(), "Map (0, 0) with 0 bombms:\n--\n--");
}
