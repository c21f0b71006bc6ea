use codecraft_bot::map::{GameMap, MapEntity, Tile};
use codecraft_bot::vec2::Vec2i;

fn entities() -> Vec<MapEntity> {
    vec![
        MapEntity { id: 1, player_id: Some(1), position: Vec2i::new(2, 2), size: 2, sight_range: 3 },
        MapEntity { id: 2, player_id: Some(2), position: Vec2i::new(7, 7), size: 1, sight_range: 5 },
    ]
}

#[test]
fn map_without_fog_shows_entities_and_empty_cells() {
    let map = GameMap::new(10, false, 1, &entities());
    assert_eq!(map.get_tile(Vec2i::new(2, 2)), Tile::Entity(1));
    assert_eq!(map.get_tile(Vec2i::new(3, 3)), Tile::Entity(1));
    assert_eq!(map.get_tile(Vec2i::new(4, 4)), Tile::Empty);
    assert_eq!(map.get_tile(Vec2i::new(7, 7)), Tile::Entity(2));
    assert_eq!(map.get_tile(Vec2i::new(9, 9)), Tile::Empty);
    assert!(map.contains(Vec2i::new(0, 0)));
    assert!(map.contains(Vec2i::new(9, 9)));
    assert!(!map.contains(Vec2i::new(10, 0)));
    assert!(!map.contains(Vec2i::new(0, -1)));
}

#[test]
fn map_with_fog_shows_what_my_entities_see() {
    let map = GameMap::new(10, true, 1, &entities());
    assert_eq!(map.get_tile(Vec2i::new(4, 4)), Tile::Empty);
    assert_eq!(map.get_tile(Vec2i::new(1, 1)), Tile::Empty);
    assert_eq!(map.get_tile(Vec2i::new(6, 2)), Tile::Empty);
    assert_eq!(map.get_tile(Vec2i::new(7, 2)), Tile::Unknown);
    assert_eq!(map.get_tile(Vec2i::new(0, 0)), Tile::Unknown);
    assert_eq!(map.get_tile(Vec2i::new(9, 9)), Tile::Unknown);
    assert_eq!(map.get_tile(Vec2i::new(7, 7)), Tile::Entity(2));
}

#[test]
fn unlock_undoes_lock() {
    let mut map = GameMap::new(10, false, 1, &entities());
    let position = Vec2i::new(3, 3);
    map.lock_tile(position);
    assert!(map.is_tile_locked(position));
    assert!(!map.is_tile_locked(Vec2i::new(3, 4)));
    map.unlock_tile(position);
    for y in 0..10 {
        for x in 0..10 {
            assert!(!map.is_tile_locked(Vec2i::new(x, y)));
        }
    }
    assert_eq!(map.get_tile(position), Tile::Entity(1));
}

#[test]
fn lock_and_unlock_squares() {
    let mut map = GameMap::new(10, false, 1, &entities());
    map.lock_square(Vec2i::new(1, 1), 2);
    assert!(map.is_tile_locked(Vec2i::new(1, 1)));
    assert!(map.is_tile_locked(Vec2i::new(2, 1)));
    assert!(map.is_tile_locked(Vec2i::new(1, 2)));
    assert!(map.is_tile_locked(Vec2i::new(2, 2)));
    assert!(!map.is_tile_locked(Vec2i::new(3, 3)));
    map.lock_square(Vec2i::new(8, 8), 5);
    assert!(map.is_tile_locked(Vec2i::new(9, 9)));
    map.unlock_square(Vec2i::new(2, 2), 3);
    assert!(!map.is_tile_locked(Vec2i::new(2, 2)));
    assert!(map.is_tile_locked(Vec2i::new(1, 1)));
    assert!(map.is_tile_locked(Vec2i::new(2, 1)));
}

#[test]
fn find_inside_square_takes_the_first_match_row_by_row() {
    let map = GameMap::new(10, false, 1, &entities());
    let found = map.find_inside_square(Vec2i::new(1, 1), 3, |_: Vec2i, tile: Tile, _: bool| tile == Tile::Entity(1));
    assert_eq!(found, Some(Vec2i::new(2, 2)));
    let none = map.find_inside_square(Vec2i::new(4, 4), 2, |_: Vec2i, tile: Tile, _: bool| tile == Tile::Entity(1));
    assert_eq!(none, None);
    let outside = map.find_inside_square(Vec2i::new(9, 9), 2, |_: Vec2i, tile: Tile, _: bool| tile == Tile::Outside);
    assert_eq!(outside, Some(Vec2i::new(10, 9)));
    let within = map.find_inside_square_within_map(Vec2i::new(9, 9), 2, |_: Vec2i, tile: Tile, _: bool| tile == Tile::Outside);
    assert_eq!(within, None);
}

#[test]
fn find_neighbour_finds_a_free_cell_next_to_the_square() {
    let map = GameMap::new(10, false, 1, &entities());
    let found = map.find_neighbour(Vec2i::new(2, 2), 2, |_: Vec2i, tile: Tile, locked: bool| tile == Tile::Empty && !locked);
    let p = found.expect("a free neighbour");
    let beside_x = (p.x() == 1 || p.x() == 4) && 2 <= p.y() && p.y() < 4;
    let beside_y = (p.y() == 1 || p.y() == 4) && 2 <= p.x() && p.x() < 4;
    assert!(beside_x || beside_y);
    assert_eq!(map.get_tile(p), Tile::Empty);
}

#[test]
fn update_redraws_tiles_and_keeps_locks() {
    let mut map = GameMap::new(10, false, 1, &entities());
    map.lock_tile(Vec2i::new(0, 0));
    let moved = vec![MapEntity { id: 1, player_id: Some(1), position: Vec2i::new(5, 5), size: 2, sight_range: 3 }];
    map.update(false, 1, &moved);
    assert_eq!(map.get_tile(Vec2i::new(2, 2)), Tile::Empty);
    assert_eq!(map.get_tile(Vec2i::new(5, 5)), Tile::Entity(1));
    assert_eq!(map.get_tile(Vec2i::new(7, 7)), Tile::Empty);
    assert!(map.is_tile_locked(Vec2i::new(0, 0)));
}
