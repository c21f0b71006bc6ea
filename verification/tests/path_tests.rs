use codecraft_bot::path::{
    entry_costs, get_cost, visit_reversed_shortest_path, CellState, PathFinder, ReachabilityMap,
    TileOccupant,
};
use codecraft_bot::range::{Range, SizedRange};
use codecraft_bot::vec2::Vec2i;

fn open_map(size: usize) -> Vec<Option<i32>> {
    vec![Some(1); size * size]
}

fn index(p: Vec2i, size: usize) -> usize {
    (p.x + p.y * size as i32) as usize
}

fn assert_walk(start: Vec2i, path: &Vec<Vec2i>, costs: &Vec<Option<i32>>, size: usize) {
    let mut previous = start;
    for p in path.iter() {
        assert_eq!((p.x - previous.x).abs() + (p.y - previous.y).abs(), 1, "{:?}", path);
        assert!(costs[index(*p, size)].is_some(), "{:?}", path);
        previous = *p;
    }
}

#[test]
fn bfs_finds_a_shortest_path_on_an_open_map() {
    let costs = open_map(5);
    let mut finder = PathFinder::new(Vec2i::new(0, 0), 5);
    finder.find_with_bfs(&Range::new(Vec2i::new(4, 4), 0), false, &costs);
    assert_eq!(finder.cost(), Some(8));
    assert_eq!(finder.path().len(), 8);
    assert_eq!(*finder.path().last().unwrap(), Vec2i::new(4, 4));
    assert_walk(Vec2i::new(0, 0), finder.path(), &costs, 5);
}

#[test]
fn a_star_finds_a_shortest_path_on_an_open_map() {
    let costs = open_map(5);
    let mut finder = PathFinder::new(Vec2i::new(0, 0), 5);
    finder.find_with_a_star(&Range::new(Vec2i::new(4, 4), 0), false, &costs);
    assert_eq!(finder.cost(), Some(8));
    assert_eq!(finder.path().len(), 8);
    assert_eq!(*finder.path().last().unwrap(), Vec2i::new(4, 4));
    assert_walk(Vec2i::new(0, 0), finder.path(), &costs, 5);
}

#[test]
fn search_goes_through_the_gap_of_a_wall() {
    let mut costs = open_map(5);
    for y in 0..4 {
        costs[index(Vec2i::new(2, y), 5)] = None;
    }
    for find_with_a_star in [false, true] {
        let mut finder = PathFinder::new(Vec2i::new(0, 0), 5);
        let target = Range::new(Vec2i::new(4, 0), 0);
        if find_with_a_star {
            finder.find_with_a_star(&target, false, &costs);
        } else {
            finder.find_with_bfs(&target, false, &costs);
        }
        assert_eq!(finder.cost(), Some(12));
        assert!(finder.path().contains(&Vec2i::new(2, 4)));
        assert_eq!(*finder.path().last().unwrap(), Vec2i::new(4, 0));
        assert_walk(Vec2i::new(0, 0), finder.path(), &costs, 5);
    }
}

#[test]
fn search_stops_nearest_when_the_target_is_walled_off() {
    let mut costs = open_map(5);
    for y in 0..5 {
        costs[index(Vec2i::new(2, y), 5)] = None;
    }
    let mut finder = PathFinder::new(Vec2i::new(0, 0), 5);
    finder.find_with_bfs(&Range::new(Vec2i::new(4, 0), 0), true, &costs);
    assert_eq!(*finder.path().last().unwrap(), Vec2i::new(1, 0));
    assert_eq!(finder.cost(), Some(1));
    let mut finder = PathFinder::new(Vec2i::new(0, 0), 5);
    finder.find_with_bfs(&Range::new(Vec2i::new(4, 0), 0), false, &costs);
    assert_eq!(finder.cost(), None);
    assert!(finder.path().is_empty());
}

#[test]
fn search_from_a_cell_that_reaches_the_target_keeps_no_path() {
    let costs = open_map(5);
    let mut finder = PathFinder::new(Vec2i::new(2, 2), 5);
    finder.find_with_a_star(&SizedRange::new(Vec2i::new(1, 1), 3, 0), false, &costs);
    assert_eq!(finder.cost(), Some(0));
    assert!(finder.path().is_empty());
}

#[test]
fn search_pays_for_clearing_resources() {
    let mut costs = open_map(3);
    costs[index(Vec2i::new(1, 0), 3)] = Some(7);
    let mut finder = PathFinder::new(Vec2i::new(0, 0), 3);
    finder.find_with_a_star(&Range::new(Vec2i::new(2, 0), 0), false, &costs);
    assert_eq!(finder.cost(), Some(4));
    assert!(!finder.path().contains(&Vec2i::new(1, 0)));
}

#[test]
fn entry_cost_of_each_kind_of_cell() {
    let empty = CellState { locked: false, occupant: None, has_move_to: false };
    assert_eq!(get_cost(empty, 5), Some(1));
    assert_eq!(get_cost(CellState { locked: true, ..empty }, 5), None);
    assert_eq!(get_cost(CellState { has_move_to: true, ..empty }, 5), None);
    let resource = TileOccupant { can_move: false, has_move_from: false, is_resource: true, health: 30 };
    assert_eq!(get_cost(CellState { occupant: Some(resource), ..empty }, 5), Some(7));
    assert_eq!(get_cost(CellState { occupant: Some(TileOccupant { health: 31, ..resource }), ..empty }, 5), Some(8));
    assert_eq!(get_cost(CellState { occupant: Some(resource), ..empty }, 0), None);
    let building = TileOccupant { can_move: false, has_move_from: false, is_resource: false, health: 50 };
    assert_eq!(get_cost(CellState { occupant: Some(building), ..empty }, 5), None);
    let leaving = TileOccupant { can_move: true, has_move_from: true, is_resource: false, health: 10 };
    assert_eq!(get_cost(CellState { occupant: Some(leaving), ..empty }, 5), Some(1));
    assert_eq!(get_cost(CellState { occupant: Some(leaving), has_move_to: true, ..empty }, 5), None);
    let staying = TileOccupant { has_move_from: false, ..leaving };
    assert_eq!(get_cost(CellState { occupant: Some(staying), ..empty }, 5), None);
    let all = entry_costs(&vec![empty, CellState { locked: true, ..empty }], 5);
    assert_eq!(all, vec![Some(1), None]);
}

#[test]
fn reachability_follows_passable_cells() {
    let mut passable = vec![true; 16];
    for y in 0..4 {
        passable[index(Vec2i::new(2, y), 4)] = false;
    }
    let mut map = ReachabilityMap::new(4);
    map.update(Vec2i::new(0, 0), &passable);
    assert!(map.is_reachable(Vec2i::new(1, 3)));
    assert!(!map.is_reachable(Vec2i::new(3, 0)));
    assert!(!map.is_reachable(Vec2i::new(2, 1)));
    passable[index(Vec2i::new(2, 1), 4)] = true;
    map.update(Vec2i::new(0, 0), &passable);
    assert!(map.is_reachable(Vec2i::new(3, 3)));
}

#[test]
fn reversed_shortest_path_follows_back_steps() {
    let backtrack: Vec<usize> = vec![0, 0, 1, 2, 4];
    assert_eq!(visit_reversed_shortest_path(0, 3, &backtrack), vec![3, 2, 1]);
    assert_eq!(visit_reversed_shortest_path(0, 0, &backtrack), Vec::<usize>::new());
}

#[test]
fn path_finder_off_the_map_start_is_empty() {
    let finder = PathFinder::new(Vec2i::new(-5, 3), 4);
    assert!(finder.path().is_empty());
    assert_eq!(finder.cost(), None);
}
