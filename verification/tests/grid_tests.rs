use codecraft_bot::grid::{
    find_inside_rect, find_neighbour, find_on_rect_border, index_to_position, position_to_index,
    visit_range, visit_square,
};
use codecraft_bot::rect::Rect;
use codecraft_bot::vec2::Vec2i;

#[test]
fn visit_range_1_1() {
    let result = visit_range(Vec2i::new(5, 5), 1, 1, &Rect::new(Vec2i::zero(), Vec2i::both(80)));
    assert_eq!(result, vec![
        Vec2i::new(5, 4),
        Vec2i::new(4, 5),
        Vec2i::new(5, 5),
        Vec2i::new(6, 5),
        Vec2i::new(5, 6),
    ]);
}

#[test]
fn visit_range_2_1() {
    let result = visit_range(Vec2i::new(5, 5), 2, 1, &Rect::new(Vec2i::zero(), Vec2i::both(80)));
    assert_eq!(result, vec![
        Vec2i::new(5, 4), Vec2i::new(6, 4),
        Vec2i::new(4, 5), Vec2i::new(5, 5), Vec2i::new(6, 5), Vec2i::new(7, 5),
        Vec2i::new(4, 6), Vec2i::new(5, 6), Vec2i::new(6, 6), Vec2i::new(7, 6),
        Vec2i::new(5, 7), Vec2i::new(6, 7),
    ]);
}

#[test]
fn visit_range_2_2() {
    let result = visit_range(Vec2i::new(5, 5), 2, 2, &Rect::new(Vec2i::zero(), Vec2i::both(80)));
    assert_eq!(result, vec![
        Vec2i::new(5, 3), Vec2i::new(6, 3),
        Vec2i::new(4, 4), Vec2i::new(5, 4), Vec2i::new(6, 4), Vec2i::new(7, 4),
        Vec2i::new(3, 5), Vec2i::new(4, 5), Vec2i::new(5, 5), Vec2i::new(6, 5), Vec2i::new(7, 5), Vec2i::new(8, 5),
        Vec2i::new(3, 6), Vec2i::new(4, 6), Vec2i::new(5, 6), Vec2i::new(6, 6), Vec2i::new(7, 6), Vec2i::new(8, 6),
        Vec2i::new(4, 7), Vec2i::new(5, 7), Vec2i::new(6, 7), Vec2i::new(7, 7),
        Vec2i::new(5, 8), Vec2i::new(6, 8),
    ]);
}

#[test]
fn visit_range_is_clipped_by_bounds() {
    let result = visit_range(Vec2i::new(0, 0), 1, 1, &Rect::new(Vec2i::zero(), Vec2i::both(80)));
    assert_eq!(result, vec![Vec2i::new(0, 0), Vec2i::new(1, 0), Vec2i::new(0, 1)]);
}

#[test]
fn visit_range_covers_cells_within_distance() {
    let bounds = Rect::new(Vec2i::new(2, 1), Vec2i::new(12, 9));
    let position = Vec2i::new(4, 3);
    let square = Rect::new(position, position + Vec2i::both(3));
    let visited = visit_range(position, 3, 2, &bounds);
    for x in -2..15 {
        for y in -2..15 {
            let p = Vec2i::new(x, y);
            let expected = bounds.contains(p) && square.distance_to_position(p) <= 2;
            assert_eq!(visited.contains(&p), expected, "{:?}", p);
        }
    }
}

#[test]
fn visit_square_row_by_row() {
    assert_eq!(visit_square(Vec2i::new(1, 2), 2), vec![
        Vec2i::new(1, 2), Vec2i::new(2, 2), Vec2i::new(1, 3), Vec2i::new(2, 3),
    ]);
    assert!(visit_square(Vec2i::new(1, 2), 0).is_empty());
}

#[test]
fn index_position_roundtrip() {
    assert_eq!(position_to_index(Vec2i::new(3, 2), 10), 23);
    assert_eq!(index_to_position(23, 10), Vec2i::new(3, 2));
    for index in 0..64 {
        assert_eq!(position_to_index(index_to_position(index, 8), 8), index);
    }
}

#[test]
fn find_inside_rect_returns_first_match_row_by_row() {
    let found = find_inside_rect(Vec2i::new(0, 0), Vec2i::new(3, 3), |p| p.x() + p.y() == 2);
    assert_eq!(found, Some(Vec2i::new(2, 0)));
    let none = find_inside_rect(Vec2i::new(0, 0), Vec2i::new(3, 3), |p| p.x() > 5);
    assert_eq!(none, None);
}

#[test]
fn find_on_rect_border_order() {
    let mut order = Vec::new();
    let cell = std::cell::RefCell::new(&mut order);
    let found = find_on_rect_border(Vec2i::new(0, 0), Vec2i::new(3, 3), |p| {
        cell.borrow_mut().push(p);
        false
    });
    assert_eq!(found, None);
    assert_eq!(order, vec![
        Vec2i::new(0, 0), Vec2i::new(0, 1),
        Vec2i::new(0, 2), Vec2i::new(1, 2),
        Vec2i::new(2, 1), Vec2i::new(2, 2),
        Vec2i::new(1, 0), Vec2i::new(2, 0),
    ]);
}

#[test]
fn find_neighbour_order() {
    let found = find_neighbour(Vec2i::new(5, 5), 2, |p| p.y() == 7);
    assert_eq!(found, Some(Vec2i::new(5, 7)));
    let found = find_neighbour(Vec2i::new(5, 5), 2, |p| p.x() == 7);
    assert_eq!(found, Some(Vec2i::new(7, 5)));
    let found = find_neighbour(Vec2i::new(5, 5), 2, |p| p.y() == 4);
    assert_eq!(found, Some(Vec2i::new(5, 4)));
}
