use codecraft_bot::rect::Rect;
use codecraft_bot::vec2::Vec2i;

#[test]
fn distance_to_position_for_1x1_rect() {
    let rect = Rect::new(Vec2i::zero(), Vec2i::both(1));
    assert_eq!(rect.distance_to_position(Vec2i::new(-1, 0)), 1);
    assert_eq!(rect.distance_to_position(Vec2i::new(1, 0)), 1);
    assert_eq!(rect.distance_to_position(Vec2i::new(0, 1)), 1);
    assert_eq!(rect.distance_to_position(Vec2i::new(0, -1)), 1);
    assert_eq!(rect.distance_to_position(Vec2i::new(-1, -1)), 2);
    assert_eq!(rect.distance_to_position(Vec2i::new(-1, 1)), 2);
    assert_eq!(rect.distance_to_position(Vec2i::new(1, -1)), 2);
    assert_eq!(rect.distance_to_position(Vec2i::new(1, 1)), 2);
}

#[test]
fn distance_to_position_for_2x2_rect() {
    let rect = Rect::new(Vec2i::zero(), Vec2i::both(2));
    assert_eq!(rect.distance_to_position(Vec2i::new(-1, 0)), 1);
    assert_eq!(rect.distance_to_position(Vec2i::new(-1, 1)), 1);
    assert_eq!(rect.distance_to_position(Vec2i::new(2, 0)), 1);
    assert_eq!(rect.distance_to_position(Vec2i::new(2, 1)), 1);
    assert_eq!(rect.distance_to_position(Vec2i::new(0, 2)), 1);
    assert_eq!(rect.distance_to_position(Vec2i::new(1, 2)), 1);
    assert_eq!(rect.distance_to_position(Vec2i::new(0, -1)), 1);
    assert_eq!(rect.distance_to_position(Vec2i::new(1, -1)), 1);
    assert_eq!(rect.distance_to_position(Vec2i::new(-1, -1)), 2);
    assert_eq!(rect.distance_to_position(Vec2i::new(-1, 2)), 2);
    assert_eq!(rect.distance_to_position(Vec2i::new(2, -1)), 2);
    assert_eq!(rect.distance_to_position(Vec2i::new(2, 2)), 2);
    assert_eq!(rect.distance_to_position(Vec2i::new(4, 2)), 4);
    assert_eq!(rect.distance_to_position(Vec2i::new(4, 1)), 3);
}

#[test]
fn distance_for_2x2_rects() {
    let rect = Rect::new(Vec2i::zero(), Vec2i::both(2));
    assert_eq!(rect.distance(&Rect::new(Vec2i::new(-2, 0), Vec2i::new(0, 2))), 1);
    assert_eq!(rect.distance(&Rect::new(Vec2i::new(2, 0), Vec2i::new(4, 2))), 1);
    assert_eq!(rect.distance(&Rect::new(Vec2i::new(0, -2), Vec2i::new(2, 0))), 1);
    assert_eq!(rect.distance(&Rect::new(Vec2i::new(0, 2), Vec2i::new(2, 4))), 1);
    assert_eq!(rect.distance(&Rect::new(Vec2i::new(-2, 1), Vec2i::new(0, 3))), 1);
    assert_eq!(rect.distance(&Rect::new(Vec2i::new(2, 1), Vec2i::new(4, 3))), 1);
    assert_eq!(rect.distance(&Rect::new(Vec2i::new(1, -2), Vec2i::new(3, 0))), 1);
    assert_eq!(rect.distance(&Rect::new(Vec2i::new(1, 2), Vec2i::new(3, 4))), 1);
    assert_eq!(rect.distance(&Rect::new(Vec2i::new(2, 2), Vec2i::new(4, 4))), 2);
    assert_eq!(rect.distance(&Rect::new(Vec2i::new(-2, -2), Vec2i::new(0, 0))), 2);
    assert_eq!(rect.distance(&Rect::new(Vec2i::new(2, -2), Vec2i::new(4, 0))), 2);
    assert_eq!(rect.distance(&Rect::new(Vec2i::new(-2, 2), Vec2i::new(0, 4))), 2);
}

#[test]
fn overlaps() {
    let rect = Rect::new(Vec2i::zero(), Vec2i::both(2));
    assert!(rect.overlaps(&rect));
    assert!(!rect.overlaps(&Rect::new(Vec2i::new(-2, -2), Vec2i::new(0, 0))));
    assert!(rect.overlaps(&Rect::new(Vec2i::new(-2, -2), Vec2i::new(1, 1))));
    assert!(!rect.overlaps(&Rect::new(Vec2i::new(2, 2), Vec2i::new(4, 4))));
    assert!(rect.overlaps(&Rect::new(Vec2i::new(1, 1), Vec2i::new(4, 4))));
}

#[test]
fn rect_contains_exactly_at_zero_distance() {
    let rect = Rect::new(Vec2i::new(1, 1), Vec2i::new(4, 3));
    for x in -2..7 {
        for y in -2..6 {
            let p = Vec2i::new(x, y);
            assert_eq!(rect.contains(p), rect.distance_to_position(p) == 0);
        }
    }
}

#[test]
fn rect_overlaps_exactly_at_zero_distance() {
    let rect = Rect::new(Vec2i::new(0, 0), Vec2i::new(3, 2));
    for x in -4..5 {
        for y in -4..5 {
            let other = Rect::new(Vec2i::new(x, y), Vec2i::new(x + 2, y + 2));
            assert_eq!(rect.overlaps(&other), rect.distance(&other) == 0);
            assert_eq!(rect.overlaps(&other), other.overlaps(&rect));
        }
    }
}

#[test]
fn rect_square_and_center() {
    let rect = Rect::new(Vec2i::new(-3, 1), Vec2i::new(4, 6));
    assert_eq!(rect.square(), 35);
    assert_eq!(rect.center(), Vec2i::new(0, 3));
    assert_eq!(Rect::new(Vec2i::new(-5, -5), Vec2i::new(0, 0)).center(), Vec2i::new(-2, -2));
}
