use lsystem::geometry::{BoundingBox, Vec2};

#[test]
fn add_is_componentwise() {
    let a = Vec2 { x: 3, y: -4 };
    let b = Vec2 { x: -10, y: 14 };
    assert_eq!(a.add(b), Vec2 { x: -7, y: 10 });
}

#[test]
fn new_box_is_the_reversed_sentinel() {
    let b = BoundingBox::new();
    assert_eq!(b.min, Vec2 { x: i64::MAX, y: i64::MAX });
    assert_eq!(b.max, Vec2 { x: i64::MIN, y: i64::MIN });
}

#[test]
fn first_update_pins_both_corners() {
    let mut b = BoundingBox::new();
    b.update(Vec2 { x: 5, y: -3 });
    assert_eq!(b.min, Vec2 { x: 5, y: -3 });
    assert_eq!(b.max, Vec2 { x: 5, y: -3 });
}

#[test]
fn updates_expand_elementwise() {
    let mut b = BoundingBox::new();
    b.update(Vec2 { x: 3, y: 9 });
    b.update(Vec2 { x: -2, y: 4 });
    assert_eq!(b.min, Vec2 { x: -2, y: 4 });
    assert_eq!(b.max, Vec2 { x: 3, y: 9 });
    // A point inside changes nothing.
    b.update(Vec2 { x: 0, y: 5 });
    assert_eq!(b.min, Vec2 { x: -2, y: 4 });
    assert_eq!(b.max, Vec2 { x: 3, y: 9 });
}

#[test]
fn center_and_size_of_a_filled_box() {
    let mut b = BoundingBox::new();
    b.update(Vec2 { x: -2, y: 4 });
    b.update(Vec2 { x: 3, y: 9 });
    // The midpoint rounds toward the lower corner: (5 / 2 == 2).
    assert_eq!(b.center(), Vec2 { x: 0, y: 6 });
    assert_eq!(b.size(), Vec2 { x: 5, y: 5 });
}
