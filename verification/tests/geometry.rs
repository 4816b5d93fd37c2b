use web_slinger::geometry::{combine_bounding_boxes, Point, AABB};

fn aabb(min_x: i64, min_y: i64, max_x: i64, max_y: i64) -> AABB {
    AABB { min: Point { x: min_x, y: min_y }, max: Point { x: max_x, y: max_y } }
}

#[test]
fn overlapping_boxes_intersect() {
    let a = aabb(0, 0, 10, 10);
    let b = aabb(5, 5, 15, 15);
    assert!(a.intersects(&b));
    assert!(b.intersects(&a));
}

#[test]
fn boxes_apart_on_one_axis_do_not_intersect() {
    let a = aabb(0, 0, 10, 10);
    assert!(!a.intersects(&aabb(11, 0, 20, 10)));
    assert!(!a.intersects(&aabb(0, 11, 10, 20)));
    assert!(!a.intersects(&aabb(-20, 0, -1, 10)));
    assert!(!a.intersects(&aabb(0, -20, 10, -1)));
}

#[test]
fn touching_edges_count_as_intersecting() {
    let a = aabb(0, 0, 10, 10);
    assert!(a.intersects(&aabb(10, 0, 20, 10)));
    assert!(a.intersects(&aabb(0, 10, 10, 20)));
    assert!(a.intersects(&aabb(10, 10, 20, 20)));
}

#[test]
fn nested_box_intersects() {
    let outer = aabb(-100, -100, 100, 100);
    let inner = aabb(-1, -1, 1, 1);
    assert!(outer.intersects(&inner));
    assert!(inner.intersects(&outer));
}

#[test]
fn combine_takes_the_extremes() {
    let left = aabb(0, 5, 10, 8);
    let right = aabb(-3, 6, 4, 20);
    assert_eq!(combine_bounding_boxes(left, right), aabb(-3, 5, 10, 20));
    assert_eq!(combine_bounding_boxes(right, left), aabb(-3, 5, 10, 20));
}

#[test]
fn combine_with_itself_is_identity() {
    let b = aabb(-7, 2, 9, 4);
    assert_eq!(combine_bounding_boxes(b, b), b);
}

#[test]
fn combine_at_the_limits_of_the_ordinates() {
    let a = aabb(i64::MIN, 0, 0, i64::MAX);
    let b = aabb(0, i64::MIN, i64::MAX, 0);
    assert_eq!(combine_bounding_boxes(a, b), aabb(i64::MIN, i64::MIN, i64::MAX, i64::MAX));
}
