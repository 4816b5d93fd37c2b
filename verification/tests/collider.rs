use web_slinger::collider::{
    calc_collision, correction_shares, select_contact_axis, static_contact, stick_split, Collider,
    NarrowPhase, Shape, Share, StaticContact, StickSplit,
};

fn collider(shape: Shape, layer: u32, layer_mask: u32) -> Collider {
    Collider { shape, layer, layer_mask, trigger: false }
}

fn circle(radius: i64) -> Collider {
    collider(Shape::Circle { radius }, 1, 1)
}

fn rectangle(width: i64, height: i64) -> Collider {
    collider(Shape::Box { width, height }, 1, 1)
}

#[test]
fn colliders_interact_when_each_mask_meets_the_other_layer() {
    let player = collider(Shape::Circle { radius: 8 }, 2, 1);
    let wall = collider(Shape::Box { width: 15, height: 15 }, 1, 3);
    assert!(player.interacts_with(&wall));
    assert!(wall.interacts_with(&player));
}

#[test]
fn colliders_do_not_interact_when_one_mask_misses() {
    let player = collider(Shape::Circle { radius: 8 }, 2, 1);
    let wall = collider(Shape::Box { width: 15, height: 15 }, 1, 1);
    // The player reacts to the wall's layer, but the wall does not react to the player's.
    assert!(!player.interacts_with(&wall));
    assert!(!wall.interacts_with(&player));
    // Two players do not react to each other.
    assert!(!player.interacts_with(&player));
}

#[test]
fn colliders_without_layers_or_masks_never_interact() {
    let ghost = collider(Shape::Circle { radius: 1 }, 0, u32::MAX);
    let deaf = collider(Shape::Circle { radius: 1 }, u32::MAX, 0);
    let full = collider(Shape::Circle { radius: 1 }, u32::MAX, u32::MAX);
    assert!(!ghost.interacts_with(&full));
    assert!(!full.interacts_with(&deaf));
    assert!(full.interacts_with(&full));
}

#[test]
fn layers_may_share_any_bit() {
    let a = collider(Shape::Circle { radius: 1 }, 0b1000, 0b0110);
    let b = collider(Shape::Circle { radius: 1 }, 0b0100, 0b1001);
    assert!(a.interacts_with(&b));
    let c = collider(Shape::Circle { radius: 1 }, 0b0001, 0b1000);
    assert!(!a.interacts_with(&c));
}

#[test]
fn two_circles_are_tested_as_circles() {
    assert_eq!(
        calc_collision(&circle(4), &circle(8)),
        NarrowPhase::CircleCircle { radius_a: 4, radius_b: 8 }
    );
}

#[test]
fn circle_against_box_keeps_the_order() {
    assert_eq!(
        calc_collision(&circle(4), &rectangle(15, 25)),
        NarrowPhase::CircleBox { radius: 4, width: 15, height: 25, swapped: false }
    );
}

#[test]
fn box_against_circle_swaps_the_operands() {
    assert_eq!(
        calc_collision(&rectangle(15, 25), &circle(4)),
        NarrowPhase::CircleBox { radius: 4, width: 15, height: 25, swapped: true }
    );
}

#[test]
fn two_boxes_have_no_test() {
    assert_eq!(calc_collision(&rectangle(1, 2), &rectangle(3, 4)), NarrowPhase::Unsupported);
}

#[test]
fn contact_axis_is_the_one_of_least_depth() {
    assert_eq!(select_contact_axis([5, 3, 9]), Some(1));
    assert_eq!(select_contact_axis([2, 3, 9]), Some(0));
    assert_eq!(select_contact_axis([5, 3, 1]), Some(2));
}

#[test]
fn contact_axis_is_the_first_among_equal_depths() {
    assert_eq!(select_contact_axis([4, 4, 4]), Some(0));
    assert_eq!(select_contact_axis([7, 4, 4]), Some(1));
    assert_eq!(select_contact_axis([4, 7, 4]), Some(0));
}

#[test]
fn a_negative_depth_on_any_axis_means_no_contact() {
    assert_eq!(select_contact_axis([-1, 3, 9]), None);
    assert_eq!(select_contact_axis([5, -1, 9]), None);
    assert_eq!(select_contact_axis([5, 3, -1]), None);
    assert_eq!(select_contact_axis([i64::MIN, i64::MAX, i64::MAX]), None);
}

#[test]
fn a_depth_of_zero_means_no_contact() {
    assert_eq!(select_contact_axis([0, 3, 9]), None);
    assert_eq!(select_contact_axis([5, 0, 9]), None);
    assert_eq!(select_contact_axis([5, 3, 0]), None);
    assert_eq!(select_contact_axis([0, 0, 0]), None);
}

#[test]
fn contact_with_the_greatest_depths() {
    assert_eq!(select_contact_axis([i64::MAX, i64::MAX, i64::MAX]), Some(0));
    assert_eq!(select_contact_axis([i64::MAX, 1, i64::MAX]), Some(1));
}

#[test]
fn two_free_bodies_share_a_correction_evenly() {
    assert_eq!(
        correction_shares(false, false),
        Some((Share { numerator: 1, denominator: 2 }, Share { numerator: 1, denominator: 2 }))
    );
}

#[test]
fn a_fixed_body_takes_no_part_of_a_correction() {
    assert_eq!(
        correction_shares(true, false),
        Some((Share { numerator: 0, denominator: 1 }, Share { numerator: 1, denominator: 1 }))
    );
    assert_eq!(
        correction_shares(false, true),
        Some((Share { numerator: 1, denominator: 1 }, Share { numerator: 0, denominator: 1 }))
    );
}

#[test]
fn two_fixed_bodies_are_skipped() {
    assert_eq!(correction_shares(true, true), None);
}

#[test]
fn a_stick_without_ratio_splits_by_mobility() {
    let half = Share { numerator: 1, denominator: 2 };
    let whole = Share { numerator: 1, denominator: 1 };
    let none = Share { numerator: 0, denominator: 1 };
    assert_eq!(stick_split(false, false, false), Some(StickSplit::ByMobility(half, half)));
    assert_eq!(stick_split(true, false, false), Some(StickSplit::ByMobility(none, whole)));
    assert_eq!(stick_split(false, true, false), Some(StickSplit::ByMobility(whole, none)));
}

#[test]
fn a_stick_uses_its_ratio_between_free_bodies_only() {
    let whole = Share { numerator: 1, denominator: 1 };
    let none = Share { numerator: 0, denominator: 1 };
    assert_eq!(stick_split(false, false, true), Some(StickSplit::ByRatio));
    assert_eq!(stick_split(true, false, true), Some(StickSplit::ByMobility(none, whole)));
    assert_eq!(stick_split(false, true, true), Some(StickSplit::ByMobility(whole, none)));
}

#[test]
fn a_stick_between_fixed_bodies_does_nothing() {
    assert_eq!(stick_split(true, true, false), None);
    assert_eq!(stick_split(true, true, true), None);
}

fn player() -> Collider {
    collider(Shape::Circle { radius: 8 }, 2, 1)
}

fn wall(layer_mask: u32, trigger: bool) -> Collider {
    Collider { shape: Shape::Box { width: 15, height: 15 }, layer: 1, layer_mask, trigger }
}

#[test]
fn a_free_body_is_moved_out_of_a_static_collider_and_the_contact_recorded() {
    assert_eq!(
        static_contact(&player(), false, &wall(3, false)),
        StaticContact { moves: true, recorded: true }
    );
}

#[test]
fn a_fixed_body_is_not_moved_by_a_static_contact() {
    assert_eq!(
        static_contact(&player(), true, &wall(3, false)),
        StaticContact { moves: false, recorded: true }
    );
}

#[test]
fn a_static_trigger_is_recorded_and_moves_nothing() {
    assert_eq!(
        static_contact(&player(), false, &wall(3, true)),
        StaticContact { moves: false, recorded: true }
    );
    assert_eq!(
        static_contact(&player(), true, &wall(3, true)),
        StaticContact { moves: false, recorded: true }
    );
}

#[test]
fn a_static_contact_on_layers_that_do_not_meet_is_nothing() {
    let nothing = StaticContact { moves: false, recorded: false };
    // The wall does not react to the layer of the player.
    assert_eq!(static_contact(&player(), false, &wall(1, false)), nothing);
    assert_eq!(static_contact(&player(), false, &wall(1, true)), nothing);
    assert_eq!(static_contact(&player(), true, &wall(1, false)), nothing);
    // The body does not react to the layer of the wall.
    let deaf = collider(Shape::Circle { radius: 8 }, 2, 2);
    assert_eq!(static_contact(&deaf, false, &wall(3, false)), nothing);
}
