use web_slinger::schedule::{
    Phase, SubStepSchedule, OPENING_PASSES, SUB_STEPS, SUB_STEP_PASSES, TICK_PASSES,
};

fn run_tick(schedule: &mut SubStepSchedule) -> Vec<Phase> {
    let mut phases = Vec::new();
    loop {
        phases.push(schedule.next());
        if schedule.at_tick_start() {
            return phases;
        }
    }
}

fn sub_step() -> Vec<Phase> {
    vec![
        Phase::ApplyGravity,
        Phase::ApplyBoundaryConstraints,
        Phase::Integrate,
        Phase::SolveMouseConstraint,
        Phase::SolveStickConstraints,
        Phase::StaticCollisionPass,
        Phase::ApplyTrackedFriction,
    ]
}

#[test]
fn the_counts_of_a_tick_add_up() {
    assert_eq!(SUB_STEPS, 8);
    assert_eq!(TICK_PASSES, OPENING_PASSES + SUB_STEPS * SUB_STEP_PASSES);
}

#[test]
fn a_tick_opens_with_the_resets_and_gravity() {
    let mut schedule = SubStepSchedule::new();
    assert!(schedule.at_tick_start());
    assert_eq!(schedule.next(), Phase::ResetForces);
    assert!(!schedule.at_tick_start());
    assert_eq!(schedule.next(), Phase::ResetCollisionHistory);
    assert_eq!(schedule.next(), Phase::ApplyGravity);
}

#[test]
fn a_tick_runs_eight_equal_sub_steps_after_its_opening() {
    let mut schedule = SubStepSchedule::new();
    let phases = run_tick(&mut schedule);
    assert_eq!(phases.len(), 59);
    assert_eq!(
        phases[..3],
        [Phase::ResetForces, Phase::ResetCollisionHistory, Phase::ApplyGravity]
    );
    for step in 0..8 {
        assert_eq!(phases[3 + 7 * step..10 + 7 * step], sub_step()[..]);
    }
}

#[test]
fn a_tick_applies_gravity_nine_times_and_clears_the_forces_once() {
    let mut schedule = SubStepSchedule::new();
    let phases = run_tick(&mut schedule);
    let count = |phase: Phase| phases.iter().filter(|p| **p == phase).count();
    assert_eq!(count(Phase::ApplyGravity), 9);
    assert_eq!(count(Phase::ResetForces), 1);
    assert_eq!(count(Phase::ResetCollisionHistory), 1);
    assert_eq!(count(Phase::ApplyBoundaryConstraints), 8);
    assert_eq!(count(Phase::Integrate), 8);
    assert_eq!(count(Phase::SolveMouseConstraint), 8);
    assert_eq!(count(Phase::SolveStickConstraints), 8);
    assert_eq!(count(Phase::StaticCollisionPass), 8);
    assert_eq!(count(Phase::ApplyTrackedFriction), 8);
}

#[test]
fn every_tick_is_like_the_first() {
    let mut schedule = SubStepSchedule::new();
    let first = run_tick(&mut schedule);
    assert!(schedule.at_tick_start());
    let second = run_tick(&mut schedule);
    let third = run_tick(&mut schedule);
    assert_eq!(first, second);
    assert_eq!(first, third);
}

#[test]
fn the_sub_step_is_counted_from_zero_behind_the_opening() {
    let mut schedule = SubStepSchedule::new();
    for _ in 0..3 {
        assert_eq!(schedule.sub_step(), None);
        schedule.next();
    }
    for step in 0..8 {
        for _ in 0..7 {
            assert_eq!(schedule.sub_step(), Some(step));
            schedule.next();
        }
    }
    assert_eq!(schedule.sub_step(), None);
    assert!(schedule.at_tick_start());
}
