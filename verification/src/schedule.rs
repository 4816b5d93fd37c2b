//! The order of the physics passes within a fixed tick.
//!
//! A tick opens with three passes and then runs the same seven passes eight
//! times over, once per sub-step. Gravity is applied in the opening and again
//! in every sub-step, and the accumulated acceleration is cleared only once per
//! tick, so a tick applies gravity nine times.

use vstd::prelude::*;

verus! {

/// A pass over the bodies of the simulation.
#[derive(Clone, Copy, Debug, PartialEq, Eq, Structural)]
pub enum Phase {
    ResetForces,
    ResetCollisionHistory,
    ApplyGravity,
    ApplyBoundaryConstraints,
    Integrate,
    SolveMouseConstraint,
    SolveStickConstraints,
    StaticCollisionPass,
    ApplyTrackedFriction,
}

/// The number of sub-steps in a tick.
pub const SUB_STEPS: usize = 8;

/// The number of passes that open a tick.
pub const OPENING_PASSES: usize = 3;

/// The number of passes in a sub-step.
pub const SUB_STEP_PASSES: usize = 7;

/// The number of passes in a tick.
pub const TICK_PASSES: usize = 59;

/// The pass at place `i` of the opening of a tick.
pub open spec fn opening_phase(i: int) -> Phase {
    if i == 0 {
        Phase::ResetForces
    } else if i == 1 {
        Phase::ResetCollisionHistory
    } else {
        Phase::ApplyGravity
    }
}

/// The pass at place `i` of a sub-step.
pub open spec fn sub_step_phase(i: int) -> Phase {
    if i == 0 {
        Phase::ApplyGravity
    } else if i == 1 {
        Phase::ApplyBoundaryConstraints
    } else if i == 2 {
        Phase::Integrate
    } else if i == 3 {
        Phase::SolveMouseConstraint
    } else if i == 4 {
        Phase::SolveStickConstraints
    } else if i == 5 {
        Phase::StaticCollisionPass
    } else {
        Phase::ApplyTrackedFriction
    }
}

/// The pass at place `position` of a tick.
pub open spec fn phase_at(position: int) -> Phase {
    if position < OPENING_PASSES {
        opening_phase(position)
    } else {
        sub_step_phase((position - OPENING_PASSES) % (SUB_STEP_PASSES as int))
    }
}

/// How often `phase` is run in the first `n` places of a tick.
pub open spec fn occurrences(phase: Phase, n: nat) -> nat
    decreases n,
{
    if n == 0 {
        0
    } else {
        occurrences(phase, (n - 1) as nat) + if phase_at(n - 1) == phase {
            1nat
        } else {
            0nat
        }
    }
}

/// How often `phase` is run in the opening of a tick.
pub open spec fn opening_occurrences(phase: Phase) -> nat {
    match phase {
        Phase::ResetForces | Phase::ResetCollisionHistory | Phase::ApplyGravity => 1,
        _ => 0,
    }
}

/// How often `phase` is run in one sub-step.
pub open spec fn sub_step_occurrences(phase: Phase) -> nat {
    match phase {
        Phase::ResetForces | Phase::ResetCollisionHistory => 0,
        _ => 1,
    }
}

proof fn lemma_occurrences_in_sub_step(phase: Phase, start: int)
    requires
        start >= OPENING_PASSES,
        (start - OPENING_PASSES) % 7 == 0,
    ensures
        occurrences(phase, (start + 7) as nat) == occurrences(phase, start as nat)
            + sub_step_occurrences(phase),
{
    assert(phase_at(start) == Phase::ApplyGravity);
    assert(phase_at(start + 1) == Phase::ApplyBoundaryConstraints);
    assert(phase_at(start + 2) == Phase::Integrate);
    assert(phase_at(start + 3) == Phase::SolveMouseConstraint);
    assert(phase_at(start + 4) == Phase::SolveStickConstraints);
    assert(phase_at(start + 5) == Phase::StaticCollisionPass);
    assert(phase_at(start + 6) == Phase::ApplyTrackedFriction);
    let first = occurrences(phase, start as nat);
    let one: nat = if phase == Phase::ApplyGravity { 1 } else { 0 };
    let two: nat = if phase == Phase::ApplyBoundaryConstraints { 1 } else { 0 };
    let three: nat = if phase == Phase::Integrate { 1 } else { 0 };
    let four: nat = if phase == Phase::SolveMouseConstraint { 1 } else { 0 };
    let five: nat = if phase == Phase::SolveStickConstraints { 1 } else { 0 };
    let six: nat = if phase == Phase::StaticCollisionPass { 1 } else { 0 };
    let seven: nat = if phase == Phase::ApplyTrackedFriction { 1 } else { 0 };
    assert(occurrences(phase, (start + 1) as nat) == first + one);
    assert(occurrences(phase, (start + 2) as nat) == first + one + two);
    assert(occurrences(phase, (start + 3) as nat) == first + one + two + three);
    assert(occurrences(phase, (start + 4) as nat) == first + one + two + three + four);
    assert(occurrences(phase, (start + 5) as nat) == first + one + two + three + four + five);
    assert(occurrences(phase, (start + 6) as nat) == first + one + two + three + four + five
        + six);
    assert(occurrences(phase, (start + 7) as nat) == first + one + two + three + four + five + six
        + seven);
}

/// After the opening and `k` whole sub-steps, a pass has run as often as the
/// opening holds it, and `k` times as often as a sub-step holds it.
pub proof fn lemma_occurrences_after_sub_steps(phase: Phase, k: nat)
    ensures
        occurrences(phase, (OPENING_PASSES + SUB_STEP_PASSES * k) as nat) == opening_occurrences(
            phase,
        ) + k * sub_step_occurrences(phase),
    decreases k,
{
    if k == 0 {
        assert(occurrences(phase, 0) == 0);
        assert(occurrences(phase, 1) == if phase == Phase::ResetForces { 1nat } else { 0nat });
        assert(occurrences(phase, 2) == occurrences(phase, 1) + if phase
            == Phase::ResetCollisionHistory { 1nat } else { 0nat });
        assert(occurrences(phase, 3) == occurrences(phase, 2) + if phase == Phase::ApplyGravity {
            1nat
        } else {
            0nat
        });
    } else {
        lemma_occurrences_after_sub_steps(phase, (k - 1) as nat);
        let start: int = OPENING_PASSES + SUB_STEP_PASSES * (k - 1);
        assert(OPENING_PASSES + SUB_STEP_PASSES * k == start + 7);
        assert((7 * (k - 1)) % 7 == 0);
        lemma_occurrences_in_sub_step(phase, start);
        assert(k * sub_step_occurrences(phase) == (k - 1) * sub_step_occurrences(phase)
            + sub_step_occurrences(phase)) by (nonlinear_arith);
    }
}

/// A tick clears the forces and turns the collision history over once, applies
/// gravity nine times, and runs every other pass once per sub-step.
pub proof fn lemma_occurrences_in_tick(phase: Phase)
    ensures
        occurrences(phase, TICK_PASSES as nat) == match phase {
            Phase::ResetForces | Phase::ResetCollisionHistory => 1nat,
            Phase::ApplyGravity => 9nat,
            _ => 8nat,
        },
{
    lemma_occurrences_after_sub_steps(phase, SUB_STEPS as nat);
}

/// The place of the simulation within its tick.
pub struct SubStepSchedule {
    position: usize,
}

impl SubStepSchedule {
    #[verifier::type_invariant]
    spec fn in_tick(self) -> bool {
        self.position < TICK_PASSES
    }

    /// The number of passes of the current tick that have been handed out.
    pub closed spec fn position(&self) -> int {
        self.position as int
    }

    /// A schedule that stands at the start of a tick.
    pub fn new() -> (schedule: Self)
        ensures
            schedule.position() == 0,
    {
        SubStepSchedule { position: 0 }
    }

    /// Hands out the pass that is due and moves on; behind the last pass of a
    /// tick comes the first one of the next.
    pub fn next(&mut self) -> (phase: Phase)
        ensures
            0 <= old(self).position() < TICK_PASSES,
            phase == phase_at(old(self).position()),
            final(self).position() == (old(self).position() + 1) % (TICK_PASSES as int),
    {
        proof {
            use_type_invariant(&*self);
        }
        let position = self.position;
        let phase = if position == 0 {
            Phase::ResetForces
        } else if position == 1 {
            Phase::ResetCollisionHistory
        } else if position == 2 {
            Phase::ApplyGravity
        } else {
            let place: usize = (position - OPENING_PASSES) % SUB_STEP_PASSES;
            if place == 0 {
                Phase::ApplyGravity
            } else if place == 1 {
                Phase::ApplyBoundaryConstraints
            } else if place == 2 {
                Phase::Integrate
            } else if place == 3 {
                Phase::SolveMouseConstraint
            } else if place == 4 {
                Phase::SolveStickConstraints
            } else if place == 5 {
                Phase::StaticCollisionPass
            } else {
                Phase::ApplyTrackedFriction
            }
        };
        self.position = if position + 1 == TICK_PASSES {
            0
        } else {
            position + 1
        };
        phase
    }

    /// Tells whether a tick is complete, so that the pass due is the first one
    /// of a tick.
    pub fn at_tick_start(&self) -> (fresh: bool)
        ensures
            fresh == (self.position() == 0),
    {
        self.position == 0
    }

    /// The sub-step that the pass due belongs to, counted from zero, or `None`
    /// in the opening of a tick.
    pub fn sub_step(&self) -> (index: Option<usize>)
        ensures
            0 <= self.position() < TICK_PASSES,
            self.position() < OPENING_PASSES ==> index is None,
            self.position() >= OPENING_PASSES ==> index == Some(
                ((self.position() - OPENING_PASSES) / (SUB_STEP_PASSES as int)) as usize,
            ),
            index matches Some(i) ==> i < SUB_STEPS,
    {
        proof {
            use_type_invariant(self);
        }
        if self.position < OPENING_PASSES {
            None
        } else {
            Some((self.position - OPENING_PASSES) / SUB_STEP_PASSES)
        }
    }
}

} // verus!
