//! Colliders and the decisions of the narrow phase that do not need arithmetic:
//! which pairs interact, which shape test applies, which separating axis carries
//! the contact, and how a correction is shared between two bodies.
//!
//! Scalars appear here as ordinates (see the `geometry` module). This module
//! additionally reads the sign of a penetration depth, so the ordinate `0` has to
//! stand for the scalar zero.

use vstd::prelude::*;

verus! {

/// The outline of a collider, with its extents as ordinates.
#[derive(Clone, Copy, Debug, PartialEq, Eq, Structural)]
pub enum Shape {
    Circle { radius: i64 },
    /// `width` and `height` are half extents, measured from the centre.
    Box { width: i64, height: i64 },
}

/// Marks a collider that never moves and may therefore enter the spatial index.
#[derive(Clone, Copy, Debug, PartialEq, Eq, Structural)]
pub struct StaticCollider;

/// A shape with its collision layers.
///
/// `layer` says on which layers the collider lies, `layer_mask` which layers it
/// reacts to. A `trigger` collider is tracked on contact but never pushes back.
#[derive(Clone, Copy, Debug, PartialEq, Eq, Structural)]
pub struct Collider {
    pub shape: Shape,
    pub layer: u32,
    pub layer_mask: u32,
    pub trigger: bool,
}

impl Collider {
    /// Two colliders interact when each one's mask meets the other's layer.
    pub open spec fn layers_meet(self, other: Collider) -> bool {
        (self.layer_mask & other.layer) != 0 && (other.layer_mask & self.layer) != 0
    }

    /// Tells whether a contact between the two colliders is to be looked at.
    pub fn interacts_with(&self, other: &Collider) -> (meet: bool)
        ensures
            meet == self.layers_meet(*other),
    {
        (self.layer_mask & other.layer) != 0 && (other.layer_mask & self.layer) != 0
    }
}

/// The layer rule does not depend on which collider is asked.
pub proof fn lemma_layers_meet_symmetric(a: Collider, b: Collider)
    ensures
        a.layers_meet(b) == b.layers_meet(a),
{
}

/// What a contact of a body with a static collider leads to.
#[derive(Clone, Copy, Debug, PartialEq, Eq, Structural)]
pub struct StaticContact {
    /// The body is moved out of the static collider.
    pub moves: bool,
    /// The contact enters the collision history of the body.
    pub recorded: bool,
}

/// Decides what a contact of a body with a static collider leads to.
///
/// Colliders whose layers do not meet do not interact at all. Where they meet
/// the contact is recorded. The body is moved out only by a collider that is no
/// trigger, and only if it is not fixed; the static collider never gives way.
pub fn static_contact(body: &Collider, body_fixed: bool, other: &Collider) -> (response:
    StaticContact)
    ensures
        response.recorded == body.layers_meet(*other),
        response.moves == (body.layers_meet(*other) && !other.trigger && !body_fixed),
{
    let meet = body.interacts_with(other);
    StaticContact { moves: meet && !other.trigger && !body_fixed, recorded: meet }
}

/// A static contact never moves a fixed body and never moves a body out of a
/// trigger, and whatever it moves it also records. A body that it moves takes the
/// whole correction: its share against a counterpart that does not give way.
pub proof fn lemma_static_contact_spares_fixed_bodies(
    response: StaticContact,
    body: Collider,
    body_fixed: bool,
    other: Collider,
    share: Share,
    rest: Share,
)
    requires
        response.recorded == body.layers_meet(other),
        response.moves == (body.layers_meet(other) && !other.trigger && !body_fixed),
        splits_by_mobility(share, rest, body_fixed, true),
    ensures
        body_fixed ==> !response.moves,
        other.trigger ==> !response.moves,
        response.moves ==> response.recorded,
        response.moves ==> share.numerator == share.denominator && rest.numerator == 0,
{
}

/// The shape test that settles whether two colliders touch, with its operands.
#[derive(Clone, Copy, Debug, PartialEq, Eq, Structural)]
pub enum NarrowPhase {
    /// Two circles: compare the distance of the centres with the sum of the radii.
    CircleCircle { radius_a: i64, radius_b: i64 },
    /// A circle against a box. The test takes the circle's centre first; where
    /// `swapped` holds the circle is the second collider of the pair, and the
    /// resulting correction and normal are handed on as they come out.
    CircleBox { radius: i64, width: i64, height: i64, swapped: bool },
    /// No test exists for the pair: it never collides.
    Unsupported,
}

/// The test that `calc_collision` chooses for a pair of shapes.
pub open spec fn narrow_phase_of(a: Shape, b: Shape) -> NarrowPhase {
    match (a, b) {
        (Shape::Circle { radius: ra }, Shape::Circle { radius: rb }) => NarrowPhase::CircleCircle {
            radius_a: ra,
            radius_b: rb,
        },
        (Shape::Circle { radius }, Shape::Box { width, height }) => NarrowPhase::CircleBox {
            radius,
            width,
            height,
            swapped: false,
        },
        (Shape::Box { width, height }, Shape::Circle { radius }) => NarrowPhase::CircleBox {
            radius,
            width,
            height,
            swapped: true,
        },
        (Shape::Box { .. }, Shape::Box { .. }) => NarrowPhase::Unsupported,
    }
}

/// Chooses the shape test for a pair of colliders.
pub fn calc_collision(a_col: &Collider, b_col: &Collider) -> (test: NarrowPhase)
    ensures
        test == narrow_phase_of(a_col.shape, b_col.shape),
{
    match (a_col.shape, b_col.shape) {
        (Shape::Circle { radius: ra }, Shape::Circle { radius: rb }) => NarrowPhase::CircleCircle {
            radius_a: ra,
            radius_b: rb,
        },
        (Shape::Circle { radius }, Shape::Box { width, height }) => NarrowPhase::CircleBox {
            radius,
            width,
            height,
            swapped: false,
        },
        (Shape::Box { width, height }, Shape::Circle { radius }) => NarrowPhase::CircleBox {
            radius,
            width,
            height,
            swapped: true,
        },
        (Shape::Box { .. }, Shape::Box { .. }) => NarrowPhase::Unsupported,
    }
}

/// Picks the contact axis of a circle-box test from the penetration depths along
/// its three candidate axes.
///
/// There is a contact only if the shapes overlap along every axis, that is if all
/// depths are positive. The contact axis is then the one of least depth, the
/// first of them where several tie.
pub fn select_contact_axis(depths: [i64; 3]) -> (axis: Option<usize>)
    ensures
        axis is Some <==> depths[0] > 0 && depths[1] > 0 && depths[2] > 0,
        axis matches Some(k) ==> {
            &&& k < 3
            &&& forall|i: int| 0 <= i < 3 ==> depths[k as int] <= #[trigger] depths[i]
            &&& forall|i: int| 0 <= i < k ==> #[trigger] depths[i] > depths[k as int]
        },
{
    let mut best: usize = 0;
    let mut i: usize = 0;
    while i < 3
        invariant
            i <= 3,
            best < 3,
            i == 0 ==> best == 0,
            i > 0 ==> best < i,
            forall|j: int| 0 <= j < i ==> depths[j] >= 0,
            forall|j: int| 0 <= j < i ==> depths[best as int] <= #[trigger] depths[j],
            forall|j: int| 0 <= j < best ==> #[trigger] depths[j] > depths[best as int],
        decreases 3 - i,
    {
        if depths[i] < depths[best] {
            best = i;
        }
        if depths[best] < 0 {
            return None;
        }
        i = i + 1;
    }
    if depths[best] > 0 {
        Some(best)
    } else {
        None
    }
}

/// A part of a positional correction, as a fraction.
#[derive(Clone, Copy, Debug, PartialEq, Eq, Structural)]
pub struct Share {
    pub numerator: u8,
    pub denominator: u8,
}

/// The weight with which a body takes part in a correction: a fixed body has
/// none, every other body has one unit.
pub open spec fn mobility(fixed: bool) -> u8 {
    if fixed {
        0
    } else {
        1
    }
}

/// The two shares are the parts that two bodies of the given kinds take of a
/// correction: each body's mobility over the sum of both.
pub open spec fn splits_by_mobility(a: Share, b: Share, a_fixed: bool, b_fixed: bool) -> bool {
    &&& a.numerator == mobility(a_fixed)
    &&& b.numerator == mobility(b_fixed)
    &&& a.denominator == mobility(a_fixed) + mobility(b_fixed)
    &&& b.denominator == a.denominator
}

/// Splits a correction between two bodies in proportion to their mobility.
///
/// Each body's share is its own mobility over the sum of both. Where both bodies
/// are fixed there is nothing to split, and the pair is skipped. A static
/// collider counts as fixed: a free body that runs into one takes the whole
/// correction.
pub fn correction_shares(a_fixed: bool, b_fixed: bool) -> (shares: Option<(Share, Share)>)
    ensures
        shares is None <==> a_fixed && b_fixed,
        shares matches Some((a, b)) ==> splits_by_mobility(a, b, a_fixed, b_fixed),
{
    let ma: u8 = if a_fixed {
        0
    } else {
        1
    };
    let mb: u8 = if b_fixed {
        0
    } else {
        1
    };
    let total: u8 = ma + mb;
    if total == 0 {
        None
    } else {
        Some((Share { numerator: ma, denominator: total }, Share { numerator: mb, denominator: total }))
    }
}

/// A fixed body takes no part of a correction, and the two shares of a
/// correction make up the whole of it.
pub proof fn lemma_shares_spare_fixed_bodies(a: Share, b: Share, a_fixed: bool, b_fixed: bool)
    requires
        splits_by_mobility(a, b, a_fixed, b_fixed),
        !(a_fixed && b_fixed),
    ensures
        a_fixed ==> a.numerator == 0,
        b_fixed ==> b.numerator == 0,
        a.denominator == b.denominator,
        a.denominator > 0,
        a.numerator + b.numerator == a.denominator,
{
}

/// How the correction of a stick is split between its two ends.
#[derive(Clone, Copy, Debug, PartialEq, Eq, Structural)]
pub enum StickSplit {
    /// Each end takes the share that its mobility gives it.
    ByMobility(Share, Share),
    /// The ends take the parts that the stick's own ratio names.
    ByRatio,
}

/// Decides how a stick corrects its two ends.
///
/// A stick between two fixed bodies does nothing. A stick may carry a ratio of
/// its own, which then replaces the even split between two free bodies. A fixed
/// end never takes part, with or without a ratio: the other end then takes the
/// whole correction.
pub fn stick_split(a_fixed: bool, b_fixed: bool, has_ratio: bool) -> (split: Option<StickSplit>)
    ensures
        split is None <==> a_fixed && b_fixed,
        split == Some(StickSplit::ByRatio) <==> !a_fixed && !b_fixed && has_ratio,
        split matches Some(StickSplit::ByMobility(a, b)) ==> splits_by_mobility(
            a,
            b,
            a_fixed,
            b_fixed,
        ),
{
    match correction_shares(a_fixed, b_fixed) {
        None => None,
        Some((a, b)) => {
            if has_ratio && !a_fixed && !b_fixed {
                Some(StickSplit::ByRatio)
            } else {
                Some(StickSplit::ByMobility(a, b))
            }
        },
    }
}

} // verus!
