//! The part of ray clipping that is a matter of signs: on which axes a ray
//! is tried against a box, and which face of the box it can strike on each.
//! The coordinates themselves are floating-point numbers and stay with the
//! caller.

use vstd::prelude::*;

verus! {

/// One of the three axes.
#[derive(Clone, Copy, Debug, PartialEq, Eq, Structural)]
pub enum Axis {
    X,
    Y,
    Z,
}

impl Axis {
    /// Of three values, one per axis, the one that belongs to this axis.
    pub open spec fn picked<T>(&self, x: T, y: T, z: T) -> T {
        match self {
            Axis::X => x,
            Axis::Y => y,
            Axis::Z => z,
        }
    }

    /// Of three values, one per axis, the one that belongs to this axis.
    pub fn pick<T>(&self, x: T, y: T, z: T) -> (r: T)
        ensures
            r == self.picked(x, y, z),
    {
        match self {
            Axis::X => x,
            Axis::Y => y,
            Axis::Z => z,
        }
    }
}

/// The six faces of a box.
#[derive(Clone, Copy, Debug, PartialEq, Eq, Structural)]
pub enum Direction {
    Down,
    Up,
    North,
    South,
    West,
    East,
}

/// How a ray moves along one axis: toward lower coordinates, toward higher
/// ones, or, within the tolerance, not at all.
#[derive(Clone, Copy, Debug, PartialEq, Eq, Structural)]
pub enum Motion {
    Backward,
    Still,
    Forward,
}

/// Where a ray is tried against a box: the axis, the face that it strikes if
/// it hits, and whether that face lies at the box's upper bound on the axis.
#[derive(Clone, Copy, Debug, PartialEq, Eq, Structural)]
pub struct FaceTrial {
    pub axis: Axis,
    pub direction: Direction,
    pub at_max: bool,
}

/// The face that a ray moving along an axis is tried against. A ray toward
/// higher coordinates meets the box at its lower bound, one toward lower
/// coordinates at its upper bound.
pub open spec fn trial_on(axis: Axis, motion: Motion) -> FaceTrial {
    FaceTrial {
        axis,
        direction: match (axis, motion) {
            (Axis::X, Motion::Backward) => Direction::East,
            (Axis::X, _) => Direction::West,
            (Axis::Y, Motion::Backward) => Direction::Up,
            (Axis::Y, _) => Direction::Down,
            (Axis::Z, Motion::Backward) => Direction::North,
            (Axis::Z, _) => Direction::South,
        },
        at_max: motion == Motion::Backward,
    }
}

/// The trial that a ray gets on an axis: none where it does not move along
/// the axis, else the one that `trial_on` names.
pub open spec fn trial_if_moving(axis: Axis, motion: Motion) -> Option<FaceTrial> {
    if motion == Motion::Still {
        None
    } else {
        Some(trial_on(axis, motion))
    }
}

/// The trial that a ray with the given motion gets on one axis.
pub fn axis_trial(axis: Axis, motion: Motion) -> (t: Option<FaceTrial>)
    ensures
        t == trial_if_moving(axis, motion),
{
    let direction = match (axis, motion) {
        (_, Motion::Still) => {
            return None;
        },
        (Axis::X, Motion::Backward) => Direction::East,
        (Axis::X, Motion::Forward) => Direction::West,
        (Axis::Y, Motion::Backward) => Direction::Up,
        (Axis::Y, Motion::Forward) => Direction::Down,
        (Axis::Z, Motion::Backward) => Direction::North,
        (Axis::Z, Motion::Forward) => Direction::South,
    };
    Some(FaceTrial { axis, direction, at_max: motion == Motion::Backward })
}

/// The trials that a ray with the given motions gets, one for each axis
/// along which it moves, for the axes X, Y and Z in this order. The caller
/// tries them all and keeps the nearest crossing that hits.
pub fn face_trial(x: Motion, y: Motion, z: Motion) -> (t: (Option<FaceTrial>, Option<FaceTrial>, Option<FaceTrial>))
    ensures
        t.0 == trial_if_moving(Axis::X, x),
        t.1 == trial_if_moving(Axis::Y, y),
        t.2 == trial_if_moving(Axis::Z, z),
{
    (axis_trial(Axis::X, x), axis_trial(Axis::Y, y), axis_trial(Axis::Z, z))
}

} // verus!
