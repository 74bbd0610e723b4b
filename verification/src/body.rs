//! What a new body starts with, as far as it is a whole number, and what
//! happens to a body at the walls of the world.
use rand::rngs::StdRng;
use rand::Rng;
use vstd::prelude::*;

verus! {

/// What happens to a body that leaves the world.
#[derive(Clone, Copy, Debug, PartialEq, Eq, Structural)]
pub enum Boundary {
    /// The walls are elastic: the body is put on the wall it crossed, and
    /// its velocity along that axis is reversed.
    Reflect,
    /// The world is periodic: the body comes back in at the opposite wall,
    /// at the same velocity.
    Wrap,
}

/// Where a coordinate lies on its axis of the world.
#[derive(Clone, Copy, Debug, PartialEq, Eq, Structural)]
pub enum Side {
    /// Below zero.
    Below,
    /// From zero to the axis maximum.
    Within,
    /// Above the axis maximum.
    Above,
}

/// Where a coordinate is put.
#[derive(Clone, Copy, Debug, PartialEq, Eq, Structural)]
pub enum Place {
    /// It stays as it is.
    Stay,
    /// At zero.
    AtZero,
    /// At the axis maximum.
    AtMax,
}

/// What is done to a body along one axis.
#[derive(Clone, Copy, Debug, PartialEq, Eq, Structural)]
pub struct Correction {
    pub place: Place,
    /// Whether the velocity along the axis is reversed.
    pub flip: bool,
}

/// The side of a coordinate, from whether it is below zero and whether it
/// is above the axis maximum. Below zero comes first.
pub open spec fn spec_side(below_zero: bool, above_max: bool) -> Side {
    if below_zero {
        Side::Below
    } else if above_max {
        Side::Above
    } else {
        Side::Within
    }
}

/// The boundary policy along one axis. A coordinate within the world is
/// left alone, and so is the velocity. Under `Reflect` a coordinate outside
/// is put on the wall it crossed and the velocity is reversed. Under `Wrap`
/// it is put on the opposite wall and the velocity stays.
pub open spec fn spec_bounds(policy: Boundary, side: Side) -> Correction {
    match (policy, side) {
        (_, Side::Within) => Correction { place: Place::Stay, flip: false },
        (Boundary::Reflect, Side::Below) => Correction { place: Place::AtZero, flip: true },
        (Boundary::Reflect, Side::Above) => Correction { place: Place::AtMax, flip: true },
        (Boundary::Wrap, Side::Below) => Correction { place: Place::AtMax, flip: false },
        (Boundary::Wrap, Side::Above) => Correction { place: Place::AtZero, flip: false },
    }
}

/// The side of a coordinate, from whether it is below zero and whether it
/// is above the axis maximum.
pub fn side(below_zero: bool, above_max: bool) -> (s: Side)
    ensures
        s == spec_side(below_zero, above_max),
{
    if below_zero {
        Side::Below
    } else if above_max {
        Side::Above
    } else {
        Side::Within
    }
}

/// What the boundary policy does to a body along one axis, on which its
/// coordinate lies on `side`.
pub fn bounds(policy: Boundary, side: Side) -> (c: Correction)
    ensures
        c == spec_bounds(policy, side),
{
    match side {
        Side::Within => Correction { place: Place::Stay, flip: false },
        Side::Below => match policy {
            Boundary::Reflect => Correction { place: Place::AtZero, flip: true },
            Boundary::Wrap => Correction { place: Place::AtMax, flip: false },
        },
        Side::Above => match policy {
            Boundary::Reflect => Correction { place: Place::AtMax, flip: true },
            Boundary::Wrap => Correction { place: Place::AtZero, flip: false },
        },
    }
}

/// The least mass of a new body.
pub const MASS_MIN: u32 = 1;

/// The bound below which the mass of a new body lies.
pub const MASS_BOUND: u32 = 100;

/// The seedable generator `rand::rngs::StdRng`, from which the random
/// start of a simulation is drawn. Nothing is known of its state.
#[verifier::external_type_specification]
#[verifier::external_body]
pub struct ExStdRng(StdRng);

/// Draws a number from `low` up to, but not including, `high`.
///
/// Calls `rand::Rng::gen_range` on `rng` with the half-open range
/// `low..high`. Trusted: that the call returns a number of the range it is
/// given. It panics on an empty range, which the precondition rules out.
/// Nothing is claimed of which number is drawn, nor of the generator
/// afterwards.
#[verifier::external_body]
fn gen_below(rng: &mut StdRng, low: u32, high: u32) -> (r: u32)
    requires
        low < high,
    ensures
        low <= r < high,
{
    rng.gen_range(low..high)
}

/// The mass of a new body: a whole number drawn from `MASS_MIN` up to, but
/// not including, `MASS_BOUND`.
pub fn random_mass(rng: &mut StdRng) -> (m: u32)
    ensures
        MASS_MIN <= m < MASS_BOUND,
{
    gen_below(rng, MASS_MIN, MASS_BOUND)
}

} // verus!
