//! The rating scale: what a score is, and which scores are accepted.

use vstd::prelude::*;

verus! {

/// How many units make up one point of the scale.
pub const UNITS_PER_POINT: i64 = 1_000_000_000;

/// One tenth of a point, in units.
pub const UNITS_PER_TENTH: i64 = 100_000_000;

/// The lowest score of the scale, half a point.
pub const LOWEST_UNITS: i64 = 500_000_000;

/// The highest score of the scale, five points.
pub const HIGHEST_UNITS: i64 = 5_000_000_000;

/// A score in fixed point: `units` billionths of a point.
///
/// Any count is a score; whether it is an acceptable rating is a separate
/// question, answered by [`is_valid_rating`].
#[derive(Clone, Copy, Debug, PartialEq, Eq, Structural)]
pub struct Rating {
    pub units: i64,
}

/// The score lies on the scale, bounds included.
pub open spec fn in_range(units: int) -> bool {
    LOWEST_UNITS <= units <= HIGHEST_UNITS
}

/// The score in tenths of a point, rounded to the nearest tenth; a score
/// exactly between two tenths goes to the upper one.
pub open spec fn nearest_tenth(units: int) -> int {
    (units + UNITS_PER_TENTH / 2) / (UNITS_PER_TENTH as int)
}

/// The score, rounded to the nearest tenth, is a whole number of half points.
pub open spec fn on_half_step(units: int) -> bool {
    nearest_tenth(units) % 5 == 0
}

/// The rule of the scale: a score is accepted when it lies in range and,
/// unless the scale is flexible, on a half step.
pub open spec fn valid_rating(units: int, flexible: bool) -> bool {
    in_range(units) && (flexible || on_half_step(units))
}

impl Rating {
    /// The score of `tenths` tenths of a point.
    pub fn from_tenths(tenths: i32) -> (r: Rating)
        ensures
            r.units == tenths * UNITS_PER_TENTH,
    {
        let wide: i64 = tenths as i64;
        Rating { units: wide * UNITS_PER_TENTH }
    }
}

/// Decides whether `rating` is accepted on the scale.
pub fn is_valid_rating(rating: Rating, flexible: bool) -> (valid: bool)
    ensures
        valid == valid_rating(rating.units as int, flexible),
{
    if rating.units < LOWEST_UNITS || rating.units > HIGHEST_UNITS {
        return false;
    }
    if flexible {
        return true;
    }
    let tenths: i64 = (rating.units + UNITS_PER_TENTH / 2) / UNITS_PER_TENTH;
    tenths % 5 == 0
}

/// Every whole number of half points on the scale is accepted, in either mode.
pub proof fn half_points_are_valid(units: int, flexible: bool)
    requires
        in_range(units),
        units % (UNITS_PER_POINT / 2) == 0,
    ensures
        valid_rating(units, flexible),
{
    let k = units / (UNITS_PER_POINT / 2);
    assert(units == k * 500_000_000);
    assert(units + 50_000_000 == (5 * k) * 100_000_000 + 50_000_000);
    assert((units + 50_000_000) / 100_000_000 == 5 * k) by (nonlinear_arith)
        requires
            units + 50_000_000 == (5 * k) * 100_000_000 + 50_000_000,
    ;
}

/// Whatever the strict scale accepts, the flexible scale accepts too.
pub proof fn flexible_accepts_more(units: int)
    requires
        valid_rating(units, false),
    ensures
        valid_rating(units, true),
{
}

/// A score is on a half step exactly when some whole number of half points
/// lies at most half a tenth above it and less than half a tenth below it.
pub proof fn half_step_window(units: int)
    ensures
        on_half_step(units) <==> exists|k: int|
            k * 500_000_000 - 50_000_000 <= units < #[trigger] (k * 500_000_000) + 50_000_000,
{
    let t = nearest_tenth(units);
    assert(t * 100_000_000 <= units + 50_000_000 < t * 100_000_000 + 100_000_000) by (nonlinear_arith)
        requires
            t == (units + 50_000_000) / 100_000_000,
    ;
    if on_half_step(units) {
        let k = t / 5;
        assert(t == 5 * k);
        assert(k * 500_000_000 - 50_000_000 <= units < (k * 500_000_000) + 50_000_000);
    }
    if exists|k: int|
        k * 500_000_000 - 50_000_000 <= units < #[trigger] (k * 500_000_000) + 50_000_000 {
        let k = choose|k: int|
            k * 500_000_000 - 50_000_000 <= units < #[trigger] (k * 500_000_000) + 50_000_000;
        assert((5 * k) * 100_000_000 <= units + 50_000_000 < (5 * k) * 100_000_000 + 100_000_000);
        assert(t == 5 * k) by (nonlinear_arith)
            requires
                (5 * k) * 100_000_000 <= units + 50_000_000 < (5 * k) * 100_000_000 + 100_000_000,
                t * 100_000_000 <= units + 50_000_000 < t * 100_000_000 + 100_000_000,
        ;
    }
}

} // verus!
