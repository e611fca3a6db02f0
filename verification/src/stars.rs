//! Showing an average as a row of stars, and as a number with two decimals.

use crate::rating::{in_range, Rating, UNITS_PER_POINT};
use crate::text::push_char;
use vstd::prelude::*;

verus! {

/// The glyph of one full star.
pub const FULL_STAR: char = '\u{2605}';

/// The glyph of half a star.
pub const HALF_STAR: char = '\u{bd}';

/// The largest part of a point, in units, that earns no glyph: 0.39.
pub const NO_GLYPH_UP_TO: i64 = 390_000_000;

/// The largest part of a point, in units, that earns half a star: 0.74.
pub const HALF_STAR_UP_TO: i64 = 740_000_000;

/// How many units make up one hundredth of a point.
pub const UNITS_PER_HUNDREDTH: u64 = 10_000_000;

/// The whole points of a score: the largest whole number that is not above it.
pub open spec fn whole_points(units: int) -> int {
    units / (UNITS_PER_POINT as int)
}

/// What a score has above its whole points, in units: never negative, always
/// less than a point.
pub open spec fn part_of_point(units: int) -> int {
    units % (UNITS_PER_POINT as int)
}

/// The glyph that a part of a point earns. Up to 0.39, that bound included,
/// it earns none; above 0.39 and up to 0.74 half a star; above 0.74 a full
/// star.
pub open spec fn part_glyph(part: int) -> Seq<char> {
    if part <= NO_GLYPH_UP_TO {
        Seq::empty()
    } else if part <= HALF_STAR_UP_TO {
        seq![HALF_STAR]
    } else {
        seq![FULL_STAR]
    }
}

/// `count` full stars in a row; none if `count` is below one.
pub open spec fn full_stars(count: int) -> Seq<char> {
    Seq::new(
        if count > 0 {
            count as nat
        } else {
            0
        },
        |i: int| FULL_STAR,
    )
}

/// The row of stars for a score: one full star for each whole point, then
/// the glyph that the rest earns.
pub open spec fn star_row(units: int) -> Seq<char> {
    full_stars(whole_points(units)) + part_glyph(part_of_point(units))
}

/// The character that writes the digit `d`.
pub open spec fn digit_char(d: int) -> char {
    (('0' as u8) + (d as u8)) as char
}

/// `n` written in decimal, without leading zeros; zero is written "0".
pub open spec fn decimal_text(n: nat) -> Seq<char>
    decreases n,
{
    if n < 10 {
        seq![digit_char(n as int)]
    } else {
        decimal_text(n / 10).push(digit_char((n % 10) as int))
    }
}

/// The size of a score, whatever its sign, in units.
pub open spec fn magnitude(units: int) -> nat {
    if units >= 0 {
        units as nat
    } else {
        (-units) as nat
    }
}

/// A count of units in hundredths of a point, rounded to the nearest
/// hundredth; a count exactly between two goes to the even one.
pub open spec fn nearest_hundredth(size: nat) -> nat {
    let below = size / (UNITS_PER_HUNDREDTH as nat);
    let rest = size % (UNITS_PER_HUNDREDTH as nat);
    if 2 * rest > UNITS_PER_HUNDREDTH || (2 * rest == UNITS_PER_HUNDREDTH && below % 2 == 1) {
        below + 1
    } else {
        below
    }
}

/// A score written with exactly two decimals: a minus sign if it is below
/// zero, its whole part, a point, and two digits.
pub open spec fn two_decimals(units: int) -> Seq<char> {
    let hundredths = nearest_hundredth(magnitude(units));
    let sign = if units < 0 {
        seq!['-']
    } else {
        Seq::empty()
    };
    sign + decimal_text(hundredths / 100).push('.').push(
        digit_char((hundredths / 10 % 10) as int),
    ).push(digit_char((hundredths % 10) as int))
}

/// Splits a score into its whole points and the rest.
fn split_points(units: i64) -> (parts: (i64, i64))
    ensures
        parts.0 == whole_points(units as int),
        parts.1 == part_of_point(units as int),
        0 <= parts.1 < UNITS_PER_POINT,
{
    if units >= 0 {
        (units / UNITS_PER_POINT, units % UNITS_PER_POINT)
    } else {
        let under: i64 = -(units + 1);
        let whole: i64 = -(under / UNITS_PER_POINT) - 1;
        let part: i64 = UNITS_PER_POINT - 1 - under % UNITS_PER_POINT;
        proof {
            vstd::arithmetic::div_mod::lemma_fundamental_div_mod(
                under as int,
                UNITS_PER_POINT as int,
            );
            vstd::arithmetic::div_mod::lemma_fundamental_div_mod_converse(
                units as int,
                UNITS_PER_POINT as int,
                whole as int,
                part as int,
            );
        }
        (whole, part)
    }
}

/// Shows `average` as a row of stars.
pub fn convert_to_star_rating(average: Rating) -> (stars: String)
    ensures
        stars@ == star_row(average.units as int),
{
    let (whole, part) = split_points(average.units);
    let mut stars = String::new();
    let mut i: i64 = 0;
    while i < whole
        invariant
            0 <= i,
            i <= whole || whole < 0,
            stars@ == full_stars(if whole < 0 {
                0
            } else {
                i as int
            }),
        decreases whole - i,
    {
        push_char(&mut stars, FULL_STAR);
        assert(full_stars(i as int).push(FULL_STAR) == full_stars(i + 1));
        i += 1;
    }
    assert(stars@ == full_stars(whole as int));
    if part > HALF_STAR_UP_TO {
        push_char(&mut stars, FULL_STAR);
        assert(stars@ == full_stars(whole as int) + seq![FULL_STAR]);
    } else if part > NO_GLYPH_UP_TO {
        push_char(&mut stars, HALF_STAR);
        assert(stars@ == full_stars(whole as int) + seq![HALF_STAR]);
    } else {
        assert(stars@ == full_stars(whole as int) + Seq::<char>::empty());
    }
    stars
}

/// The character that writes the digit `d`.
fn char_of_digit(d: u64) -> (c: char)
    requires
        d < 10,
    ensures
        c == digit_char(d as int),
{
    (('0' as u8) + (d as u8)) as char
}

/// Appends `n`, written in decimal, to `text`.
fn push_decimal(text: &mut String, n: u64)
    ensures
        final(text)@ == old(text)@ + decimal_text(n as nat),
    decreases n,
{
    if n >= 10 {
        push_decimal(text, n / 10);
    }
    push_char(text, char_of_digit(n % 10));
    assert(old(text)@ + decimal_text(n as nat) == final(text)@);
}

/// Writes `rating` with exactly two decimals.
pub fn format_two_decimals(rating: Rating) -> (text: String)
    ensures
        text@ == two_decimals(rating.units as int),
{
    let size: u64 = if rating.units >= 0 {
        rating.units as u64
    } else {
        (-(rating.units + 1)) as u64 + 1
    };
    let below: u64 = size / UNITS_PER_HUNDREDTH;
    let rest: u64 = size % UNITS_PER_HUNDREDTH;
    let hundredths: u64 = if 2 * rest > UNITS_PER_HUNDREDTH || (2 * rest == UNITS_PER_HUNDREDTH
        && below % 2 == 1) {
        below + 1
    } else {
        below
    };
    let mut text = String::new();
    if rating.units < 0 {
        push_char(&mut text, '-');
    }
    let ghost sign = text@;
    push_decimal(&mut text, hundredths / 100);
    push_char(&mut text, '.');
    push_char(&mut text, char_of_digit(hundredths / 10 % 10));
    push_char(&mut text, char_of_digit(hundredths % 10));
    assert(text@ == sign + decimal_text((hundredths / 100) as nat).push('.').push(
        digit_char((hundredths / 10 % 10) as int),
    ).push(digit_char((hundredths % 10) as int)));
    text
}

/// An average on the scale is shown with at least one glyph and at most
/// five.
pub proof fn stars_on_the_scale(units: int)
    requires
        in_range(units),
    ensures
        1 <= star_row(units).len() <= 5,
{
    let whole = whole_points(units);
    let part = part_of_point(units);
    vstd::arithmetic::div_mod::lemma_fundamental_div_mod(units, UNITS_PER_POINT as int);
    assert(0 <= whole <= 5 && (whole == 5 ==> part == 0) && (whole == 0 ==> part >= 500_000_000))
        by (nonlinear_arith)
        requires
            units == 1_000_000_000 * whole + part,
            0 <= part < 1_000_000_000,
            500_000_000 <= units <= 5_000_000_000,
    ;
}

/// The row of stars depends on the average alone: the same average is always
/// shown by the same row.
pub proof fn same_average_same_stars(first: Rating, second: Rating)
    requires
        first.units == second.units,
    ensures
        first == second,
        star_row(first.units as int) == star_row(second.units as int),
        two_decimals(first.units as int) == two_decimals(second.units as int),
{
}

} // verus!
