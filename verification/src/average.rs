//! The average of a set of scores.

use crate::rating::{in_range, Rating};
use rayon::iter::{IntoParallelRefIterator, ParallelIterator};
use vstd::prelude::*;

verus! {

/// The sum of `values`.
pub open spec fn total(values: Seq<i128>) -> int
    decreases values.len(),
{
    if values.len() == 0 {
        0
    } else {
        total(values.drop_last()) + values.last()
    }
}

/// The sum of the scores, in units.
pub open spec fn sum_units(ratings: Seq<Rating>) -> int
    decreases ratings.len(),
{
    if ratings.len() == 0 {
        0
    } else {
        sum_units(ratings.drop_last()) + ratings.last().units
    }
}

/// `sum` divided by `count`, rounded to the nearest whole number; a quotient
/// exactly between two goes to the one farther from zero.
pub open spec fn rounded_quotient(sum: int, count: int) -> int {
    if sum >= 0 {
        (2 * sum + count) / (2 * count)
    } else {
        -((2 * (-sum) + count) / (2 * count))
    }
}

/// The average of the scores in units, rounded to the nearest unit.
pub open spec fn mean_units(ratings: Seq<Rating>) -> int {
    rounded_quotient(sum_units(ratings), ratings.len() as int)
}

/// Adds up `values` with rayon's parallel `sum`, which splits them into runs,
/// adds each run and then the results. With every value in the range of
/// `i64` no run can overflow, and since whole numbers add up the same in any
/// grouping, the result is the sum of them all.
#[verifier::external_body]
fn parallel_sum(values: &Vec<i128>) -> (sum: i128)
    requires
        forall|i: int| 0 <= i < values.len() ==> i64::MIN <= #[trigger] values[i] <= i64::MAX,
    ensures
        sum == total(values@),
{
    values.par_iter().copied().sum()
}

/// Averages `ratings`: nothing for no ratings, else their sum divided by
/// their number, rounded to the nearest unit.
pub fn calculate_average_rating(ratings: &Vec<Rating>) -> (average: Option<Rating>)
    ensures
        match average {
            None => ratings.len() == 0,
            Some(mean) => ratings.len() > 0 && mean.units == mean_units(ratings@),
        },
{
    let count = ratings.len();
    if count == 0 {
        return None;
    }
    let mut values: Vec<i128> = Vec::new();
    let mut i: usize = 0;
    assert(ratings@.take(0).len() == 0);
    while i < count
        invariant
            i <= count == ratings.len(),
            values.len() == i,
            forall|j: int| 0 <= j < i ==> i64::MIN <= #[trigger] values[j] <= i64::MAX,
            total(values@) == sum_units(ratings@.take(i as int)),
            -0x8000_0000_0000_0000 * i <= total(values@) <= 0x7fff_ffff_ffff_ffff * i,
        decreases count - i,
    {
        let ghost before = values@;
        values.push(ratings[i].units as i128);
        proof {
            assert(values@.drop_last() == before);
            assert(ratings@.take(i + 1).drop_last() == ratings@.take(i as int));
            assert(ratings@.take(i + 1).last() == ratings@[i as int]);
        }
        i += 1;
    }
    assert(ratings@.take(count as int) == ratings@);
    let sum = parallel_sum(&values);
    let size: u128 = if sum >= 0 {
        sum as u128
    } else {
        (-sum) as u128
    };
    let n: u128 = count as u128;
    let below: u128 = size / n;
    let rest: u128 = size % n;
    let nearest: u128 = if rest >= n - rest {
        below + 1
    } else {
        below
    };
    proof {
        let left: int = if rest >= n - rest {
            2 * rest - n
        } else {
            2 * rest + n
        };
        vstd::arithmetic::div_mod::lemma_fundamental_div_mod(size as int, n as int);
        assert(2 * size + n == nearest * (2 * n) + left) by (nonlinear_arith)
            requires
                size == n * below + rest,
                nearest == (if rest >= n - rest {
                    below + 1
                } else {
                    below as int
                }),
                left == (if rest >= n - rest {
                    2 * rest - n
                } else {
                    2 * rest + n
                }),
        ;
        vstd::arithmetic::div_mod::lemma_fundamental_div_mod_converse(
            2 * size + n,
            2 * n,
            nearest as int,
            left,
        );
        assert(nearest == (2 * size + n) / (2 * n));
        if sum >= 0 {
            assert(nearest <= 0x7fff_ffff_ffff_ffff) by (nonlinear_arith)
                requires
                    size == n * below + rest,
                    0 <= rest < n,
                    size <= 0x7fff_ffff_ffff_ffff * n,
                    nearest == (if rest >= n - rest {
                        below + 1
                    } else {
                        below as int
                    }),
            ;
        } else {
            assert(nearest <= 0x8000_0000_0000_0000) by (nonlinear_arith)
                requires
                    size == n * below + rest,
                    0 <= rest < n,
                    size <= 0x8000_0000_0000_0000 * n,
                    nearest == (if rest >= n - rest {
                        below + 1
                    } else {
                        below as int
                    }),
            ;
        }
    }
    let units: i128 = if sum >= 0 {
        nearest as i128
    } else {
        -(nearest as i128)
    };
    Some(Rating { units: units as i64 })
}


proof fn lemma_sum_on_scale(ratings: Seq<Rating>)
    requires
        forall|i: int| 0 <= i < ratings.len() ==> in_range(#[trigger] ratings[i].units as int),
    ensures
        500_000_000 * ratings.len() <= sum_units(ratings) <= 5_000_000_000 * ratings.len(),
    decreases ratings.len(),
{
    if ratings.len() > 0 {
        let front = ratings.drop_last();
        assert forall|i: int| 0 <= i < front.len() implies in_range(
            #[trigger] front[i].units as int,
        ) by {
            assert(front[i] == ratings[i]);
        }
        lemma_sum_on_scale(front);
        assert(in_range(ratings[ratings.len() - 1].units as int));
    }
}

/// The average of ratings on the scale lies on the scale.
pub proof fn mean_stays_on_scale(ratings: Seq<Rating>)
    requires
        ratings.len() > 0,
        forall|i: int| 0 <= i < ratings.len() ==> in_range(#[trigger] ratings[i].units as int),
    ensures
        in_range(mean_units(ratings)),
{
    lemma_sum_on_scale(ratings);
    let n = ratings.len() as int;
    let sum = sum_units(ratings);
    let mean = mean_units(ratings);
    vstd::arithmetic::div_mod::lemma_fundamental_div_mod(2 * sum + n, 2 * n);
    let rest = (2 * sum + n) % (2 * n);
    assert(500_000_000 <= mean <= 5_000_000_000) by (nonlinear_arith)
        requires
            2 * sum + n == (2 * n) * mean + rest,
            0 <= rest < 2 * n,
            n > 0,
            500_000_000 * n <= sum <= 5_000_000_000 * n,
    ;
}


proof fn lemma_sum_without(ratings: Seq<Rating>, i: int)
    requires
        0 <= i < ratings.len(),
    ensures
        sum_units(ratings) == sum_units(ratings.remove(i)) + ratings[i].units,
    decreases ratings.len(),
{
    if i == ratings.len() - 1 {
        assert(ratings.remove(i) == ratings.drop_last());
    } else {
        let front = ratings.drop_last();
        lemma_sum_without(front, i);
        assert(ratings.remove(i).drop_last() == front.remove(i));
        assert(ratings.remove(i).last() == ratings.last());
    }
}

/// The average does not depend on the order of the ratings: two sequences
/// that hold the same ratings, each as often in one as in the other, have the
/// same sum and the same average.
pub proof fn mean_ignores_order(one: Seq<Rating>, other: Seq<Rating>)
    requires
        one.to_multiset() == other.to_multiset(),
    ensures
        one.len() == other.len(),
        sum_units(one) == sum_units(other),
        mean_units(one) == mean_units(other),
    decreases one.len(),
{
    one.to_multiset_ensures();
    other.to_multiset_ensures();
    if one.len() > 0 {
        let last = one.last();
        let at = one.len() - 1;
        assert(one[at] == last);
        assert(one.contains(last));
        assert(one.to_multiset().count(last) > 0);
        assert(other.to_multiset().count(last) > 0);
        assert(other.contains(last));
        let j = choose|j: int| 0 <= j < other.len() && other[j] == last;
        lemma_sum_without(other, j);
        assert(one.remove(at) == one.drop_last());
        assert(one.drop_last().to_multiset() == other.remove(j).to_multiset());
        mean_ignores_order(one.drop_last(), other.remove(j));
    }
}

} // verus!
