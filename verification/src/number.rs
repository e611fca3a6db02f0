//! Reading a number written in decimal into a fixed-point score.

use crate::rating::Rating;
use crate::text::copy_range;
use vstd::prelude::*;

verus! {

/// The largest count of units that a score is read as. A number whose
/// magnitude is larger, or infinite, is read as this count.
pub const LIMIT: u64 = 0x7fff_ffff_ffff_ffff;

/// The number of decimal places that a score keeps.
pub const PLACES: u64 = 9;

/// What a piece of text says, read as a number.
#[derive(Clone, Copy, Debug, PartialEq, Eq, Structural)]
pub enum Reading {
    /// The text is not a number.
    Malformed,
    /// The text is a spelling of "not a number".
    NotANumber,
    /// The text is a number, which is this score after rounding.
    Value(Rating),
}

/// `c` is one of the ten digits.
pub open spec fn is_digit(c: char) -> bool {
    '0' <= c <= '9'
}

/// Every character of `s` is a digit.
pub open spec fn all_digits(s: Seq<char>) -> bool {
    forall|i: int| 0 <= i < s.len() ==> is_digit(#[trigger] s[i])
}

/// The number that the digit `c` stands for.
pub open spec fn digit_value(c: char) -> nat {
    (c as u32 - '0' as u32) as nat
}

/// The number that the digits of `s` write in decimal; none write zero.
pub open spec fn digits_value(s: Seq<char>) -> nat
    decreases s.len(),
{
    if s.len() == 0 {
        0
    } else {
        digits_value(s.drop_last()) * 10 + digit_value(s.last())
    }
}

/// Ten to the power `n`.
pub open spec fn pow10(n: nat) -> nat
    decreases n,
{
    if n == 0 {
        1
    } else {
        10 * pow10((n - 1) as nat)
    }
}

/// How many digits stand at the start of `s` before anything else.
pub open spec fn digit_run(s: Seq<char>) -> nat
    decreases s.len(),
{
    if s.len() > 0 && is_digit(s[0]) {
        1 + digit_run(s.skip(1))
    } else {
        0
    }
}

/// How many characters of sign stand at the start of `s`: one or none.
pub open spec fn sign_len(s: Seq<char>) -> nat {
    if s.len() > 0 && (s[0] == '+' || s[0] == '-') {
        1
    } else {
        0
    }
}

/// `s` starts with a minus sign.
pub open spec fn is_negative(s: Seq<char>) -> bool {
    s.len() > 0 && s[0] == '-'
}

/// `c` is the letter `lower`, in either case.
pub open spec fn is_letter(c: char, lower: char, upper: char) -> bool {
    c == lower || c == upper
}

/// `s` spells "nan", in any mix of cases.
pub open spec fn spells_nan(s: Seq<char>) -> bool {
    &&& s.len() == 3
    &&& is_letter(s[0], 'n', 'N')
    &&& is_letter(s[1], 'a', 'A')
    &&& is_letter(s[2], 'n', 'N')
}

/// `s` starts with the letters "inf", in any mix of cases.
pub open spec fn starts_inf(s: Seq<char>) -> bool {
    &&& s.len() >= 3
    &&& is_letter(s[0], 'i', 'I')
    &&& is_letter(s[1], 'n', 'N')
    &&& is_letter(s[2], 'f', 'F')
}

/// `s` spells "inf" or "infinity", in any mix of cases.
pub open spec fn spells_infinity(s: Seq<char>) -> bool {
    &&& starts_inf(s)
    &&& s.len() == 3 || {
        &&& s.len() == 8
        &&& is_letter(s[3], 'i', 'I')
        &&& is_letter(s[4], 'n', 'N')
        &&& is_letter(s[5], 'i', 'I')
        &&& is_letter(s[6], 't', 'T')
        &&& is_letter(s[7], 'y', 'Y')
    }
}

/// What follows the digits at the start of `s`.
pub open spec fn after_digits(s: Seq<char>) -> Seq<char> {
    s.skip(digit_run(s) as int)
}

/// `s` without a decimal point at its start, if it has one there.
pub open spec fn after_point(s: Seq<char>) -> Seq<char> {
    if s.len() > 0 && s[0] == '.' {
        s.skip(1)
    } else {
        s
    }
}

/// The digits before the decimal point of the unsigned number `s`.
pub open spec fn whole_digits(s: Seq<char>) -> Seq<char> {
    s.take(digit_run(s) as int)
}

/// The digits after the decimal point of the unsigned number `s`.
pub open spec fn fraction_digits(s: Seq<char>) -> Seq<char> {
    whole_digits(after_point(after_digits(s)))
}

/// What follows the digits and the decimal point of the unsigned number `s`:
/// its exponent, if it is well formed.
pub open spec fn exponent_part(s: Seq<char>) -> Seq<char> {
    after_digits(after_point(after_digits(s)))
}

/// The digits of an exponent `e`, after its letter and its sign.
pub open spec fn exponent_digits(e: Seq<char>) -> Seq<char> {
    e.skip(1).skip(sign_len(e.skip(1)) as int)
}

/// `e` is empty or a well-formed exponent: the letter "e" in either case, an
/// optional sign, and one digit or more up to the end.
pub open spec fn exponent_well_formed(e: Seq<char>) -> bool {
    e.len() == 0 || {
        &&& is_letter(e[0], 'e', 'E')
        &&& exponent_digits(e).len() > 0
        &&& digit_run(exponent_digits(e)) == exponent_digits(e).len()
    }
}

/// The power of ten that the exponent `e` asks for; none asks for zero.
pub open spec fn exponent_value(e: Seq<char>) -> int {
    if e.len() == 0 {
        0
    } else if is_negative(e.skip(1)) {
        -(digits_value(exponent_digits(e)) as int)
    } else {
        digits_value(exponent_digits(e)) as int
    }
}

/// How far an exponent is followed exactly: beyond this many powers of ten
/// every number has left the range of scores, whatever its digits.
pub open spec fn far() -> int {
    0x10_0000_0000_0000_0000_0000_0000
}

/// `x` stands for the exponent `v`: it is `v`, or both lie far out on the same
/// side, `v` at least as far as `x`.
pub open spec fn stands_for(x: int, v: int) -> bool {
    x == v || (x >= far() && v >= x) || (x <= -far() && v <= x)
}

/// `s` is an unsigned decimal number: digits with at most one decimal point
/// among them, at least one digit in all, and then an optional exponent.
pub open spec fn is_decimal(s: Seq<char>) -> bool {
    &&& whole_digits(s).len() + fraction_digits(s).len() > 0
    &&& exponent_well_formed(exponent_part(s))
}

/// `m` times ten to the power `shift`, rounded to the nearest whole number, a
/// half going up.
pub open spec fn scaled(m: nat, shift: int) -> nat {
    if shift >= 0 {
        m * pow10(shift as nat)
    } else {
        ((m + pow10((-shift) as nat) / 2) / pow10((-shift) as nat)) as nat
    }
}

/// `n`, or the limit if `n` is beyond it.
pub open spec fn capped(n: nat) -> nat {
    if n > LIMIT {
        LIMIT as nat
    } else {
        n
    }
}

/// By how many decimal places the digits of the unsigned number `s`, read as
/// one whole number, must be shifted to give its value in units.
pub open spec fn decimal_shift(s: Seq<char>) -> int {
    exponent_value(exponent_part(s)) - fraction_digits(s).len() + PLACES
}

/// The value of the unsigned decimal number `s` in units, rounded to the
/// nearest unit and capped at the limit.
pub open spec fn decimal_units(s: Seq<char>) -> nat {
    capped(scaled(digits_value(whole_digits(s) + fraction_digits(s)), decimal_shift(s)))
}

/// The score of `magnitude` units, below zero if `negative`.
pub open spec fn signed_rating(negative: bool, magnitude: nat) -> Rating {
    Rating {
        units: if negative {
            (-(magnitude as int)) as i64
        } else {
            magnitude as i64
        },
    }
}

/// What the text `t` says, read as a number: an optional sign, followed by a
/// decimal number, by a spelling of infinity, or by "nan".
pub open spec fn reading_of(t: Seq<char>) -> Reading {
    let body = t.skip(sign_len(t) as int);
    if spells_nan(body) {
        Reading::NotANumber
    } else if spells_infinity(body) {
        Reading::Value(signed_rating(is_negative(t), LIMIT as nat))
    } else if is_decimal(body) {
        Reading::Value(signed_rating(is_negative(t), decimal_units(body)))
    } else {
        Reading::Malformed
    }
}


proof fn lemma_pow10_grows(a: nat, b: nat)
    requires
        a <= b,
    ensures
        0 < pow10(a) <= pow10(b),
    decreases b,
{
    if b == 0 {
    } else if a == b {
        lemma_pow10_grows((a - 1) as nat, (b - 1) as nat);
    } else {
        lemma_pow10_grows(a, (b - 1) as nat);
    }
}

proof fn lemma_pow10_19()
    ensures
        pow10(19) == 10_000_000_000_000_000_000,
{
    reveal_with_fuel(pow10, 20);
}

proof fn lemma_digit_run_bound(s: Seq<char>)
    ensures
        digit_run(s) <= s.len(),
        all_digits(s.take(digit_run(s) as int)),
    decreases s.len(),
{
    if s.len() > 0 && is_digit(s[0]) {
        let rest = s.skip(1);
        lemma_digit_run_bound(rest);
        let n = digit_run(s) as int;
        assert forall|i: int| 0 <= i < n implies is_digit(#[trigger] s.take(n)[i]) by {
            if i > 0 {
                assert(rest.take(n - 1)[i - 1] == s[i]);
            }
        }
    }
}

proof fn lemma_digits_value_split(s: Seq<char>, j: int)
    requires
        0 <= j <= s.len(),
    ensures
        digits_value(s) == digits_value(s.take(j)) * pow10((s.len() - j) as nat) + digits_value(
            s.skip(j),
        ),
    decreases s.len(),
{
    if j == s.len() {
        assert(s.take(j) == s);
        assert(s.skip(j).len() == 0);
        assert(digits_value(s.skip(j)) == 0);
        assert(pow10(0) == 1);
        assert(digits_value(s) * 1 == digits_value(s));
    } else {
        let front = s.drop_last();
        lemma_digits_value_split(front, j);
        assert(front.take(j) == s.take(j));
        assert(front.skip(j) == s.skip(j).drop_last());
        assert(s.skip(j).last() == s.last());
        let a = digits_value(s.take(j));
        let p = pow10((s.len() - 1 - j) as nat);
        let r = digits_value(front.skip(j));
        let d = digit_value(s.last());
        assert(pow10((s.len() - j) as nat) == 10 * p);
        assert(digits_value(s) == (a * p + r) * 10 + d);
        assert(digits_value(s.skip(j)) == r * 10 + d);
        assert((a * p + r) * 10 + d == a * (10 * p) + (r * 10 + d)) by (nonlinear_arith);
    }
}

proof fn lemma_digits_value_bound(s: Seq<char>)
    requires
        all_digits(s),
    ensures
        digits_value(s) < pow10(s.len()),
    decreases s.len(),
{
    if s.len() > 0 {
        let front = s.drop_last();
        assert forall|i: int| 0 <= i < front.len() implies is_digit(#[trigger] front[i]) by {
            assert(front[i] == s[i]);
        }
        lemma_digits_value_bound(front);
        assert(is_digit(s[s.len() - 1]));
        assert(digit_value(s.last()) <= 9);
    }
}

/// Shifting the digits `s` down by `k` places, where `k` is no more than their
/// number, leaves the digits before the cut, and one more if the first digit
/// after the cut is five or above.
proof fn lemma_scaled_down(s: Seq<char>, k: int)
    requires
        all_digits(s),
        1 <= k <= s.len(),
    ensures
        scaled(digits_value(s), -k) == digits_value(s.take(s.len() - k)) + (if digit_value(
            s[s.len() - k],
        ) >= 5 {
            1nat
        } else {
            0nat
        }),
{
    let cut = s.len() - k;
    let head = digits_value(s.take(cut));
    let tail = s.skip(cut);
    let d = digit_value(s[cut]);
    let low = digits_value(tail.skip(1));
    let lower = pow10((k - 1) as nat) as int;
    lemma_digits_value_split(s, cut);
    lemma_digits_value_split(tail, 1);
    assert(tail.take(1).drop_last().len() == 0);
    assert(digits_value(tail.take(1).drop_last()) == 0);
    assert(tail.take(1).last() == s[cut]);
    assert(digits_value(tail.take(1)) == d);
    assert forall|i: int| 0 <= i < tail.skip(1).len() implies is_digit(
        #[trigger] tail.skip(1)[i],
    ) by {
        assert(tail.skip(1)[i] == s[cut + 1 + i]);
    }
    lemma_digits_value_bound(tail.skip(1));
    lemma_pow10_grows(0, (k - 1) as nat);
    assert(is_digit(s[cut]));
    assert(d <= 9);
    assert(pow10(k as nat) == 10 * lower);
    assert(low < lower);
    let m = digits_value(s);
    assert(m == head * (10 * lower) + (d * lower + low));
    assert((10 * lower) / 2 == 5 * lower) by (nonlinear_arith)
        requires
            lower > 0,
    ;
    let up: int = if d >= 5 {
        1
    } else {
        0
    };
    let x: int = m + 5 * lower;
    let rem: int = (d + 5) * lower + low - up * (10 * lower);
    assert(0 <= rem < 10 * lower) by (nonlinear_arith)
        requires
            rem == (d + 5) * lower + low - up * (10 * lower),
            0 <= low < lower,
            0 <= d <= 9,
            up == (if d >= 5 {
                1int
            } else {
                0int
            }),
    ;
    assert(x == (head + up) * (10 * lower) + rem) by (nonlinear_arith)
        requires
            x == m + 5 * lower,
            m == head * (10 * lower) + (d * lower + low),
            rem == (d + 5) * lower + low - up * (10 * lower),
    ;
    vstd::arithmetic::div_mod::lemma_fundamental_div_mod_converse(x, 10 * lower, head + up, rem);
}

/// Shifting digits down by more places than there are leaves nothing.
proof fn lemma_scaled_away(s: Seq<char>, k: int)
    requires
        all_digits(s),
        k > s.len(),
    ensures
        scaled(digits_value(s), -k) == 0,
{
    let lower = pow10((k - 1) as nat) as int;
    let m = digits_value(s) as int;
    lemma_digits_value_bound(s);
    lemma_pow10_grows(s.len(), (k - 1) as nat);
    assert(pow10(k as nat) == 10 * lower);
    assert((10 * lower) / 2 == 5 * lower) by (nonlinear_arith)
        requires
            lower > 0,
    ;
    vstd::arithmetic::div_mod::lemma_fundamental_div_mod_converse(
        m + 5 * lower,
        10 * lower,
        0,
        m + 5 * lower,
    );
}

/// Shifted up by nineteen places or more, every number but zero is beyond
/// the limit.
proof fn lemma_scaled_high(m: nat, shift: int)
    requires
        shift >= 19,
    ensures
        capped(scaled(m, shift)) == (if m == 0 {
            0nat
        } else {
            LIMIT as nat
        }),
{
    lemma_pow10_19();
    lemma_pow10_grows(19, shift as nat);
    let p = pow10(shift as nat);
    if m == 0 {
        assert(m * p == 0);
    } else {
        assert(m * p >= p) by (nonlinear_arith)
            requires
                m >= 1,
                p >= 0,
        ;
    }
}

/// The number that the digit `c` stands for.
fn digit_of(c: char) -> (d: u64)
    requires
        is_digit(c),
    ensures
        d == digit_value(c),
        d <= 9,
{
    (c as u32 - '0' as u32) as u64
}

/// Decides whether `c` is one of two given characters.
fn is_either(c: char, lower: char, upper: char) -> (same: bool)
    ensures
        same == is_letter(c, lower, upper),
{
    c == lower || c == upper
}

/// Counts the digits at the start of `chars`.
fn leading_digits(chars: &Vec<char>) -> (count: usize)
    ensures
        count == digit_run(chars@),
        count <= chars.len(),
        all_digits(chars@.take(count as int)),
{
    let mut i: usize = 0;
    assert(chars@.skip(0) == chars@);
    while i < chars.len() && '0' <= chars[i] && chars[i] <= '9'
        invariant
            i <= chars.len(),
            digit_run(chars@) == i + digit_run(chars@.skip(i as int)),
        decreases chars.len() - i,
    {
        assert(chars@.skip(i as int).skip(1) == chars@.skip(i + 1));
        i += 1;
    }
    proof {
        lemma_digit_run_bound(chars@);
    }
    i
}

/// The number that the first `count` digits of `digits` write, capped.
fn capped_value(digits: &Vec<char>, count: usize) -> (value: u64)
    requires
        count <= digits.len(),
        all_digits(digits@),
    ensures
        value == capped(digits_value(digits@.take(count as int))),
{
    let mut value: u64 = 0;
    let mut i: usize = 0;
    assert(digits@.take(0).len() == 0);
    while i < count
        invariant
            i <= count <= digits.len(),
            all_digits(digits@),
            value == capped(digits_value(digits@.take(i as int))),
        decreases count - i,
    {
        let d = digit_of(digits[i]);
        assert(digits@.take(i + 1).drop_last() == digits@.take(i as int));
        assert(digits@.take(i + 1).last() == digits@[i as int]);
        let wide: u128 = value as u128 * 10 + d as u128;
        value = if wide > LIMIT as u128 {
            LIMIT
        } else {
            wide as u64
        };
        i += 1;
    }
    value
}

/// The number that `digits` write, shifted by `shift` decimal places, rounded
/// and capped.
fn scale_digits(digits: &Vec<char>, shift: i128) -> (units: u64)
    requires
        all_digits(digits@),
    ensures
        units == capped(scaled(digits_value(digits@), shift as int)),
{
    let n = digits.len();
    let ghost m = digits_value(digits@);
    assert(digits@.take(n as int) == digits@);
    if shift >= 0 {
        let whole = capped_value(digits, n);
        if whole == 0 {
            assert(m == 0);
            assert(m * pow10(shift as nat) == 0);
            return 0;
        }
        if shift >= 19 {
            proof {
                lemma_scaled_high(m, shift as int);
            }
            return LIMIT;
        }
        let mut units: u64 = whole;
        let mut i: i128 = 0;
        assert(pow10(0) == 1);
        assert(m * pow10(0) == m);
        while i < shift
            invariant
                0 <= i <= shift < 19,
                units == capped(m * pow10(i as nat)),
            decreases shift - i,
        {
            let ghost p = pow10(i as nat);
            assert(m * pow10((i + 1) as nat) == (m * p) * 10) by (nonlinear_arith)
                requires
                    pow10((i + 1) as nat) == 10 * p,
            ;
            let wide: u128 = units as u128 * 10;
            units = if wide > LIMIT as u128 {
                LIMIT
            } else {
                wide as u64
            };
            i += 1;
        }
        units
    } else {
        if shift < -(n as i128) {
            proof {
                lemma_scaled_away(digits@, -(shift as int));
            }
            return 0;
        }
        let keep: usize = (n as i128 + shift) as usize;
        let head = capped_value(digits, keep);
        let next = digit_of(digits[keep]);
        proof {
            lemma_scaled_down(digits@, -(shift as int));
        }
        if next >= 5 && head < LIMIT {
            head + 1
        } else {
            head
        }
    }
}

/// Reads the exponent `e` of a number: nothing if it is not well formed,
/// else the power of ten that it asks for, or a stand-in for it.
fn read_exponent(e: &Vec<char>) -> (power: Option<i128>)
    ensures
        power is None <==> !exponent_well_formed(e@),
        power matches Some(x) ==> stands_for(x as int, exponent_value(e@)) && -16 * far() < x < 16
            * far(),
{
    if e.len() == 0 {
        return Some(0);
    }
    if !is_either(e[0], 'e', 'E') {
        return None;
    }
    let tail = copy_range(e, 1, e.len());
    assert(tail@ == e@.skip(1));
    let signed: usize = if tail.len() > 0 && (tail[0] == '+' || tail[0] == '-') {
        1
    } else {
        0
    };
    let negative = tail.len() > 0 && tail[0] == '-';
    let digits = copy_range(&tail, signed, tail.len());
    assert(digits@ == exponent_digits(e@));
    let count = leading_digits(&digits);
    if digits.len() == 0 || count < digits.len() {
        return None;
    }
    assert(digits@.take(count as int) == digits@);
    let mut value: i128 = 0;
    let mut i: usize = 0;
    assert(digits@.take(0).len() == 0);
    while i < digits.len()
        invariant
            i <= digits.len(),
            all_digits(digits@),
            0 <= value < 16 * far(),
            stands_for(value as int, digits_value(digits@.take(i as int)) as int),
        decreases digits.len() - i,
    {
        let d = digit_of(digits[i]);
        assert(digits@.take(i + 1).drop_last() == digits@.take(i as int));
        assert(digits@.take(i + 1).last() == digits@[i as int]);
        if value < 0x10_0000_0000_0000_0000_0000_0000 {
            value = value * 10 + d as i128;
        }
        i += 1;
    }
    assert(digits@.take(digits.len() as int) == digits@);
    if negative {
        Some(-value)
    } else {
        Some(value)
    }
}


/// Reads the unsigned decimal number `body`: nothing if it is not well
/// formed, else its value in units.
fn read_unsigned(body: &Vec<char>) -> (units: Option<u64>)
    ensures
        units is None <==> !is_decimal(body@),
        units matches Some(u) ==> u == decimal_units(body@),
{
    let whole = leading_digits(body);
    let rest = copy_range(body, whole, body.len());
    assert(rest@ == after_digits(body@));
    let pointed = rest.len() > 0 && rest[0] == '.';
    let tail = if pointed {
        copy_range(&rest, 1, rest.len())
    } else {
        rest
    };
    assert(tail@ == after_point(after_digits(body@)));
    let fraction = leading_digits(&tail);
    let exponent = copy_range(&tail, fraction, tail.len());
    assert(exponent@ == exponent_part(body@));
    if whole == 0 && fraction == 0 {
        return None;
    }
    match read_exponent(&exponent) {
        None => None,
        Some(power) => {
            let mut digits = copy_range(body, 0, whole);
            let mut i: usize = 0;
            while i < fraction
                invariant
                    i <= fraction <= tail.len(),
                    digits@ == whole_digits(body@) + tail@.take(i as int),
                decreases fraction - i,
            {
                digits.push(tail[i]);
                assert(tail@.take(i + 1) == tail@.take(i as int).push(tail@[i as int]));
                i += 1;
            }
            assert(digits@ == whole_digits(body@) + fraction_digits(body@));
            assert(all_digits(digits@)) by {
                assert forall|j: int| 0 <= j < digits@.len() implies is_digit(
                    #[trigger] digits@[j],
                ) by {
                    if j < whole {
                        assert(digits@[j] == body@.take(whole as int)[j]);
                    } else {
                        assert(digits@[j] == tail@.take(fraction as int)[j - whole]);
                    }
                }
            }
            let shift: i128 = power - fraction as i128 + PLACES as i128;
            let units = scale_digits(&digits, shift);
            proof {
                let m = digits_value(digits@);
                let exact = decimal_shift(body@);
                if power >= far() && exact != shift {
                    lemma_scaled_high(m, shift as int);
                    lemma_scaled_high(m, exact);
                } else if power <= -far() && exact != shift {
                    lemma_scaled_away(digits@, -(shift as int));
                    lemma_scaled_away(digits@, -exact);
                }
            }
            Some(units)
        },
    }
}

/// Reads `token` as a number.
pub fn read_number(token: &Vec<char>) -> (reading: Reading)
    ensures
        reading == reading_of(token@),
{
    let signed: usize = if token.len() > 0 && (token[0] == '+' || token[0] == '-') {
        1
    } else {
        0
    };
    let negative = token.len() > 0 && token[0] == '-';
    let body = copy_range(token, signed, token.len());
    assert(body@ == token@.skip(sign_len(token@) as int));
    let n = body.len();
    if n == 3 && is_either(body[0], 'n', 'N') && is_either(body[1], 'a', 'A') && is_either(
        body[2],
        'n',
        'N',
    ) {
        return Reading::NotANumber;
    }
    let inf = n >= 3 && is_either(body[0], 'i', 'I') && is_either(body[1], 'n', 'N') && is_either(
        body[2],
        'f',
        'F',
    );
    let magnitude: u64 = if inf && (n == 3 || (n == 8 && is_either(body[3], 'i', 'I') && is_either(
        body[4],
        'n',
        'N',
    ) && is_either(body[5], 'i', 'I') && is_either(body[6], 't', 'T') && is_either(
        body[7],
        'y',
        'Y',
    ))) {
        LIMIT
    } else {
        match read_unsigned(&body) {
            None => {
                return Reading::Malformed;
            },
            Some(units) => units,
        }
    };
    let units: i64 = if negative {
        -(magnitude as i64)
    } else {
        magnitude as i64
    };
    Reading::Value(Rating { units })
}

/// Reads `text` as a number.
pub fn parse_number(text: &str) -> (reading: Reading)
    ensures
        reading == reading_of(text@),
{
    let token = crate::text::chars_of(text);
    read_number(&token)
}

} // verus!
