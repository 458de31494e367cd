//! The two formulas of a loan: the principal and the level installment.
//!
//! The installment of a loan of `p` at a monthly rate `m` over `n` months is
//! `p / ((g - 1) / (m * g))` with the growth `g = (1 + m)^n`. Here the same
//! quotient is taken as `p * m / (1 - 1 / g)`: the discount factor `1 / g`
//! never leaves the range from zero to one, whatever the rate and the
//! duration are. Monthly rate and discount factor are held with eighteen
//! fractional digits, and every division rounds down.
use vstd::prelude::*;
use vstd::arithmetic::div_mod::{lemma_fundamental_div_mod, lemma_fundamental_div_mod_converse};
use vstd::arithmetic::power::{lemma_pow_positive, pow};
use crate::decimal::{lemma_quotient_between, representable, Decimal};
use crate::error::InvalidCalculation;

verus! {

/// The number one with eighteen fractional digits.
pub const UNIT: u128 = 1_000_000_000_000_000_000;

/// A result with its number as a mathematical count of millionths.
pub open spec fn held(result: Result<Decimal, InvalidCalculation>) -> Result<
    int,
    InvalidCalculation,
> {
    match result {
        Ok(number) => Ok(number@),
        Err(reason) => Err(reason),
    }
}

/// What the principal of a purchase is: the asking price less the down
/// payment, refused where the down payment is the larger of the two.
pub open spec fn principal_outcome(asking_price: int, down_payment: int) -> Result<
    int,
    InvalidCalculation,
> {
    if down_payment > asking_price {
        Err(InvalidCalculation::DownPaymentExceedsPrice)
    } else if !representable(asking_price - down_payment) {
        Err(InvalidCalculation::OutOfRange)
    } else {
        Ok(asking_price - down_payment)
    }
}

/// The monthly rate, as a fraction with eighteen digits, of a yearly `rate`
/// in millionths of a percent: the rate divided by twelve and by a hundred.
pub open spec fn monthly_rate(rate: int) -> int {
    rate * 10_000_000_000 / 12
}

/// The discount factor `1 / (1 + monthly)^months` with eighteen digits,
/// rounded down after each month.
pub open spec fn discount(monthly: int, months: nat) -> int
    decreases months,
{
    if months == 0 {
        UNIT as int
    } else {
        discount(monthly, (months - 1) as nat) * UNIT / (UNIT + monthly)
    }
}

/// The level monthly installment, in millionths, that pays off `principal`
/// at `rate` over `years` years.
pub open spec fn installment_value(principal: int, rate: int, years: nat) -> int {
    principal * monthly_rate(rate) / (UNIT - discount(monthly_rate(rate), 12 * years))
}

/// What the installment of a loan is: refused for a rate that is not
/// positive and for a loan of zero years, else the level installment.
pub open spec fn installment_outcome(principal: int, rate: int, years: nat) -> Result<
    int,
    InvalidCalculation,
> {
    if rate <= 0 {
        Err(InvalidCalculation::NonPositiveRate)
    } else if years == 0 {
        Err(InvalidCalculation::ZeroDuration)
    } else if !representable(installment_value(principal, rate, years)) {
        Err(InvalidCalculation::OutOfRange)
    } else {
        Ok(installment_value(principal, rate, years))
    }
}

/// The discount factor lies between zero and one, and below one as soon as
/// a positive rate has worked for a month.
pub proof fn lemma_discount_bounds(monthly: int, months: nat)
    requires
        monthly >= 0,
    ensures
        0 <= discount(monthly, months) <= UNIT,
        monthly > 0 && months > 0 ==> discount(monthly, months) < UNIT,
    decreases months,
{
    if months > 0 {
        let before = discount(monthly, (months - 1) as nat);
        lemma_discount_bounds(monthly, (months - 1) as nat);
        lemma_discount_step(before, monthly);
    }
}

/// The held discount factor is the exact one to within `months` units of
/// its last digit: with `g = ((UNIT + monthly) / UNIT)^months` the growth,
/// `discount <= UNIT / g <= discount + months`, stated here without
/// fractions.
pub proof fn lemma_discount_accuracy(monthly: int, months: nat)
    requires
        monthly >= 0,
    ensures
        discount(monthly, months) * pow(UNIT + monthly, months) <= pow(UNIT as int, months + 1),
        pow(UNIT as int, months + 1) <= (discount(monthly, months) + months) * pow(
            UNIT + monthly,
            months,
        ),
    decreases months,
{
    let unit = UNIT as int;
    let base = UNIT + monthly;
    reveal(pow);
    if months == 0 {
        assert(pow(unit, 1) == unit * pow(unit, 0));
    } else {
        let earlier = (months - 1) as nat;
        let before = discount(monthly, earlier);
        let after = discount(monthly, months);
        let grown = pow(base, earlier);
        let scaled = pow(unit, months);
        lemma_discount_accuracy(monthly, earlier);
        lemma_discount_bounds(monthly, earlier);
        lemma_pow_positive(base, earlier);
        lemma_fundamental_div_mod(before * unit, base);
        let rest = (before * unit) % base;
        assert(pow(base, months) == base * grown);
        assert(pow(unit, months + 1) == unit * scaled);
        assert(after * (base * grown) <= unit * scaled) by (nonlinear_arith)
            requires
                before * unit == base * after + rest,
                0 <= rest,
                0 < grown,
                0 < unit,
                before * grown <= scaled,
        ;
        assert(unit * scaled <= (after + months) * (base * grown)) by (nonlinear_arith)
            requires
                before * unit == base * after + rest,
                rest < base,
                0 < grown,
                0 < unit <= base,
                months >= 1,
                scaled <= (before + months - 1) * grown,
        ;
    }
}

/// The held installment is the exact one of the growth formula,
/// `p * m * g / (g - 1)` with `m` the monthly rate and `g = (1 + m)^n` the
/// growth over the `n` months, rounded down, but for what the rounding of
/// the discount factor adds to the divisor: `n` units of its last digit.
/// With `a = UNIT + monthly`, so that `g = a^n / UNIT^n`, and without
/// fractions: `i * UNIT * (a^n - UNIT^n) <= p * monthly * a^n` and
/// `p * monthly * a^n < (i + 1) * (UNIT * (a^n - UNIT^n) + n * a^n)`.
pub proof fn lemma_installment_accuracy(principal: int, rate: int, years: nat)
    requires
        principal >= 0,
        rate > 0,
        years > 0,
    ensures
        ({
            let monthly = monthly_rate(rate);
            let months = 12 * years;
            let installment = installment_value(principal, rate, years);
            let grown = pow(UNIT + monthly, months);
            let flat = pow(UNIT as int, months);
            &&& installment >= 0
            &&& installment * UNIT * (grown - flat) <= principal * monthly * grown
            &&& principal * monthly * grown < (installment + 1) * (UNIT * (grown - flat) + months
                * grown)
        }),
{
    let unit = UNIT as int;
    let monthly = monthly_rate(rate);
    let months = 12 * years;
    let factor = discount(monthly, months);
    let installment = installment_value(principal, rate, years);
    let grown = pow(unit + monthly, months);
    let flat = pow(unit, months);
    let owed = principal * monthly;
    lemma_discount_bounds(monthly, months);
    lemma_discount_accuracy(monthly, months);
    lemma_pow_positive(unit + monthly, months);
    assert(pow(unit, months + 1) == unit * flat) by {
        reveal(pow);
    }
    assert(owed >= 0) by (nonlinear_arith)
        requires
            owed == principal * monthly,
            principal >= 0,
            monthly >= 0,
    ;
    lemma_fundamental_div_mod(owed, unit - factor);
    lemma_quotient_between(owed, unit - factor);
    let rest = owed % (unit - factor);
    assert(installment * unit * (grown - flat) <= owed * grown) by (nonlinear_arith)
        requires
            owed == (unit - factor) * installment + rest,
            0 <= rest,
            0 <= installment,
            0 < grown,
            factor * grown <= unit * flat,
    ;
    assert(owed * grown < (installment + 1) * (unit * (grown - flat) + months * grown))
        by (nonlinear_arith)
        requires
            owed == (unit - factor) * installment + rest,
            rest < unit - factor,
            0 <= installment,
            0 < grown,
            unit * flat <= (factor + months) * grown,
    ;
}

/// One month of discounting does not raise a factor, and lowers the factor
/// one where the rate is positive.
proof fn lemma_discount_step(before: int, monthly: int)
    requires
        0 <= before <= UNIT,
        monthly >= 0,
    ensures
        0 <= before * UNIT / (UNIT + monthly) <= before,
        monthly > 0 && before > 0 ==> before * UNIT / (UNIT + monthly) < before,
{
    let x = before * UNIT;
    let d = UNIT + monthly;
    lemma_fundamental_div_mod(x, d);
    let q = x / d;
    let r = x % d;
    assert(0 <= q <= before && (monthly > 0 && before > 0 ==> q < before)) by (nonlinear_arith)
        requires
            x == before * 1_000_000_000_000_000_000,
            d == 1_000_000_000_000_000_000 + monthly,
            x == d * q + r,
            0 <= r < d,
            0 <= before,
            monthly >= 0,
    ;
}

/// The difference of asking price and down payment.
pub fn principal_equation(asking_price: Decimal, down_payment: Decimal) -> (principal: Result<
    Decimal,
    InvalidCalculation,
>)
    ensures
        held(principal) == principal_outcome(asking_price@, down_payment@),
{
    if down_payment.micros > asking_price.micros {
        return Err(InvalidCalculation::DownPaymentExceedsPrice);
    }
    match Decimal::from_wide((asking_price.micros as i128) - (down_payment.micros as i128)) {
        Some(principal) => Ok(principal),
        None => Err(InvalidCalculation::OutOfRange),
    }
}

/// The discount factor after `months` months at the monthly rate `monthly`.
fn discount_factor(monthly: u128, months: u32) -> (factor: u128)
    requires
        UNIT + monthly <= u128::MAX,
    ensures
        factor == discount(monthly as int, months as nat),
        factor <= UNIT,
{
    let mut factor: u128 = UNIT;
    let mut month: u32 = 0;
    while month < months
        invariant
            month <= months,
            UNIT + monthly <= u128::MAX,
            factor == discount(monthly as int, month as nat),
            factor <= UNIT,
        decreases months - month,
    {
        proof {
            lemma_discount_step(factor as int, monthly as int);
        }
        factor = factor * UNIT / (UNIT + monthly);
        month = month + 1;
    }
    factor
}

/// Rounding down the quotient of a number below zero: `-n / d` is `n / d`
/// rounded up, with the sign turned.
proof fn lemma_negated_quotient(n: int, d: int)
    requires
        n >= 0,
        d > 0,
    ensures
        n % d == 0 ==> (-n) / d == -(n / d),
        n % d != 0 ==> (-n) / d == -(n / d) - 1,
{
    lemma_fundamental_div_mod(n, d);
    let q = n / d;
    let r = n % d;
    if r == 0 {
        assert(-n == (-q) * d + 0) by (nonlinear_arith)
            requires
                n == d * q + r,
                r == 0,
        ;
        lemma_fundamental_div_mod_converse(-n, d, -q, 0);
    } else {
        assert(-n == (-q - 1) * d + (d - r)) by (nonlinear_arith)
            requires
                n == d * q + r,
        ;
        lemma_fundamental_div_mod_converse(-n, d, -q - 1, d - r);
    }
}

/// A product too large for 128 bits, divided by at most one unit, is too
/// large for a `Decimal`, whatever its sign.
proof fn lemma_wide_quotient(product: int, divisor: int)
    requires
        0 < divisor <= UNIT,
        product > u128::MAX || product < -(u128::MAX as int),
    ensures
        !representable(product / divisor),
{
    lemma_fundamental_div_mod(product, divisor);
    let q = product / divisor;
    let r = product % divisor;
    assert(q > 0x7fff_ffff_ffff_ffff || q < -0x8000_0000_0000_0000) by (nonlinear_arith)
        requires
            product == divisor * q + r,
            0 <= r < divisor,
            0 < divisor <= 1_000_000_000_000_000_000,
            product > 0xffff_ffff_ffff_ffff_ffff_ffff_ffff_ffff || product
                < -0xffff_ffff_ffff_ffff_ffff_ffff_ffff_ffff,
    ;
}

/// `amount * factor / divisor` rounded down, or `None` where that is too
/// large for a `Decimal`.
fn scaled_quotient(amount: i64, factor: u128, divisor: u128) -> (quotient: Option<Decimal>)
    requires
        0 < divisor <= UNIT,
    ensures
        representable(amount * factor / (divisor as int)) ==> quotient.is_some()
            && quotient.unwrap()@ == amount * factor / (divisor as int),
        !representable(amount * factor / (divisor as int)) ==> quotient.is_none(),
{
    let negative: bool = amount < 0;
    let magnitude: u128 = if negative {
        (-(amount as i128)) as u128
    } else {
        amount as u128
    };
    let ghost product: int = amount * factor;
    proof {
        assert(negative ==> product == -(magnitude * factor)) by (nonlinear_arith)
            requires
                product == amount * factor,
                negative ==> magnitude == -amount,
        ;
        assert(!negative ==> product == magnitude * factor) by (nonlinear_arith)
            requires
                product == amount * factor,
                !negative ==> magnitude == amount,
        ;
    }
    match magnitude.checked_mul(factor) {
        None => {
            proof {
                lemma_wide_quotient(product, divisor as int);
            }
            None
        },
        Some(numerator) => {
            let whole: u128 = numerator / divisor;
            let rest: u128 = numerator % divisor;
            proof {
                lemma_negated_quotient(numerator as int, divisor as int);
            }
            if whole > 0x8000_0000_0000_0000 {
                None
            } else if negative {
                if rest == 0 {
                    Decimal::from_wide(-(whole as i128))
                } else {
                    Decimal::from_wide(-(whole as i128) - 1)
                }
            } else {
                Decimal::from_wide(whole as i128)
            }
        },
    }
}

/// The level monthly installment that pays off `principal` at `rate`
/// percent a year over `years` years.
pub fn installment_equation(principal: Decimal, rate: Decimal, years: u8) -> (installment: Result<
    Decimal,
    InvalidCalculation,
>)
    ensures
        held(installment) == installment_outcome(principal@, rate@, years as nat),
{
    if rate.micros <= 0 {
        return Err(InvalidCalculation::NonPositiveRate);
    }
    if years == 0 {
        return Err(InvalidCalculation::ZeroDuration);
    }
    let monthly: u128 = (rate.micros as u128) * 10_000_000_000 / 12;
    let months: u32 = 12 * (years as u32);
    let factor: u128 = discount_factor(monthly, months);
    proof {
        lemma_discount_bounds(monthly as int, months as nat);
    }
    match scaled_quotient(principal.micros, monthly, UNIT - factor) {
        Some(installment) => Ok(installment),
        None => Err(InvalidCalculation::OutOfRange),
    }
}

} // verus!
