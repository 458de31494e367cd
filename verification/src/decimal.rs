//! Decimal numbers with six fractional digits.
use vstd::prelude::*;

verus! {

/// How many millionths make one whole unit.
pub const MICROS_PER_UNIT: i64 = 1_000_000;

/// A decimal number, held exactly as a signed count of millionths.
///
/// `Decimal { micros: 4_300_000 }` is 4.3; `Decimal { micros: -1 }` is
/// -0.000001. Every `i64` is a valid count, so the type has no invariant.
#[derive(Clone, Copy, Debug, PartialEq, Eq, Structural)]
pub struct Decimal {
    pub micros: i64,
}

impl View for Decimal {
    type V = int;

    /// The number as a mathematical count of millionths.
    open spec fn view(&self) -> int {
        self.micros as int
    }
}

/// Whether a count of millionths can be held in a `Decimal`.
pub open spec fn representable(micros: int) -> bool {
    i64::MIN <= micros <= i64::MAX
}

impl Decimal {
    /// The number zero.
    pub fn zero() -> (d: Decimal)
        ensures
            d@ == 0,
    {
        Decimal { micros: 0 }
    }

    /// The number that is `micros` millionths.
    pub fn from_micros(micros: i64) -> (d: Decimal)
        ensures
            d@ == micros,
    {
        Decimal { micros }
    }

    /// The whole number `units`, or `None` where it is too large to hold.
    pub fn from_units(units: i64) -> (d: Option<Decimal>)
        ensures
            representable(units * MICROS_PER_UNIT) ==> d.is_some() && d.unwrap()@ == units
                * MICROS_PER_UNIT,
            !representable(units * MICROS_PER_UNIT) ==> d.is_none(),
    {
        Decimal::from_wide((units as i128) * (MICROS_PER_UNIT as i128))
    }

    /// This number as a count of millionths.
    pub fn micros(&self) -> (m: i64)
        ensures
            m == self@,
    {
        self.micros
    }

    /// The number that is `micros` millionths, or `None` where that count is
    /// outside the range of a `Decimal`.
    pub(crate) fn from_wide(micros: i128) -> (d: Option<Decimal>)
        ensures
            representable(micros as int) ==> d.is_some() && d.unwrap()@ == micros,
            !representable(micros as int) ==> d.is_none(),
    {
        if micros < i64::MIN as i128 || micros > i64::MAX as i128 {
            None
        } else {
            Some(Decimal { micros: micros as i64 })
        }
    }
}

/// A quotient by a positive number lies between the dividend and zero.
pub proof fn lemma_quotient_between(n: int, d: int)
    requires
        d > 0,
    ensures
        n >= 0 ==> 0 <= n / d <= n,
        n < 0 ==> n <= n / d < 0,
{
    vstd::arithmetic::div_mod::lemma_fundamental_div_mod(n, d);
    let q = n / d;
    let r = n % d;
    assert(n >= 0 ==> 0 <= q <= n) by (nonlinear_arith)
        requires
            n == d * q + r,
            0 <= r < d,
    ;
    assert(n < 0 ==> n <= q < 0) by (nonlinear_arith)
        requires
            n == d * q + r,
            0 <= r < d,
    ;
}

/// The quotient of `n` by a positive `d`, rounded down.
pub(crate) fn floor_div(n: i128, d: i128) -> (q: i128)
    requires
        d > 0,
    ensures
        q == n / d,
{
    proof {
        lemma_quotient_between(n as int, d as int);
    }
    match n.checked_div_euclid(d) {
        Some(q) => q,
        None => 0,
    }
}

} // verus!
