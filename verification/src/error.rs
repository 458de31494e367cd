//! The one kind of failure a calculation can end in.
use vstd::prelude::*;

verus! {

/// Why a calculation was refused. No calculation panics: each one either
/// returns its exact result or one of these reasons.
#[derive(Clone, Copy, Debug, PartialEq, Eq, Structural)]
pub enum InvalidCalculation {
    /// The asking price or the down payment is below zero.
    NegativeAmount,
    /// The down payment is larger than the asking price.
    DownPaymentExceedsPrice,
    /// The interest rate is zero or below.
    NonPositiveRate,
    /// The loan runs for zero years, so no installment can pay it off.
    ZeroDuration,
    /// The exact result is too large to be held in a `Decimal`.
    OutOfRange,
}

impl InvalidCalculation {
    /// The reason in words, as a sequence of characters.
    pub open spec fn reason_text(self) -> Seq<char> {
        match self {
            InvalidCalculation::NegativeAmount => "amount is negative"@,
            InvalidCalculation::DownPaymentExceedsPrice => "down payment exceeds price"@,
            InvalidCalculation::NonPositiveRate => "non-positive rate"@,
            InvalidCalculation::ZeroDuration => "duration is zero"@,
            InvalidCalculation::OutOfRange => "result is out of range"@,
        }
    }

    /// The reason in words.
    pub fn reason(&self) -> (text: &'static str)
        ensures
            text@ == self.reason_text(),
    {
        match self {
            InvalidCalculation::NegativeAmount => "amount is negative",
            InvalidCalculation::DownPaymentExceedsPrice => "down payment exceeds price",
            InvalidCalculation::NonPositiveRate => "non-positive rate",
            InvalidCalculation::ZeroDuration => "duration is zero",
            InvalidCalculation::OutOfRange => "result is out of range",
        }
    }
}

} // verus!
