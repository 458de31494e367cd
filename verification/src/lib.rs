//! Fixed-rate loan amortization on exact decimal numbers.
//!
//! A [`Calculator`] holds the terms of a loan (asking price, down payment,
//! yearly interest rate in percent, duration in years) and what follows from
//! them: the financed principal, the level monthly installment and a
//! year-by-year table of balances. Every quantity is a [`Decimal`], a whole
//! count of millionths, so each formula has one exact result and the
//! contracts state it. A decimal is written to and read from text without
//! loss.
pub mod calculator;
pub mod decimal;
pub mod error;
pub mod formulas;
pub mod schedule;
pub mod text;

pub use calculator::Calculator;
pub use decimal::Decimal;
pub use error::InvalidCalculation;
pub use schedule::YearBalance;
