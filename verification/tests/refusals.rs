//! Every reason for which a calculation is refused, and what a refusal
//! leaves behind.
use amortization::{Calculator, Decimal, InvalidCalculation, YearBalance};

fn terms(asking_price: i64, down_payment: i64, rate: i64, years: u8) -> Calculator {
    Calculator::from_parts(
        Decimal::from_micros(asking_price),
        Decimal::from_micros(down_payment),
        years,
        Decimal::from_micros(0),
        Decimal::from_micros(rate),
        Decimal::from_micros(asking_price - down_payment),
        Vec::new(),
    )
}

#[test]
fn down_payment_above_price_is_refused() {
    let calculator = terms(20_000_000_000, 165_000_000_000, 4_300_000, 30);
    assert_eq!(
        calculator.calculate_principal(),
        Err(InvalidCalculation::DownPaymentExceedsPrice)
    );
    assert_eq!(
        Calculator::new(
            Decimal::from_micros(20_000_000_000),
            Decimal::from_micros(165_000_000_000),
            Decimal::from_micros(4_300_000),
            30
        ),
        Err(InvalidCalculation::DownPaymentExceedsPrice)
    );
}

#[test]
fn down_payment_one_millionth_above_price_is_refused() {
    let calculator = terms(1_000_000, 1_000_001, 4_300_000, 30);
    assert_eq!(
        calculator.calculate_principal(),
        Err(InvalidCalculation::DownPaymentExceedsPrice)
    );
}

#[test]
fn down_payment_equal_to_price_gives_principal_zero() {
    let calculator = terms(1_000_000, 1_000_000, 4_300_000, 30);
    assert_eq!(calculator.calculate_principal(), Ok(Decimal::from_micros(0)));
}

#[test]
fn rate_of_zero_is_refused() {
    let calculator = terms(165_000_000_000, 20_000_000_000, 0, 30);
    assert_eq!(calculator.calculate_installment(), Err(InvalidCalculation::NonPositiveRate));
    assert_eq!(
        Calculator::new(
            Decimal::from_micros(165_000_000_000),
            Decimal::from_micros(20_000_000_000),
            Decimal::from_micros(0),
            30
        ),
        Err(InvalidCalculation::NonPositiveRate)
    );
}

#[test]
fn rate_below_zero_is_refused() {
    let calculator = terms(165_000_000_000, 20_000_000_000, -4_300_000, 30);
    assert_eq!(calculator.calculate_installment(), Err(InvalidCalculation::NonPositiveRate));
    let smallest = terms(165_000_000_000, 20_000_000_000, -1, 30);
    assert_eq!(smallest.calculate_installment(), Err(InvalidCalculation::NonPositiveRate));
}

#[test]
fn smallest_positive_rate_is_accepted() {
    let calculator = terms(165_000_000_000, 20_000_000_000, 1, 30);
    assert_eq!(calculator.calculate_installment(), Ok(Decimal::from_micros(402_777_838)));
}

#[test]
fn zero_years_have_no_installment() {
    let calculator = terms(165_000_000_000, 20_000_000_000, 4_300_000, 0);
    assert_eq!(calculator.calculate_installment(), Err(InvalidCalculation::ZeroDuration));
    assert_eq!(
        Calculator::new(
            Decimal::from_micros(165_000_000_000),
            Decimal::from_micros(20_000_000_000),
            Decimal::from_micros(4_300_000),
            0
        ),
        Err(InvalidCalculation::ZeroDuration)
    );
}

#[test]
fn rate_is_looked_at_before_duration() {
    let calculator = terms(165_000_000_000, 20_000_000_000, 0, 0);
    assert_eq!(calculator.calculate_installment(), Err(InvalidCalculation::NonPositiveRate));
}

#[test]
fn amounts_below_zero_are_refused() {
    assert_eq!(
        Calculator::new(
            Decimal::from_micros(-1),
            Decimal::from_micros(-2),
            Decimal::from_micros(4_300_000),
            30
        ),
        Err(InvalidCalculation::NegativeAmount)
    );
    assert_eq!(
        Calculator::new(
            Decimal::from_micros(165_000_000_000),
            Decimal::from_micros(-1),
            Decimal::from_micros(4_300_000),
            30
        ),
        Err(InvalidCalculation::NegativeAmount)
    );
    let mut calculator = terms(-1, -2, 4_300_000, 30);
    assert_eq!(calculator.calculate_principal(), Ok(Decimal::from_micros(1)));
    assert_eq!(calculator.update(), Err(InvalidCalculation::NegativeAmount));
}

#[test]
fn principal_too_large_to_hold_is_refused() {
    let calculator = terms(i64::MAX, -1, 4_300_000, 30);
    assert_eq!(calculator.calculate_principal(), Err(InvalidCalculation::OutOfRange));
    let widest = terms(i64::MAX, i64::MIN, 4_300_000, 30);
    assert_eq!(widest.calculate_principal(), Err(InvalidCalculation::OutOfRange));
    let largest = terms(i64::MAX, 0, 4_300_000, 30);
    assert_eq!(largest.calculate_principal(), Ok(Decimal::from_micros(i64::MAX)));
}

#[test]
fn installment_too_large_to_hold_is_refused() {
    // The largest principal at the largest rate over one year.
    let calculator = terms(i64::MAX, 0, i64::MAX, 1);
    assert_eq!(calculator.calculate_installment(), Err(InvalidCalculation::OutOfRange));
    let mut updated = calculator.clone();
    assert_eq!(updated.update(), Err(InvalidCalculation::OutOfRange));
    assert_eq!(updated, calculator);
}

#[test]
fn installment_of_the_largest_principal_at_a_small_rate() {
    let one_year = terms(i64::MAX, 0, 1, 1);
    assert_eq!(
        one_year.calculate_installment(),
        Ok(Decimal::from_micros(768_614_340_093_913_484))
    );
    let longest = terms(i64::MAX, 0, 1, 255);
    assert_eq!(longest.calculate_installment(), Ok(Decimal::from_micros(3_014_177_710_726_941)));
}

#[test]
fn table_too_large_to_hold_is_refused_and_nothing_is_appended() {
    let row = YearBalance::new(Decimal::from_micros(7));
    let mut calculator = Calculator::from_parts(
        Decimal::from_micros(10),
        Decimal::from_micros(3),
        2,
        Decimal::from_micros(i64::MAX),
        Decimal::from_micros(4_300_000),
        Decimal::from_micros(7),
        vec![row],
    );
    let before = calculator.clone();
    assert_eq!(calculator.calculate_payments(), Err(InvalidCalculation::OutOfRange));
    assert_eq!(calculator, before);
}

#[test]
fn refused_update_changes_nothing() {
    let mut calculator = Calculator::new(
        Decimal::from_micros(165_000_000_000),
        Decimal::from_micros(20_000_000_000),
        Decimal::from_micros(4_300_000),
        30,
    )
    .unwrap();
    let mut broken = Calculator::from_parts(
        calculator.asking_price(),
        Decimal::from_micros(165_000_000_001),
        calculator.years_duration(),
        calculator.installment(),
        calculator.rate(),
        calculator.principal(),
        calculator.payments().clone(),
    );
    let before = broken.clone();
    assert_eq!(broken.update(), Err(InvalidCalculation::DownPaymentExceedsPrice));
    assert_eq!(broken, before);
    assert_eq!(broken.payments().len(), 31);
    assert_eq!(broken.principal(), Decimal::from_micros(145_000_000_000));
    assert_eq!(calculator.update(), Ok(()));
}

#[test]
fn refused_update_keeps_rate_refusal_apart_from_principal() {
    let mut calculator = terms(165_000_000_000, 20_000_000_000, -1, 30);
    let before = calculator.clone();
    assert_eq!(calculator.update(), Err(InvalidCalculation::NonPositiveRate));
    assert_eq!(calculator, before);
    let mut both = terms(20_000_000_000, 165_000_000_000, -1, 30);
    assert_eq!(both.update(), Err(InvalidCalculation::DownPaymentExceedsPrice));
}

#[test]
fn every_reason_has_its_words() {
    assert_eq!(InvalidCalculation::NegativeAmount.reason(), "amount is negative");
    assert_eq!(
        InvalidCalculation::DownPaymentExceedsPrice.reason(),
        "down payment exceeds price"
    );
    assert_eq!(InvalidCalculation::NonPositiveRate.reason(), "non-positive rate");
    assert_eq!(InvalidCalculation::ZeroDuration.reason(), "duration is zero");
    assert_eq!(InvalidCalculation::OutOfRange.reason(), "result is out of range");
}
