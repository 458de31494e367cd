//! The calculator: the terms of one loan and what follows from them.
use vstd::prelude::*;
use crate::decimal::Decimal;
use crate::error::InvalidCalculation;
use crate::formulas::{
    held,
    installment_equation,
    installment_outcome,
    installment_value,
    principal_equation,
    principal_outcome,
};
use crate::schedule::{
    interest_on,
    lemma_schedule_continuity,
    lemma_schedule_years,
    opening_row,
    rows_view,
    schedule,
    schedule_representable,
    tabulate,
    Row,
    YearBalance,
};

verus! {

/// The terms of a loan and what is derived from them.
///
/// Asking price, down payment, rate and duration are the inputs; principal,
/// installment and the table of payments are derived. The derived values are
/// only ever replaced together, by [`Calculator::update`], which either
/// succeeds in full or leaves the calculator as it was.
#[derive(Clone, Debug, PartialEq, Eq)]
pub struct Calculator {
    asking_price: Decimal,
    down_payment: Decimal,
    years_duration: u8,
    installment: Decimal,
    rate: Decimal,
    principal: Decimal,
    payments: Vec<YearBalance>,
}

/// A calculator as mathematical values: counts of millionths, a number of
/// years and a sequence of rows.
pub struct LoanTerms {
    /// The price of what is bought.
    pub asking_price: int,
    /// What is paid at once.
    pub down_payment: int,
    /// How many years the loan runs.
    pub years_duration: nat,
    /// The level monthly installment.
    pub installment: int,
    /// The yearly interest rate in percent.
    pub rate: int,
    /// What is financed.
    pub principal: int,
    /// The table of balances, year by year.
    pub payments: Seq<Row>,
}

impl LoanTerms {
    /// These terms with principal, installment and table derived afresh
    /// from the inputs, or the reason why there are none. An asking price
    /// or down payment below zero is refused first. Then the principal is
    /// derived, then the installment of that principal, then the table of
    /// both; the first of the three that cannot be had gives the reason.
    pub open spec fn updated(self) -> Result<LoanTerms, InvalidCalculation> {
        if self.asking_price < 0 || self.down_payment < 0 {
            Err(InvalidCalculation::NegativeAmount)
        } else {
            match principal_outcome(self.asking_price, self.down_payment) {
                Err(reason) => Err(reason),
                Ok(principal) => match installment_outcome(
                    principal,
                    self.rate,
                    self.years_duration,
                ) {
                    Err(reason) => Err(reason),
                    Ok(installment) => if schedule_representable(
                        principal,
                        installment,
                        self.rate,
                        self.years_duration,
                    ) {
                        Ok(
                            LoanTerms {
                                principal,
                                installment,
                                payments: schedule(
                                    principal,
                                    installment,
                                    self.rate,
                                    self.years_duration,
                                ),
                                ..self
                            },
                        )
                    } else {
                        Err(InvalidCalculation::OutOfRange)
                    },
                },
            }
        }
    }

    /// Whether the derived values are those that the inputs give.
    pub open spec fn consistent(self) -> bool {
        self.updated() == Ok::<LoanTerms, InvalidCalculation>(self)
    }

    /// The terms that a new calculator has for the four inputs, or the
    /// reason why there is none: the inputs, with what an update derives
    /// from them.
    pub open spec fn created(asking_price: int, down_payment: int, rate: int, years: nat) -> Result<
        LoanTerms,
        InvalidCalculation,
    > {
        (LoanTerms {
            asking_price,
            down_payment,
            years_duration: years,
            installment: 0,
            rate,
            principal: 0,
            payments: Seq::empty(),
        }).updated()
    }
}

/// What an update gives depends on the four inputs alone: two calculators
/// with the same asking price, down payment, rate and duration are updated
/// to the same principal, installment and table, or are refused for the same
/// reason, whatever their derived values were before.
pub proof fn lemma_update_is_determined_by_inputs(first: LoanTerms, second: LoanTerms)
    requires
        first.asking_price == second.asking_price,
        first.down_payment == second.down_payment,
        first.rate == second.rate,
        first.years_duration == second.years_duration,
    ensures
        first.updated() == second.updated(),
{
}

/// In consistent terms the principal is the asking price less the down
/// payment and is not negative, the installment is the level installment of
/// that principal, and the table has the rows of years zero to the last.
pub proof fn lemma_consistent_terms(terms: LoanTerms)
    requires
        terms.consistent(),
    ensures
        terms.principal == terms.asking_price - terms.down_payment,
        terms.principal >= 0,
        terms.rate > 0,
        terms.years_duration > 0,
        terms.installment == installment_value(terms.principal, terms.rate, terms.years_duration),
        terms.payments == schedule(
            terms.principal,
            terms.installment,
            terms.rate,
            terms.years_duration,
        ),
        terms.payments.len() == terms.years_duration + 1,
{
}

/// In consistent terms each year of the table opens with the balance that
/// the year before closed with.
pub proof fn lemma_payments_continuity(terms: LoanTerms, year: int)
    requires
        terms.consistent(),
        1 <= year <= terms.years_duration,
    ensures
        terms.payments[year].start_balance == terms.payments[year - 1].end_balance,
{
    lemma_schedule_continuity(
        terms.principal,
        terms.installment,
        terms.rate,
        terms.years_duration,
        year as nat,
    );
}

/// In consistent terms every row of the table splits its payment into
/// interest and principal, and closes with the opening balance less the
/// principal. After year zero the payment is twelve installments and the
/// interest is that of the opening balance at the rate, rounded down.
pub proof fn lemma_payments_decomposition(terms: LoanTerms, year: int)
    requires
        terms.consistent(),
        0 <= year <= terms.years_duration,
    ensures
        terms.payments[year].year == year,
        terms.payments[year].installment_total == terms.payments[year].interest
            + terms.payments[year].principal,
        terms.payments[year].end_balance == terms.payments[year].start_balance
            - terms.payments[year].principal,
        year >= 1 ==> terms.payments[year].installment_total == 12 * terms.installment,
        year >= 1 ==> terms.payments[year].interest == interest_on(
            terms.payments[year].start_balance,
            terms.rate,
        ),
        year == 0 ==> terms.payments[year] == opening_row(terms.principal),
{
    lemma_schedule_years(
        terms.principal,
        terms.installment,
        terms.rate,
        terms.years_duration,
        year as nat,
    );
}

impl View for Calculator {
    type V = LoanTerms;

    closed spec fn view(&self) -> LoanTerms {
        LoanTerms {
            asking_price: self.asking_price@,
            down_payment: self.down_payment@,
            years_duration: self.years_duration as nat,
            installment: self.installment@,
            rate: self.rate@,
            principal: self.principal@,
            payments: rows_view(self.payments@),
        }
    }
}

/// A result with its calculator as mathematical values.
pub open spec fn viewed(result: Result<Calculator, InvalidCalculation>) -> Result<
    LoanTerms,
    InvalidCalculation,
> {
    match result {
        Ok(calculator) => Ok(calculator@),
        Err(reason) => Err(reason),
    }
}

impl Calculator {
    /// A calculator for the four inputs, with principal, installment and
    /// table derived from them.
    pub fn new(
        asking_price: Decimal,
        down_payment: Decimal,
        rate: Decimal,
        years_duration: u8,
    ) -> (result: Result<Calculator, InvalidCalculation>)
        ensures
            viewed(result) == LoanTerms::created(
                asking_price@,
                down_payment@,
                rate@,
                years_duration as nat,
            ),
            result.is_ok() ==> result.unwrap()@.consistent(),
    {
        let mut calculator = Calculator {
            asking_price,
            down_payment,
            years_duration,
            installment: Decimal::zero(),
            rate,
            principal: Decimal::zero(),
            payments: Vec::new(),
        };
        assert(rows_view(calculator.payments@) =~= Seq::<Row>::empty());
        match calculator.update() {
            Ok(()) => Ok(calculator),
            Err(reason) => Err(reason),
        }
    }

    /// Derives principal, installment and table afresh from the inputs and
    /// replaces all three, the table from year zero on. Where one of them
    /// cannot be had, nothing is changed and the reason is returned.
    pub fn update(&mut self) -> (result: Result<(), InvalidCalculation>)
        ensures
            match old(self)@.updated() {
                Ok(terms) => result.is_ok() && final(self)@ == terms,
                Err(reason) => result == Err::<(), InvalidCalculation>(reason) && final(self)@
                    == old(self)@,
            },
            result.is_ok() ==> final(self)@.consistent(),
    {
        if self.asking_price.micros < 0 || self.down_payment.micros < 0 {
            return Err(InvalidCalculation::NegativeAmount);
        }
        let principal = match principal_equation(self.asking_price, self.down_payment) {
            Ok(principal) => principal,
            Err(reason) => {
                return Err(reason);
            },
        };
        let installment = match installment_equation(principal, self.rate, self.years_duration) {
            Ok(installment) => installment,
            Err(reason) => {
                return Err(reason);
            },
        };
        let payments = match tabulate(principal, installment, self.rate, self.years_duration) {
            Ok(payments) => payments,
            Err(reason) => {
                return Err(reason);
            },
        };
        self.principal = principal;
        self.installment = installment;
        self.payments = payments;
        Ok(())
    }

    /// The principal that the stored asking price and down payment give:
    /// their difference, refused where the down payment is the larger.
    pub fn calculate_principal(&self) -> (principal: Result<Decimal, InvalidCalculation>)
        ensures
            held(principal) == principal_outcome(self@.asking_price, self@.down_payment),
            self@.down_payment > self@.asking_price <==> principal == Err::<
                Decimal,
                InvalidCalculation,
            >(InvalidCalculation::DownPaymentExceedsPrice),
    {
        principal_equation(self.asking_price, self.down_payment)
    }

    /// The installment that the stored principal, rate and duration give,
    /// refused where the rate is not positive or the duration is zero.
    pub fn calculate_installment(&self) -> (installment: Result<Decimal, InvalidCalculation>)
        ensures
            held(installment) == installment_outcome(
                self@.principal,
                self@.rate,
                self@.years_duration,
            ),
            self@.rate <= 0 <==> installment == Err::<Decimal, InvalidCalculation>(
                InvalidCalculation::NonPositiveRate,
            ),
    {
        installment_equation(self.principal, self.rate, self.years_duration)
    }

    /// Appends to the payments the table that the stored principal,
    /// installment, rate and duration give: the row of year zero, then one
    /// row for each year. Where a number of the table cannot be held,
    /// nothing is appended.
    pub fn calculate_payments(&mut self) -> (result: Result<(), InvalidCalculation>)
        ensures
            schedule_representable(
                old(self)@.principal,
                old(self)@.installment,
                old(self)@.rate,
                old(self)@.years_duration,
            ) ==> result.is_ok() && final(self)@ == (LoanTerms {
                payments: old(self)@.payments + schedule(
                    old(self)@.principal,
                    old(self)@.installment,
                    old(self)@.rate,
                    old(self)@.years_duration,
                ),
                ..old(self)@
            }),
            !schedule_representable(
                old(self)@.principal,
                old(self)@.installment,
                old(self)@.rate,
                old(self)@.years_duration,
            ) ==> result == Err::<(), InvalidCalculation>(InvalidCalculation::OutOfRange)
                && final(self)@ == old(self)@,
    {
        match tabulate(self.principal, self.installment, self.rate, self.years_duration) {
            Ok(mut rows) => {
                let ghost before = self.payments@;
                let ghost added = rows@;
                self.payments.append(&mut rows);
                assert(rows_view(before + added) =~= rows_view(before) + rows_view(added));
                Ok(())
            },
            Err(reason) => Err(reason),
        }
    }

    /// A calculator that holds the given values as they are. Nothing is
    /// derived and nothing is checked: the values may be inconsistent until
    /// the next successful [`Calculator::update`].
    pub fn from_parts(
        asking_price: Decimal,
        down_payment: Decimal,
        years_duration: u8,
        installment: Decimal,
        rate: Decimal,
        principal: Decimal,
        payments: Vec<YearBalance>,
    ) -> (calculator: Calculator)
        ensures
            calculator@ == (LoanTerms {
                asking_price: asking_price@,
                down_payment: down_payment@,
                years_duration: years_duration as nat,
                installment: installment@,
                rate: rate@,
                principal: principal@,
                payments: rows_view(payments@),
            }),
    {
        Calculator {
            asking_price,
            down_payment,
            years_duration,
            installment,
            rate,
            principal,
            payments,
        }
    }

    /// The price of what is bought.
    pub fn asking_price(&self) -> (asking_price: Decimal)
        ensures
            asking_price@ == self@.asking_price,
    {
        self.asking_price
    }

    /// What is paid at once.
    pub fn down_payment(&self) -> (down_payment: Decimal)
        ensures
            down_payment@ == self@.down_payment,
    {
        self.down_payment
    }

    /// How many years the loan runs.
    pub fn years_duration(&self) -> (years_duration: u8)
        ensures
            years_duration == self@.years_duration,
    {
        self.years_duration
    }

    /// The level monthly installment, as last derived.
    pub fn installment(&self) -> (installment: Decimal)
        ensures
            installment@ == self@.installment,
    {
        self.installment
    }

    /// The yearly interest rate in percent.
    pub fn rate(&self) -> (rate: Decimal)
        ensures
            rate@ == self@.rate,
    {
        self.rate
    }

    /// What is financed, as last derived.
    pub fn principal(&self) -> (principal: Decimal)
        ensures
            principal@ == self@.principal,
    {
        self.principal
    }

    /// The table of balances, as last derived.
    pub fn payments(&self) -> (payments: &Vec<YearBalance>)
        ensures
            rows_view(payments@) == self@.payments,
    {
        &self.payments
    }
}

} // verus!
