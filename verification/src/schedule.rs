//! The year-by-year table of balances.
//!
//! The table is a left fold: the row of year zero holds the principal before
//! any payment, and each later row follows from the closing balance of the
//! row before it, the installment and the rate.
use vstd::prelude::*;
use crate::decimal::{floor_div, representable, Decimal};
use crate::error::InvalidCalculation;

verus! {

/// One year of the table.
#[derive(Clone, Copy, Debug, PartialEq, Eq, Structural)]
pub struct YearBalance {
    /// The year, counted from one; zero is the row before any payment.
    pub year: u8,
    /// What is owed when the year begins.
    pub start_balance: Decimal,
    /// What is paid during the year.
    pub installment_total: Decimal,
    /// The part of the payment that is interest.
    pub interest: Decimal,
    /// The part of the payment that reduces what is owed.
    pub principal: Decimal,
    /// What is owed when the year ends.
    pub end_balance: Decimal,
}

/// A row of the table as mathematical integers: the year, and five counts of
/// millionths.
pub struct Row {
    pub year: int,
    pub start_balance: int,
    pub installment_total: int,
    pub interest: int,
    pub principal: int,
    pub end_balance: int,
}

impl View for YearBalance {
    type V = Row;

    open spec fn view(&self) -> Row {
        Row {
            year: self.year as int,
            start_balance: self.start_balance@,
            installment_total: self.installment_total@,
            interest: self.interest@,
            principal: self.principal@,
            end_balance: self.end_balance@,
        }
    }
}

/// The rows of a table as mathematical rows.
pub open spec fn rows_view(rows: Seq<YearBalance>) -> Seq<Row> {
    rows.map_values(|row: YearBalance| row@)
}

/// One year's interest on `balance` at `rate` percent, rounded down to a
/// whole millionth.
pub open spec fn interest_on(balance: int, rate: int) -> int {
    balance * rate / 100_000_000
}

/// The row of year zero: the principal is owed, nothing has been paid.
pub open spec fn opening_row(principal: int) -> Row {
    Row {
        year: 0,
        start_balance: principal,
        installment_total: 0,
        interest: 0,
        principal: 0,
        end_balance: principal,
    }
}

/// The row that follows `previous`. The year opens with what the year before
/// closed with, twelve installments are paid, interest is charged on the
/// opening balance, and what the payment exceeds the interest by comes off
/// the balance.
pub open spec fn next_row(previous: Row, installment: int, rate: int) -> Row {
    let installment_total = 12 * installment;
    let interest = interest_on(previous.end_balance, rate);
    let principal = installment_total - interest;
    Row {
        year: previous.year + 1,
        start_balance: previous.end_balance,
        installment_total,
        interest,
        principal,
        end_balance: previous.end_balance - principal,
    }
}

/// Row `year` of the table for a loan of `principal` paid off by
/// `installment` at `rate` percent.
pub open spec fn schedule_row(principal: int, installment: int, rate: int, year: nat) -> Row
    decreases year,
{
    if year == 0 {
        opening_row(principal)
    } else {
        next_row(schedule_row(principal, installment, rate, (year - 1) as nat), installment, rate)
    }
}

/// The whole table: rows zero to `years`.
pub open spec fn schedule(principal: int, installment: int, rate: int, years: nat) -> Seq<Row> {
    Seq::new(years + 1, |year: int| schedule_row(principal, installment, rate, year as nat))
}

/// Whether a mathematical row can be held in a `YearBalance`.
pub open spec fn row_representable(row: Row) -> bool {
    &&& 0 <= row.year <= u8::MAX
    &&& representable(row.start_balance)
    &&& representable(row.installment_total)
    &&& representable(row.interest)
    &&& representable(row.principal)
    &&& representable(row.end_balance)
}

/// Whether every row of the table can be held.
pub open spec fn schedule_representable(
    principal: int,
    installment: int,
    rate: int,
    years: nat,
) -> bool {
    forall|year: nat|
        year <= years ==> row_representable(
            #[trigger] schedule_row(principal, installment, rate, year),
        )
}

/// The table has one row for each year and one for year zero, and row
/// `year` carries the year `year`.
pub proof fn lemma_schedule_years(principal: int, installment: int, rate: int, years: nat, year: nat)
    requires
        year <= years,
    ensures
        schedule(principal, installment, rate, years).len() == years + 1,
        schedule(principal, installment, rate, years)[year as int].year == year,
    decreases year,
{
    if year > 0 {
        lemma_schedule_years(principal, installment, rate, years, (year - 1) as nat);
    }
}

/// A loan of zero years has a table of one row, that of year zero.
pub proof fn lemma_schedule_of_zero_years(principal: int, installment: int, rate: int)
    ensures
        schedule(principal, installment, rate, 0) == seq![opening_row(principal)],
{
    assert(schedule(principal, installment, rate, 0) =~= seq![opening_row(principal)]);
}

/// Each year opens with the balance that the year before closed with.
pub proof fn lemma_schedule_continuity(
    principal: int,
    installment: int,
    rate: int,
    years: nat,
    year: nat,
)
    requires
        1 <= year <= years,
    ensures
        schedule(principal, installment, rate, years)[year as int].start_balance == schedule(
            principal,
            installment,
            rate,
            years,
        )[year - 1].end_balance,
{
}

/// In every row the payment is interest plus principal, and the closing
/// balance is the opening balance less the principal.
pub proof fn lemma_row_decomposition(
    principal: int,
    installment: int,
    rate: int,
    years: nat,
    year: nat,
)
    requires
        year <= years,
    ensures
        ({
            let row = schedule(principal, installment, rate, years)[year as int];
            &&& row.installment_total == row.interest + row.principal
            &&& row.end_balance == row.start_balance - row.principal
        }),
{
}

impl YearBalance {
    /// The row of year zero for a loan of `principal`.
    pub fn new(principal: Decimal) -> (row: YearBalance)
        ensures
            row@ == opening_row(principal@),
    {
        YearBalance {
            year: 0,
            start_balance: principal,
            installment_total: Decimal::zero(),
            interest: Decimal::zero(),
            principal: Decimal::zero(),
            end_balance: principal,
        }
    }

    /// The row of the year after this one, or `OutOfRange` where one of its
    /// numbers cannot be held or the year would pass 255.
    pub fn next(&self, installment: Decimal, rate: Decimal) -> (row: Result<
        YearBalance,
        InvalidCalculation,
    >)
        ensures
            row_representable(next_row(self@, installment@, rate@)) ==> row.is_ok()
                && row.unwrap()@ == next_row(self@, installment@, rate@),
            !row_representable(next_row(self@, installment@, rate@)) ==> row == Err::<
                YearBalance,
                InvalidCalculation,
            >(InvalidCalculation::OutOfRange),
    {
        if self.year == u8::MAX {
            return Err(InvalidCalculation::OutOfRange);
        }
        let opening: i128 = self.end_balance.micros as i128;
        let installment_total: i128 = 12 * (installment.micros as i128);
        assert(-0x4000_0000_0000_0000_0000_0000_0000_0000 <= opening * (rate.micros as i128)
            <= 0x4000_0000_0000_0000_0000_0000_0000_0000) by (nonlinear_arith)
            requires
                -0x8000_0000_0000_0000 <= opening <= 0x8000_0000_0000_0000,
                -0x8000_0000_0000_0000 <= rate.micros as i128 <= 0x8000_0000_0000_0000,
        ;
        let interest: i128 = floor_div(opening * (rate.micros as i128), 100_000_000);
        let principal: i128 = installment_total - interest;
        let closing: i128 = opening - principal;
        let total_held = Decimal::from_wide(installment_total);
        let interest_held = Decimal::from_wide(interest);
        let principal_held = Decimal::from_wide(principal);
        let closing_held = Decimal::from_wide(closing);
        match (total_held, interest_held, principal_held, closing_held) {
            (Some(installment_total), Some(interest), Some(principal), Some(end_balance)) => Ok(
                YearBalance {
                    year: self.year + 1,
                    start_balance: self.end_balance,
                    installment_total,
                    interest,
                    principal,
                    end_balance,
                },
            ),
            _ => Err(InvalidCalculation::OutOfRange),
        }
    }
}

/// The table for a loan of `principal` paid off by `installment` at `rate`
/// percent over `years` years: rows zero to `years`, or `OutOfRange` where a
/// number in one of them cannot be held.
pub fn tabulate(principal: Decimal, installment: Decimal, rate: Decimal, years: u8) -> (rows:
    Result<Vec<YearBalance>, InvalidCalculation>)
    ensures
        schedule_representable(principal@, installment@, rate@, years as nat) ==> rows.is_ok()
            && rows_view(rows.unwrap()@) == schedule(
            principal@,
            installment@,
            rate@,
            years as nat,
        ),
        !schedule_representable(principal@, installment@, rate@, years as nat) ==> rows == Err::<
            Vec<YearBalance>,
            InvalidCalculation,
        >(InvalidCalculation::OutOfRange),
{
    let mut rows: Vec<YearBalance> = Vec::new();
    let mut last = YearBalance::new(principal);
    rows.push(last);
    let mut year: u8 = 0;
    while year < years
        invariant
            year <= years,
            rows@.len() == year + 1,
            last == rows@[year as int],
            forall|k: int|
                0 <= k <= year ==> (#[trigger] rows@[k])@ == schedule_row(
                    principal@,
                    installment@,
                    rate@,
                    k as nat,
                ),
        decreases years - year,
    {
        match last.next(installment, rate) {
            Ok(row) => {
                rows.push(row);
                last = row;
                year = year + 1;
            },
            Err(_) => {
                assert(!row_representable(
                    schedule_row(principal@, installment@, rate@, (year + 1) as nat),
                ));
                return Err(InvalidCalculation::OutOfRange);
            },
        }
    }
    proof {
        assert forall|k: nat| k <= years implies row_representable(
            #[trigger] schedule_row(principal@, installment@, rate@, k),
        ) by {
            assert(rows@[k as int]@ == schedule_row(principal@, installment@, rate@, k));
        }
        assert(rows_view(rows@) =~= schedule(principal@, installment@, rate@, years as nat));
    }
    Ok(rows)
}

} // verus!
