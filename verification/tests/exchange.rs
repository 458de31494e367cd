//! A calculator taken apart into a JSON record and put together again.
use amortization::{Calculator, Decimal, YearBalance};
use serde_json::{Number, Value};

fn number_of(decimal: Decimal) -> Value {
    let text = String::from_utf8(decimal.to_text()).unwrap();
    Value::Number(text.parse::<Number>().unwrap())
}

fn decimal_of(record: &serde_json::Map<String, Value>, field: &str) -> Decimal {
    match &record[field] {
        Value::Number(number) => Decimal::from_text(number.as_str().as_bytes()).unwrap(),
        other => panic!("{} is no number: {}", field, other),
    }
}

fn count_of(record: &serde_json::Map<String, Value>, field: &str) -> u8 {
    record[field].as_u64().unwrap() as u8
}

fn row_record(row: &YearBalance) -> Value {
    let mut record = serde_json::Map::new();
    record.insert("year".to_string(), Value::from(row.year));
    record.insert("start_balance".to_string(), number_of(row.start_balance));
    record.insert("installment_total".to_string(), number_of(row.installment_total));
    record.insert("interest".to_string(), number_of(row.interest));
    record.insert("principal".to_string(), number_of(row.principal));
    record.insert("end_balance".to_string(), number_of(row.end_balance));
    Value::Object(record)
}

fn calculator_record(calculator: &Calculator) -> Value {
    let mut record = serde_json::Map::new();
    record.insert("asking_price".to_string(), number_of(calculator.asking_price()));
    record.insert("down_payment".to_string(), number_of(calculator.down_payment()));
    record.insert("years_duration".to_string(), Value::from(calculator.years_duration()));
    record.insert("installment".to_string(), number_of(calculator.installment()));
    record.insert("rate".to_string(), number_of(calculator.rate()));
    record.insert("principal".to_string(), number_of(calculator.principal()));
    record.insert(
        "payments".to_string(),
        Value::Array(calculator.payments().iter().map(row_record).collect()),
    );
    Value::Object(record)
}

fn row_of(record: &Value) -> YearBalance {
    let record = record.as_object().unwrap();
    assert_eq!(record.len(), 6);
    YearBalance {
        year: count_of(record, "year"),
        start_balance: decimal_of(record, "start_balance"),
        installment_total: decimal_of(record, "installment_total"),
        interest: decimal_of(record, "interest"),
        principal: decimal_of(record, "principal"),
        end_balance: decimal_of(record, "end_balance"),
    }
}

fn calculator_of(record: &Value) -> Calculator {
    let record = record.as_object().unwrap();
    assert_eq!(record.len(), 7);
    Calculator::from_parts(
        decimal_of(record, "asking_price"),
        decimal_of(record, "down_payment"),
        count_of(record, "years_duration"),
        decimal_of(record, "installment"),
        decimal_of(record, "rate"),
        decimal_of(record, "principal"),
        record["payments"].as_array().unwrap().iter().map(row_of).collect(),
    )
}

#[test]
fn record_survives_json_text() {
    let calculator = Calculator::new(
        Decimal::from_text(b"165000.0").unwrap(),
        Decimal::from_text(b"20000.0").unwrap(),
        Decimal::from_text(b"4.3").unwrap(),
        30,
    )
    .unwrap();
    let text = serde_json::to_string_pretty(&calculator_record(&calculator)).unwrap();
    assert!(text.contains("\"installment\": 717.563590"));
    assert!(text.contains("\"end_balance\": 4877.582647"));
    let record: Value = serde_json::from_str(&text).unwrap();
    assert_eq!(calculator_of(&record), calculator);
}

#[test]
fn record_of_extreme_numbers_survives_json_text() {
    let rows = vec![
        YearBalance {
            year: 255,
            start_balance: Decimal::from_micros(i64::MAX),
            installment_total: Decimal::from_micros(i64::MIN),
            interest: Decimal::from_micros(-1),
            principal: Decimal::from_micros(1),
            end_balance: Decimal::from_micros(0),
        },
    ];
    let calculator = Calculator::from_parts(
        Decimal::from_micros(i64::MIN),
        Decimal::from_micros(i64::MAX),
        255,
        Decimal::from_micros(-999_999),
        Decimal::from_micros(123_456_789_012_345_678),
        Decimal::from_micros(7),
        rows,
    );
    let text = serde_json::to_string(&calculator_record(&calculator)).unwrap();
    let record: Value = serde_json::from_str(&text).unwrap();
    assert_eq!(calculator_of(&record), calculator);
}

#[test]
fn published_figures_are_read_as_decimals() {
    let text = r#"{
        "year": 30,
        "start_balance": 12931.358,
        "installment_total": 8610.778,
        "interest": 556.04846,
        "principal": 8054.73,
        "end_balance": 4876.6284
    }"#;
    let record: Value = serde_json::from_str(text).unwrap();
    assert_eq!(
        row_of(&record),
        YearBalance {
            year: 30,
            start_balance: Decimal::from_micros(12_931_358_000),
            installment_total: Decimal::from_micros(8_610_778_000),
            interest: Decimal::from_micros(556_048_460),
            principal: Decimal::from_micros(8_054_730_000),
            end_balance: Decimal::from_micros(4_876_628_400),
        }
    );
}
