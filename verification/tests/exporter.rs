use zhang::data::{Balance, Meta};
use zhang::date::{Date, NaiveDate};
use zhang::exporter::convert_datetime_to_date;
use zhang::models::{Directive, ZhangString};
use zhang::parser::parse_zhang;

fn first(text: &str) -> Directive {
    parse_zhang(text).unwrap().remove(0).data
}

fn day(y: i32, m: u32, d: u32) -> Date {
    Date::Date(NaiveDate::from_ymd_opt(y, m, d).unwrap())
}

fn time_of(meta: &Meta) -> Vec<String> {
    meta.get_all(&"time".to_string()).into_iter().map(|z| z.as_str().to_string()).collect()
}

#[test]
fn datetime_moves_to_time_metadata() {
    match convert_datetime_to_date(first("1970-01-01 01:02:03 open Assets:Hello\n")) {
        Directive::Open(open) => {
            assert_eq!(day(1970, 1, 1), open.date);
            assert_eq!(vec!["01:02:03".to_string()], time_of(&open.meta));
            assert_eq!(
                Some(&ZhangString::QuoteString("01:02:03".to_string())),
                open.meta.get_one(&"time".to_string())
            );
        },
        _ => unreachable!(),
    }
}

#[test]
fn date_hour_stays_outside_balances() {
    let directive = first("1970-01-01 01:02 open Assets:Hello\n");
    assert_eq!(directive.clone(), convert_datetime_to_date(directive));
}

#[test]
fn balance_date_hour_moves_to_time_metadata() {
    match convert_datetime_to_date(first("1970-01-01 10:10 balance Assets:Hello 1 CNY\n")) {
        Directive::Balance(Balance::BalanceCheck(check)) => {
            assert_eq!(day(1970, 1, 1), check.date);
            assert_eq!(vec!["10:10:00".to_string()], time_of(&check.meta));
        },
        _ => unreachable!(),
    }
}

#[test]
fn day_dates_stay() {
    let directive = first("1970-01-01 open Assets:Hello\n");
    assert_eq!(directive.clone(), convert_datetime_to_date(directive));
    let directive = first("option \"a\" \"b\"\n");
    assert_eq!(directive.clone(), convert_datetime_to_date(directive));
}
