use zhang::account::Account;
use zhang::amount::Amount;
use zhang::beancount::{BeancountDirective, BeancountOnlyDirective};
use zhang::beancount_parser::{parse, BeancountParer};
use zhang::data::{Balance, BalanceCheck, BalancePad, Meta, Open, Options, Transaction};
use zhang::date::{Date, NaiveDate};
use zhang::decimal::Decimal;
use zhang::models::{Directive, SingleTotalPrice, StringOrAccount, ZhangString};

fn quote(s: &str) -> ZhangString {
    ZhangString::QuoteString(s.to_string())
}

fn account(s: &str) -> Account {
    Account::from_text(s).unwrap()
}

fn day(y: i32, m: u32, d: u32) -> NaiveDate {
    NaiveDate::from_ymd_opt(y, m, d).unwrap()
}

fn date_hour(y: i32, m: u32, d: u32, h: u32, min: u32) -> Date {
    Date::DateHour(day(y, m, d).and_hms_opt(h, min, 0).unwrap())
}

fn datetime(y: i32, m: u32, d: u32, h: u32, min: u32, s: u32) -> Date {
    Date::Datetime(day(y, m, d).and_hms_opt(h, min, s).unwrap())
}

fn zhang(d: BeancountDirective) -> Directive {
    match d {
        BeancountDirective::Left(d) => d,
        BeancountDirective::Right(_) => unreachable!(),
    }
}

#[test]
fn parser_should_parse_date_hour() {
    let mut result = parse("2101-10-10 10:10 open Assets:Hello", None).unwrap();
    let directive = result.remove(0);
    assert_eq!(
        BeancountDirective::Left(Directive::Open(Open {
            date: date_hour(2101, 10, 10, 10, 10),
            account: account("Assets:Hello"),
            commodities: vec![],
            meta: Meta::default()
        })),
        directive.data
    )
}

#[test]
fn parser_should_parse_balance_check_and_balance_pad() {
    let balance = parse("2101-10-10 10:10 balance Assets:Hello 123 CNY", None).unwrap().remove(0);
    assert_eq!(
        BeancountDirective::Left(Directive::Balance(Balance::BalanceCheck(BalanceCheck {
            date: date_hour(2101, 10, 10, 10, 10),
            account: account("Assets:Hello"),
            amount: Amount::new(Decimal::from_i32(123), "CNY"),
            tolerance: None,
            distance: None,
            current_amount: None,
            meta: Meta::default()
        }))),
        balance.data
    );

    let balance =
        parse("2101-10-10 10:10 balance Assets:Hello 123 CNY with pad Income:Earnings", None).unwrap().remove(0);
    assert_eq!(
        BeancountDirective::Left(Directive::Balance(Balance::BalancePad(BalancePad {
            date: date_hour(2101, 10, 10, 10, 10),
            account: account("Assets:Hello"),
            amount: Amount::new(Decimal::from_i32(123), "CNY"),
            tolerance: None,
            diff_amount: None,
            pad: account("Income:Earnings"),
            meta: Meta::default()
        }))),
        balance.data
    )
}

#[test]
fn parser_should_parse() {
    // options
    let mut vec = parse("option \"title\" \"Example\"\n", None).unwrap();
    assert_eq!(vec.len(), 1);
    assert_eq!(
        zhang(vec.pop().unwrap().data),
        Directive::Option(Options { key: quote("title"), value: quote("Example") })
    );

    // document
    let mut vec = parse("1970-01-01 01:01:01 document Assets:Card \"abc.jpg\"\n", None).unwrap();
    assert_eq!(vec.len(), 1);
    let directive = zhang(vec.pop().unwrap().data);
    assert!(matches!(directive, Directive::Document(..)));
    if let Directive::Document(inner) = directive {
        assert_eq!(inner.date, datetime(1970, 1, 1, 1, 1, 1));
        assert_eq!(inner.account, account("Assets:Card"));
        assert_eq!(inner.filename, quote("abc.jpg"));
    }

    // price
    let mut vec = parse("1970-01-01 01:01:01 price USD 7 CNY\n", None).unwrap();
    assert_eq!(vec.len(), 1);
    let directive = zhang(vec.pop().unwrap().data);
    assert!(matches!(directive, Directive::Price(..)));
    if let Directive::Price(inner) = directive {
        assert_eq!(inner.date, datetime(1970, 1, 1, 1, 1, 1));
        assert_eq!(inner.currency, "USD");
        assert_eq!(inner.amount.currency, "CNY");
        assert_eq!(inner.amount.number, Decimal::from_i32(7));
    }

    // event
    let mut vec = parse("1970-01-01 01:01:01 event \"something\" \"value\"\n", None).unwrap();
    assert_eq!(vec.len(), 1);
    let directive = zhang(vec.pop().unwrap().data);
    assert!(matches!(directive, Directive::Event(..)));
    if let Directive::Event(inner) = directive {
        assert_eq!(inner.date, datetime(1970, 1, 1, 1, 1, 1));
        assert_eq!(inner.event_type, quote("something"));
        assert_eq!(inner.description, quote("value"));
    }

    // plugin
    let mut vec = parse("plugin \"module\" \"123\" \"345\"\n", None).unwrap();
    assert_eq!(vec.len(), 1);
    let directive = zhang(vec.pop().unwrap().data);
    assert!(matches!(directive, Directive::Plugin(..)));
    if let Directive::Plugin(inner) = directive {
        assert_eq!(inner.module, quote("module"));
        assert_eq!(inner.value, vec![quote("123"), quote("345")]);
    }

    // custom
    let mut vec =
        parse("1970-01-01 01:01:01 custom \"budget\" Assets:Card \"100 CNY\" \"monthly\"\n", None).unwrap();
    assert_eq!(vec.len(), 1);
    let directive = zhang(vec.pop().unwrap().data);
    assert!(matches!(directive, Directive::Custom(..)));
    if let Directive::Custom(inner) = directive {
        assert_eq!(inner.date, datetime(1970, 1, 1, 1, 1, 1));
        assert_eq!(inner.custom_type, quote("budget"));
        assert_eq!(
            inner.values,
            vec![
                StringOrAccount::Account(account("Assets:Card")),
                StringOrAccount::String(quote("100 CNY")),
                StringOrAccount::String(quote("monthly"))
            ]
        );
    }
}

#[test]
fn parser_should_support_trailing_space() {
    let vec = parse("2022-03-24 11:38:56 \"\"\n  Assets:B 1 CNY\n  Assets:B\n", None).unwrap();
    assert_eq!(vec.len(), 1);
}

fn get_first_posting(content: &str) -> Transaction {
    let directive = parse(content, None).unwrap().pop().unwrap();
    match directive.data {
        BeancountDirective::Left(Directive::Transaction(trx)) => trx,
        _ => unreachable!(),
    }
}

#[test]
fn should_return_all_none_price() {
    let mut trx = get_first_posting("2022-06-02 \"balanced transaction\"\n  Assets:Card\n");
    let posting = trx.postings.pop().unwrap();
    assert_eq!(None, posting.units);
    assert_eq!(None, posting.cost);
    assert_eq!(None, posting.cost_date);
    assert_eq!(None, posting.price);
}

#[test]
fn should_return_unit() {
    let mut trx = get_first_posting("2022-06-02 \"balanced transaction\"\n  Assets:Card -100 CNY\n");
    let posting = trx.postings.pop().unwrap();
    assert_eq!(Some(Amount::new(Decimal::from_i32(-100), "CNY")), posting.units);
    assert_eq!(None, posting.cost);
    assert_eq!(None, posting.cost_date);
    assert_eq!(None, posting.price);
}

#[test]
fn should_return_unit_and_cost() {
    let mut trx = get_first_posting("2022-06-02 \"balanced transaction\"\n  Assets:Card -100 USD { 7 CNY }\n");
    let posting = trx.postings.pop().unwrap();
    assert_eq!(Some(Amount::new(Decimal::from_i32(-100), "USD")), posting.units);
    assert_eq!(Some(Amount::new(Decimal::from_i32(7), "CNY")), posting.cost);
    assert_eq!(None, posting.cost_date);
    assert_eq!(None, posting.price);
}

#[test]
fn should_return_unit_and_cost_cost_date() {
    let mut trx =
        get_first_posting("2022-06-02 \"balanced transaction\"\n  Assets:Card -100 USD { 7 CNY, 2022-06-06 }\n");
    let posting = trx.postings.pop().unwrap();
    assert_eq!(Some(Amount::new(Decimal::from_i32(-100), "USD")), posting.units);
    assert_eq!(Some(Amount::new(Decimal::from_i32(7), "CNY")), posting.cost);
    assert_eq!(Some(Date::Date(day(2022, 6, 6))), posting.cost_date);
    assert_eq!(None, posting.price);
}

#[test]
fn should_return_unit_and_single_price() {
    let mut trx = get_first_posting("2022-06-02 \"balanced transaction\"\n  Assets:Card -100 USD @ 7 CNY\n");
    let posting = trx.postings.pop().unwrap();
    assert_eq!(Some(Amount::new(Decimal::from_i32(-100), "USD")), posting.units);
    assert_eq!(None, posting.cost);
    assert_eq!(None, posting.cost_date);
    assert_eq!(Some(SingleTotalPrice::Single(Amount::new(Decimal::from_i32(7), "CNY"))), posting.price);
}

#[test]
fn should_return_unit_and_total_price() {
    let mut trx = get_first_posting("2022-06-02 \"balanced transaction\"\n  Assets:Card -100 USD @@ 700 CNY\n");
    let posting = trx.postings.pop().unwrap();
    assert_eq!(Some(Amount::new(Decimal::from_i32(-100), "USD")), posting.units);
    assert_eq!(None, posting.cost);
    assert_eq!(None, posting.cost_date);
    assert_eq!(Some(SingleTotalPrice::Total(Amount::new(Decimal::from_i32(700), "CNY"))), posting.price);
}

#[test]
fn should_return_unit_cost_and_single_price() {
    let mut trx =
        get_first_posting("2022-06-02 \"balanced transaction\"\n  Assets:Card -100 USD { 6.9 CNY } @ 7 CNY\n");
    let posting = trx.postings.pop().unwrap();
    assert_eq!(Some(Amount::new(Decimal::from_i32(-100), "USD")), posting.units);
    assert_eq!(Some(Amount::new(Decimal::from_text("6.9").unwrap(), "CNY")), posting.cost);
    assert_eq!(None, posting.cost_date);
    assert_eq!(Some(SingleTotalPrice::Single(Amount::new(Decimal::from_i32(7), "CNY"))), posting.price);
}

#[test]
fn parser_reads_tag_stack_lines() {
    let vec = BeancountParer::parse("pushtag #trip\n\n2022-06-02 \"x\"\n  Assets:Card\npoptag #trip\n", None).unwrap();
    assert_eq!(vec.len(), 3);
    assert_eq!(vec[0].data, BeancountDirective::Right(BeancountOnlyDirective::PushTag("trip".to_string())));
    assert_eq!(vec[2].data, BeancountDirective::Right(BeancountOnlyDirective::PopTag("trip".to_string())));
    assert!(matches!(vec[1].data, BeancountDirective::Left(Directive::Transaction(_))));
    assert_eq!((vec[1].span.start, vec[1].span.end), (3, 4));
}

#[test]
fn parser_records_the_file_in_spans() {
    let vec = parse("option \"a\" \"b\"\n", Some("main.bean".to_string())).unwrap();
    assert_eq!(vec[0].span.filename, Some("main.bean".to_string()));
}

#[test]
fn parser_rejects_a_tag_line_without_tag() {
    assert_eq!(1, parse("pushtag trip\n", None).unwrap_err().line);
}
