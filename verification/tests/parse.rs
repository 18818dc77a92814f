use zhang::account::Account;
use zhang::amount::Amount;
use zhang::data::{Balance, BalanceCheck, BalancePad, Comment, Meta, Open, Options, Transaction};
use zhang::date::{Date, NaiveDate, NaiveDateTime};
use zhang::decimal::Decimal;
use zhang::models::{Directive, StringOrAccount, ZhangString};
use zhang::parser::{parse_zhang, ParseError, ZhangParser};

fn quote(s: &str) -> ZhangString {
    ZhangString::QuoteString(s.to_string())
}

fn account(s: &str) -> Account {
    Account::from_text(s).unwrap()
}

fn day(y: i32, m: u32, d: u32) -> NaiveDate {
    NaiveDate::from_ymd_opt(y, m, d).unwrap()
}

fn date_hour(y: i32, m: u32, d: u32, h: u32, min: u32) -> Date {
    Date::DateHour(day(y, m, d).and_hms_opt(h, min, 0).unwrap())
}

fn datetime(y: i32, m: u32, d: u32, h: u32, min: u32, s: u32) -> Date {
    Date::Datetime(day(y, m, d).and_hms_opt(h, min, s).unwrap())
}

#[test]
fn p_should_parse_date_hour() {
    let mut result = parse_zhang("2101-10-10 10:10 open Assets:Hello").unwrap();
    let directive = result.remove(0);
    assert_eq!(
        Directive::Open(Open {
            date: date_hour(2101, 10, 10, 10, 10),
            account: account("Assets:Hello"),
            commodities: vec![],
            meta: Meta::default()
        }),
        directive.data
    )
}

#[test]
fn p_should_parse_balance_check_and_balance_pad() {
    let balance = parse_zhang("2101-10-10 10:10 balance Assets:Hello 123 CNY").unwrap().remove(0);
    assert_eq!(
        Directive::Balance(Balance::BalanceCheck(BalanceCheck {
            date: Date::DateHour(NaiveDateTime { date: day(2101, 10, 10), hour: 10, minute: 10, second: 0 }),
            account: Account::from_text("Assets:Hello").unwrap(),
            amount: Amount::new(Decimal::from_i32(123), "CNY"),
            tolerance: None,
            distance: None,
            current_amount: None,
            meta: Meta::default()
        })),
        balance.data
    );

    let balance = parse_zhang("2101-10-10 10:10 balance Assets:Hello 123 CNY with pad Income:Earnings")
        .unwrap()
        .remove(0);
    assert_eq!(
        Directive::Balance(Balance::BalancePad(BalancePad {
            date: Date::DateHour(NaiveDateTime { date: day(2101, 10, 10), hour: 10, minute: 10, second: 0 }),
            account: Account::from_text("Assets:Hello").unwrap(),
            amount: Amount::new(Decimal::from_i32(123), "CNY"),
            tolerance: None,
            diff_amount: None,
            pad: Account::from_text("Income:Earnings").unwrap(),
            meta: Meta::default()
        })),
        balance.data
    )
}

#[test]
fn p_should_parse() {
    // options
    let mut vec = parse_zhang("option \"title\" \"Example\"\n").unwrap();
    assert_eq!(vec.len(), 1);
    assert_eq!(
        vec.pop().unwrap().data,
        Directive::Option(Options { key: quote("title"), value: quote("Example") })
    );

    // comment
    let mut vec = parse_zhang("; comment here\n").unwrap();
    assert_eq!(vec.len(), 1);
    assert_eq!(
        vec.pop().unwrap().data,
        Directive::Comment(Comment { content: "; comment here".to_string() })
    );

    // document
    let mut vec = parse_zhang("1970-01-01 01:01:01 document Assets:Card \"abc.jpg\"\n").unwrap();
    assert_eq!(vec.len(), 1);
    let directive = vec.pop().unwrap().data;
    assert!(matches!(directive, Directive::Document(..)));
    if let Directive::Document(inner) = directive {
        assert_eq!(inner.date, datetime(1970, 1, 1, 1, 1, 1));
        assert_eq!(inner.account, account("Assets:Card"));
        assert_eq!(inner.filename, quote("abc.jpg"));
    }

    // price
    let mut vec = parse_zhang("1970-01-01 01:01:01 price USD 7 CNY\n").unwrap();
    assert_eq!(vec.len(), 1);
    let directive = vec.pop().unwrap().data;
    assert!(matches!(directive, Directive::Price(..)));
    if let Directive::Price(inner) = directive {
        assert_eq!(inner.date, datetime(1970, 1, 1, 1, 1, 1));
        assert_eq!(inner.currency, "USD");
        assert_eq!(inner.amount.currency, "CNY");
        assert_eq!(inner.amount.number, Decimal::from_i32(7));
    }

    // event
    let mut vec = parse_zhang("1970-01-01 01:01:01 event \"something\" \"value\"\n").unwrap();
    assert_eq!(vec.len(), 1);
    let directive = vec.pop().unwrap().data;
    assert!(matches!(directive, Directive::Event(..)));
    if let Directive::Event(inner) = directive {
        assert_eq!(inner.date, datetime(1970, 1, 1, 1, 1, 1));
        assert_eq!(inner.event_type, quote("something"));
        assert_eq!(inner.description, quote("value"));
    }

    // plugin
    let mut vec = parse_zhang("plugin \"module\" \"123\" \"345\"\n").unwrap();
    assert_eq!(vec.len(), 1);
    let directive = vec.pop().unwrap().data;
    assert!(matches!(directive, Directive::Plugin(..)));
    if let Directive::Plugin(inner) = directive {
        assert_eq!(inner.module, quote("module"));
        assert_eq!(inner.value, vec![quote("123"), quote("345")]);
    }

    // custom
    let mut vec =
        parse_zhang("1970-01-01 01:01:01 custom \"budget\" Assets:Card \"100 CNY\" \"monthly\"\n").unwrap();
    assert_eq!(vec.len(), 1);
    let directive = vec.pop().unwrap().data;
    assert!(matches!(directive, Directive::Custom(..)));
    if let Directive::Custom(inner) = directive {
        assert_eq!(inner.date, datetime(1970, 1, 1, 1, 1, 1));
        assert_eq!(inner.custom_type, quote("budget"));
        assert_eq!(
            inner.values,
            vec![
                StringOrAccount::Account(account("Assets:Card")),
                StringOrAccount::String(quote("100 CNY")),
                StringOrAccount::String(quote("monthly"))
            ]
        );
    }
}

#[test]
fn p_should_support_trailing_space() {
    let vec = parse_zhang("2022-03-24 11:38:56 \"\"\n  Assets:B 1 CNY\n  Assets:B   \n").unwrap();
    assert_eq!(vec.len(), 1);
}

#[test]
fn parse_records_spans_of_items() {
    let text = "option \"a\" \"b\"\n\n2022-01-01 * \"x\"\n  Assets:A 1 CNY\n  Assets:B\n; note\n";
    let vec = ZhangParser::parse(text).unwrap();
    assert_eq!(vec.len(), 3);
    assert_eq!((vec[0].span.start, vec[0].span.end), (1, 1));
    assert_eq!((vec[1].span.start, vec[1].span.end), (3, 5));
    assert_eq!(vec[1].span.content, "2022-01-01 * \"x\"\n  Assets:A 1 CNY\n  Assets:B");
    assert_eq!((vec[2].span.start, vec[2].span.end), (6, 6));
    assert_eq!(vec[1].data.datetime(), Some(day(2022, 1, 1).and_midnight()));
}

#[test]
fn parse_reports_the_line_of_an_error() {
    assert_eq!(parse_zhang("option \"a\" \"b\"\n  Assets:A 1 CNY\n"), Err(ParseError { line: 1 }));
    assert_eq!(parse_zhang("\n  Assets:A 1 CNY\n"), Err(ParseError { line: 2 }));
    assert_eq!(parse_zhang("2022-13-01 open Assets:A\n"), Err(ParseError { line: 1 }));
    assert_eq!(parse_zhang("2022-01-01 open Cash:A\n"), Err(ParseError { line: 1 }));
    assert_eq!(parse_zhang("option \"a\n"), Err(ParseError { line: 1 }));
}

#[test]
fn parse_reads_transaction_parts() {
    let vec = parse_zhang(
        "2022-06-02 ! \"payee\" \"narration\" #t1 ^l1 #t1\n  ! Assets:Card -100.50 CNY\n  memo: \"lunch\"\n  Expenses:Food\n",
    )
    .unwrap();
    match &vec[0].data {
        Directive::Transaction(Transaction { flag, payee, narration, tags, links, postings, meta, .. }) => {
            assert_eq!(*flag, Some(zhang::models::Flag::Warning));
            assert_eq!(*payee, Some(quote("payee")));
            assert_eq!(*narration, Some(quote("narration")));
            assert_eq!(*tags, vec!["t1".to_string()]);
            assert_eq!(*links, vec!["l1".to_string()]);
            assert_eq!(postings.len(), 2);
            assert_eq!(postings[0].flag, Some(zhang::models::Flag::Warning));
            assert_eq!(postings[0].units, Some(Amount::new(Decimal::new(-10050, 2), "CNY")));
            assert_eq!(postings[1].units, None);
            assert_eq!(meta.get_one(&"memo".to_string()), Some(&quote("lunch")));
        }
        _ => panic!("not a transaction"),
    }
}
