use zhang::account::Account;
use zhang::amount::Amount;
use zhang::beancount::{BalanceDirective, BeancountDirective, BeancountOnlyDirective, BeancountTransformer, PadDirective};
use zhang::data::{Balance, BalanceCheck, BalancePad, Meta, Transaction};
use zhang::date::{Date, NaiveDate};
use zhang::decimal::Decimal;
use zhang::models::Directive;
use zhang::span::{SpanInfo, Spanned};

fn fake_span() -> SpanInfo {
    SpanInfo { start: 0, end: 0, content: "".to_string(), filename: None }
}

fn date(y: i32, m: u32, d: u32) -> Date {
    Date::Date(NaiveDate::from_ymd_opt(y, m, d).unwrap())
}

fn account(s: &str) -> Account {
    Account::from_text(s).unwrap()
}

fn empty_transaction() -> Transaction {
    Transaction {
        date: date(1970, 1, 1),
        flag: None,
        payee: None,
        narration: None,
        tags: vec![],
        links: vec![],
        postings: vec![],
        meta: Meta::default(),
    }
}

fn pad(d: Date, acc: &str, pad: &str) -> Spanned<BeancountDirective> {
    Spanned::new(
        BeancountDirective::Right(BeancountOnlyDirective::Pad(PadDirective {
            date: d,
            account: account(acc),
            pad: account(pad),
            meta: Meta::default(),
        })),
        fake_span(),
    )
}

fn balance(d: Date, acc: &str, n: i32) -> Spanned<BeancountDirective> {
    Spanned::new(
        BeancountDirective::Right(BeancountOnlyDirective::Balance(BalanceDirective {
            date: d,
            account: account(acc),
            meta: Meta::default(),
            amount: Amount::new(Decimal::from_i32(n), "CNY"),
        })),
        fake_span(),
    )
}

#[test]
fn should_append_tag_to_transaction_directive_given_push_tag_directive() {
    let transformer = BeancountTransformer::default();
    let mut directives = transformer.transform(vec![
        Spanned::new(BeancountDirective::Right(BeancountOnlyDirective::PushTag("onetag".to_string())), fake_span()),
        Spanned::new(BeancountDirective::Left(Directive::Transaction(empty_transaction())), fake_span()),
    ]);
    assert_eq!(directives.len(), 1);
    match directives.pop().unwrap().data {
        Directive::Transaction(mut trx) => assert_eq!("onetag", trx.tags.pop().unwrap()),
        _ => unreachable!(),
    }
}

#[test]
fn should_not_append_tag_to_transaction_directive_given_push_tag_directive() {
    let transformer = BeancountTransformer::default();
    let mut directives = transformer.transform(vec![
        Spanned::new(BeancountDirective::Right(BeancountOnlyDirective::PushTag("onetag".to_string())), fake_span()),
        Spanned::new(BeancountDirective::Right(BeancountOnlyDirective::PopTag("onetag".to_string())), fake_span()),
        Spanned::new(BeancountDirective::Left(Directive::Transaction(empty_transaction())), fake_span()),
    ]);
    assert_eq!(directives.len(), 1);
    match directives.pop().unwrap().data {
        Directive::Transaction(mut trx) => assert_eq!(None, trx.tags.pop()),
        _ => unreachable!(),
    }
}

#[test]
fn should_transform_to_non_given_pad_directive() {
    let transformer = BeancountTransformer::default();
    let directives =
        transformer.transform(vec![pad(date(1970, 1, 1), "Assets::BankAccount", "Equity::Open-Balances")]);
    assert_eq!(directives.len(), 0);
}

#[test]
fn should_transform_to_balance_check_directive_given_balance_directive() {
    let transformer = BeancountTransformer::default();
    let mut directives = transformer.transform(vec![balance(date(1970, 1, 2), "Assets::BankAccount", 100)]);
    assert_eq!(directives.len(), 1);
    assert_eq!(
        directives.pop().unwrap().data,
        Directive::Balance(Balance::BalanceCheck(BalanceCheck {
            date: date(1970, 1, 2),
            account: account("Assets::BankAccount"),
            amount: Amount::new(Decimal::from_i32(100), "CNY"),
            tolerance: None,
            distance: None,
            current_amount: None,
            meta: Meta::default(),
        }))
    );
}

#[test]
fn should_transform_to_balance_pad_directive_given_pad_and_balance_directive() {
    let transformer = BeancountTransformer::default();
    let mut directives = transformer.transform(vec![
        pad(date(1970, 1, 1), "Assets::BankAccount", "Equity::Open-Balances"),
        balance(date(1970, 1, 2), "Assets::BankAccount", 100),
    ]);
    assert_eq!(directives.len(), 1);
    assert_eq!(
        directives.pop().unwrap().data,
        Directive::Balance(Balance::BalancePad(BalancePad {
            date: date(1970, 1, 2),
            account: account("Assets::BankAccount"),
            amount: Amount::new(Decimal::from_i32(100), "CNY"),
            tolerance: None,
            diff_amount: None,
            pad: account("Equity::Open-Balances"),
            meta: Meta::default(),
        }))
    );
}

#[test]
fn should_not_pad_a_balance_before_the_pad() {
    let transformer = BeancountTransformer::default();
    let mut directives = transformer.transform(vec![
        pad(date(1970, 1, 3), "Assets:BankAccount", "Equity:Open-Balances"),
        balance(date(1970, 1, 2), "Assets:BankAccount", 100),
    ]);
    assert_eq!(directives.len(), 1);
    assert!(matches!(directives.pop().unwrap().data, Directive::Balance(Balance::BalanceCheck(_))));
}

#[test]
fn should_keep_other_directives_in_order() {
    let transformer = BeancountTransformer::default();
    let directives = transformer.transform(vec![
        Spanned::new(BeancountDirective::Left(Directive::Transaction(empty_transaction())), fake_span()),
        balance(date(1970, 1, 2), "Assets:BankAccount", 100),
    ]);
    assert_eq!(directives.len(), 2);
    assert!(matches!(directives[0].data, Directive::Transaction(_)));
    assert!(matches!(directives[1].data, Directive::Balance(_)));
}

#[test]
fn should_add_every_pushed_tag_once() {
    let transformer = BeancountTransformer::default();
    let mut trx = empty_transaction();
    trx.tags = vec!["b".to_string()];
    let mut directives = transformer.transform(vec![
        Spanned::new(BeancountDirective::Right(BeancountOnlyDirective::PushTag("a".to_string())), fake_span()),
        Spanned::new(BeancountDirective::Right(BeancountOnlyDirective::PushTag("b".to_string())), fake_span()),
        Spanned::new(BeancountDirective::Right(BeancountOnlyDirective::PushTag("c".to_string())), fake_span()),
        Spanned::new(BeancountDirective::Right(BeancountOnlyDirective::PopTag("c".to_string())), fake_span()),
        Spanned::new(BeancountDirective::Left(Directive::Transaction(trx)), fake_span()),
    ]);
    assert_eq!(directives.len(), 1);
    match directives.pop().unwrap().data {
        Directive::Transaction(trx) => assert_eq!(vec!["b".to_string(), "a".to_string()], trx.tags),
        _ => unreachable!(),
    }
}
