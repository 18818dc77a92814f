use zhang::date::{Date, NaiveDate};
use zhang::decimal::Decimal;
use zhang::models::{Flag, ZhangString};
use zhang::wechat::{transaction_of, ImportError, WechatConfig, WechatRecord};

fn record() -> WechatRecord {
    WechatRecord {
        datetime: "2022-03-04 05:06:07".to_string(),
        txn_type: "商户消费".to_string(),
        payee: " Coffee Shop ".to_string(),
        narration: "Latte".to_string(),
        is_income: "支出".to_string(),
        amount: "¥12.50".to_string(),
        pay_type: "零钱".to_string(),
        status: "支付成功".to_string(),
        txn_no: " 4200001 ".to_string(),
        payee_no: "/".to_string(),
        comment: "/".to_string(),
    }
}

fn config(forbid: bool) -> WechatConfig {
    WechatConfig {
        forbid_unknown_payee: forbid,
        wechat_account: "Assets:WeChat".to_string(),
        pay_ways: vec![("零钱".to_string(), "Assets:WeChat".to_string())],
        payees: vec![("Coffee Shop".to_string(), "Expenses:Coffee".to_string())],
    }
}

#[test]
fn record_columns_read_as_the_bill_says() {
    let r = record();
    assert!(!r.is_income());
    let amount = r.amount().unwrap();
    assert_eq!(Decimal::from_text("-12.50").unwrap(), amount.number);
    assert_eq!("CNY", amount.currency);
    assert_eq!(Some("Coffee Shop".to_string()), r.payee());
    assert_eq!(Some("Latte".to_string()), r.narration());
    assert_eq!(Some("4200001".to_string()), r.transaction_no());
    assert_eq!(None, r.payee_no());
    let at = r.datetime().unwrap();
    assert_eq!(NaiveDate::from_ymd_opt(2022, 3, 4).unwrap().and_hms_opt(5, 6, 7).unwrap(), at);
}

#[test]
fn narration_after_the_qr_code_prefix() {
    let mut r = record();
    r.narration = "收款方备注:二维码收款 tea ".to_string();
    assert_eq!(Some("tea".to_string()), r.narration());
    r.narration = "/".to_string();
    assert_eq!(None, r.narration());
}

#[test]
fn income_keeps_its_sign() {
    let mut r = record();
    r.is_income = "收入".to_string();
    r.amount = "3".to_string();
    assert_eq!(Decimal::from_i32(3), r.amount().unwrap().number);
}

#[test]
fn bill_line_becomes_a_transaction() {
    let trx = transaction_of(&record(), &config(true)).unwrap();
    assert_eq!(Date::Datetime(NaiveDate::from_ymd_opt(2022, 3, 4).unwrap().and_hms_opt(5, 6, 7).unwrap()), trx.date);
    assert_eq!(Some(Flag::Okay), trx.flag);
    assert_eq!(Some(ZhangString::QuoteString("Coffee Shop".to_string())), trx.payee);
    assert_eq!(2, trx.postings.len());
    assert_eq!("Assets:WeChat", trx.postings[0].account.content);
    assert_eq!("Expenses:Coffee", trx.postings[1].account.content);
    assert_eq!(Decimal::from_text("-12.50").unwrap(), trx.postings[0].units.as_ref().unwrap().number);
    assert_eq!(Decimal::from_text("12.50").unwrap(), trx.postings[1].units.as_ref().unwrap().number);
    assert_eq!(
        Some(&ZhangString::UnquoteString("4200001".to_string())),
        trx.meta.get_one(&"transaction_no".to_string())
    );
    assert_eq!(None, trx.meta.get_one(&"payee_no".to_string()));
}

#[test]
fn unknown_payee_goes_to_fixme_unless_forbidden() {
    let mut r = record();
    r.payee = "Somebody".to_string();
    let trx = transaction_of(&r, &config(false)).unwrap();
    assert_eq!("Expenses:FixMe", trx.postings[1].account.content);
    assert_eq!(Err(ImportError::InvalidAccount), transaction_of(&r, &config(true)).map(|_| ()));
}

#[test]
fn broken_lines_are_refused() {
    let mut r = record();
    r.payee = "  ".to_string();
    assert_eq!(Err(ImportError::MissingPayee), transaction_of(&r, &config(false)).map(|_| ()));
    let mut r = record();
    r.datetime = "2022-03-04".to_string();
    assert_eq!(Err(ImportError::InvalidDatetime), transaction_of(&r, &config(false)).map(|_| ()));
    let mut r = record();
    r.amount = "¥abc".to_string();
    assert_eq!(Err(ImportError::InvalidAmount), transaction_of(&r, &config(false)).map(|_| ()));
}

#[test]
fn long_bill_amounts_are_imported_exactly() {
    let mut r = record();
    r.amount = "¥1234567890123456789012345678901234567890.12".to_string();
    let t = transaction_of(&r, &config(false)).unwrap();
    let units = t.postings[0].units.as_ref().unwrap();
    assert_eq!("-1234567890123456789012345678901234567890.12", units.number.to_text());
}
