use zhang::date::{NaiveDate, NaiveDateTime};
use zhang::decimal::Decimal;
use zhang::journal::{journal_items, JournalArm, JournalError, JournalHeader, JournalItemResponse, JournalTransactionPostingResponse};

fn at(day: u32) -> NaiveDateTime {
    NaiveDateTime { date: NaiveDate { year: 2022, month: 3, day }, hour: 12, minute: 0, second: 0 }
}

fn header(id: &str, sequence: i64, journal_type: &str) -> JournalHeader {
    JournalHeader {
        id: id.to_string(),
        sequence,
        datetime: at(sequence as u32),
        journal_type: journal_type.to_string(),
        payee: format!("payee {}", id),
        narration: Some(format!("narration {}", id)),
    }
}

fn arm(trx_id: &str, account: &str, n: i32) -> JournalArm {
    JournalArm {
        trx_id: trx_id.to_string(),
        posting: JournalTransactionPostingResponse {
            account: account.to_string(),
            unit_number: Some(Decimal::from_i32(n)),
            unit_commodity: Some("CNY".to_string()),
            cost_number: None,
            cost_commodity: None,
            price_number: None,
            price_commodity: None,
            inferred_unit_number: Decimal::from_i32(n),
            inferred_unit_commodity: "CNY".to_string(),
            account_before_number: Decimal::from_i32(0),
            account_before_commodity: "CNY".to_string(),
            account_after_number: Decimal::from_i32(n),
            account_after_commodity: "CNY".to_string(),
        },
    }
}

fn accounts(item: &JournalItemResponse) -> Vec<String> {
    let entry = match item {
        JournalItemResponse::Transaction(e) => e,
        JournalItemResponse::BalancePad(e) => e,
    };
    entry.postings.iter().map(|p| p.account.clone()).collect()
}

fn id(item: &JournalItemResponse) -> String {
    match item {
        JournalItemResponse::Transaction(e) => e.header.id.clone(),
        JournalItemResponse::BalancePad(e) => e.header.id.clone(),
    }
}

#[test]
fn journal_shows_latest_entries_first_with_their_postings() {
    let headers = vec![header("a", 1, "*"), header("b", 2, "*"), header("c", 3, "!")];
    let arms = vec![
        arm("a", "Assets:Cash", -10),
        arm("a", "Expenses:Food", 10),
        arm("c", "Assets:Cash", -5),
        arm("c", "Expenses:Book", 5),
        arm("b", "Assets:Bank", 7),
        arm("b", "Income:Salary", -7),
    ];
    let items = journal_items(&headers, arms).unwrap();
    assert_eq!(items.len(), 3);
    assert_eq!(items.iter().map(|i| i.sequence()).collect::<Vec<_>>(), vec![3, 2, 1]);
    assert_eq!(items.iter().map(id).collect::<Vec<_>>(), vec!["c", "b", "a"]);
    assert_eq!(accounts(&items[0]), vec!["Assets:Cash", "Expenses:Book"]);
    assert_eq!(accounts(&items[2]), vec!["Assets:Cash", "Expenses:Food"]);
    assert!(matches!(items[0], JournalItemResponse::Transaction(_)));
}

#[test]
fn journal_marks_pads_by_their_type() {
    let headers = vec![header("p", 4, "BalancePad")];
    let arms = vec![arm("p", "Assets:Cash", 3), arm("p", "Equity:Open", -3)];
    let items = journal_items(&headers, arms).unwrap();
    assert_eq!(items.len(), 1);
    assert!(matches!(items[0], JournalItemResponse::BalancePad(_)));
    assert_eq!(accounts(&items[0]), vec!["Assets:Cash", "Equity:Open"]);
}

#[test]
fn journal_refuses_balance_checks() {
    let headers = vec![header("a", 1, "*"), header("k", 2, "BalanceCheck")];
    let arms = vec![arm("a", "Assets:Cash", 1), arm("k", "Assets:Cash", 0)];
    assert!(matches!(journal_items(&headers, arms), Err(JournalError::BalanceCheckEntry)));
}

#[test]
fn journal_skips_runs_without_a_head_and_takes_each_head_once() {
    let headers = vec![header("a", 1, "*")];
    let arms = vec![arm("a", "Assets:Cash", 1), arm("x", "Assets:Cash", 2), arm("a", "Expenses:Food", 3)];
    let items = journal_items(&headers, arms).unwrap();
    assert_eq!(items.len(), 1);
    assert_eq!(accounts(&items[0]), vec!["Assets:Cash"]);
}

#[test]
fn journal_shows_later_made_entries_first_at_the_same_place() {
    let headers = vec![header("a", 5, "*"), header("b", 5, "*")];
    let arms = vec![arm("a", "Assets:Cash", 1), arm("b", "Assets:Bank", 2)];
    let items = journal_items(&headers, arms).unwrap();
    assert_eq!(items.iter().map(id).collect::<Vec<_>>(), vec!["b", "a"]);
}
