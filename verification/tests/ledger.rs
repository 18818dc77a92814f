use zhang::amount::Amount;
use zhang::date::NaiveDate;
use zhang::decimal::Decimal;
use zhang::inventory::Inventory;
use zhang::ledger::{AccountInfo, AccountStatus, DailyAccountInventory, DocumentType, Ledger, LedgerErrorType};
use zhang::lots::LotInfo;
use zhang::models::Directive;
use zhang::parser::parse_zhang;

fn test_parse_zhang(content: &str) -> Vec<Directive> {
    parse_zhang(content).expect("cannot parse zhang").into_iter().map(|d| d.data).collect()
}

fn sorted(content: &str) -> Vec<Directive> {
    Ledger::sort_directives_datetime(parse_zhang(content).expect("cannot parse zhang"))
        .into_iter()
        .map(|d| d.data)
        .collect()
}

fn account_info<'a>(ledger: &'a Ledger, name: &str) -> Option<&'a AccountInfo> {
    ledger.accounts.iter().find(|(n, _)| n == name).map(|(_, info)| info)
}

fn inventory<'a>(inventories: &'a [(String, Inventory)], name: &str) -> Option<&'a Inventory> {
    inventories.iter().find(|(n, _)| n == name).map(|(_, inv)| inv)
}

fn day(y: i32, m: u32, d: u32) -> NaiveDate {
    NaiveDate::from_ymd_opt(y, m, d).unwrap()
}

#[test]
fn should_keep_order_given_two_none_datetime() {
    let content = "option \"title\" \"Title\"\noption \"description\" \"Description\"\n";
    assert_eq!(test_parse_zhang(content), sorted(content));
}

#[test]
fn should_keep_original_order_given_none_datetime_and_datetime() {
    let content = "1970-01-01 open Assets:Hello\noption \"description\" \"Description\"\n";
    assert_eq!(test_parse_zhang(content), sorted(content));
    let content = "option \"description\" \"Description\"\n1970-01-01 open Assets:Hello\n";
    assert_eq!(test_parse_zhang(content), sorted(content));
}

#[test]
fn should_order_by_datetime() {
    let ordered = "1970-01-01 open Assets:Hello\n1970-02-01 open Assets:Hello\n";
    assert_eq!(test_parse_zhang(ordered), sorted(ordered));
    let reversed = "1970-02-01 open Assets:Hello\n1970-01-01 open Assets:Hello\n";
    assert_eq!(test_parse_zhang(ordered), sorted(reversed));
}

#[test]
fn should_sorted_between_none_datatime() {
    let original = "option \"1\" \"1\"\n1970-03-01 open Assets:Hello\n1970-02-01 open Assets:Hello\noption \"2\" \"2\"\n1970-01-01 open Assets:Hello\n";
    let expected = "option \"1\" \"1\"\n1970-02-01 open Assets:Hello\n1970-03-01 open Assets:Hello\noption \"2\" \"2\"\n1970-01-01 open Assets:Hello\n";
    assert_eq!(test_parse_zhang(expected), sorted(original));
}

#[test]
fn should_keep_order_given_same_datetime() {
    let content = "1970-01-01 open Assets:Hello\n1970-01-01 close Assets:Hello\n";
    assert_eq!(test_parse_zhang(content), sorted(content));
}

#[test]
fn should_extract_account_open() {
    let ledger = Ledger::load_from_str("1970-01-01 open Assets:Hello CNY\n").unwrap();
    assert_eq!(1, ledger.accounts.len());
    let account_info = account_info(&ledger, "Assets:Hello").unwrap();
    assert_eq!(AccountStatus::Open, account_info.status);
    assert_eq!(1, account_info.currencies.len());
    assert!(account_info.currencies.contains(&"CNY".to_string()));
}

#[test]
fn should_extract_account_close() {
    let ledger = Ledger::load_from_str("1970-01-01 close Assets:Hello\n").unwrap();
    assert_eq!(1, ledger.accounts.len());
    let account_info = account_info(&ledger, "Assets:Hello").unwrap();
    assert_eq!(AccountStatus::Close, account_info.status);
    assert_eq!(0, account_info.currencies.len());
}

#[test]
fn should_mark_as_close_after_opening_account() {
    let ledger = Ledger::load_from_str("1970-01-01 open Assets:Hello CNY\n1970-02-01 close Assets:Hello\n").unwrap();
    assert_eq!(1, ledger.accounts.len());
    let account_info = account_info(&ledger, "Assets:Hello").unwrap();
    assert_eq!(AccountStatus::Close, account_info.status);
    assert_eq!(1, account_info.currencies.len());
    assert!(account_info.currencies.contains(&"CNY".to_string()));
}

#[test]
fn should_extract_commodities() {
    let ledger = Ledger::load_from_str("1970-01-01 commodity CNY\n1970-02-01 commodity HKD\n").unwrap();
    assert_eq!(2, ledger.currencies.len());
    assert!(ledger.currencies.contains(&"CNY".to_string()));
    assert!(ledger.currencies.contains(&"HKD".to_string()));
}

#[test]
fn should_add_to_inner() {
    let mut inventory = Inventory::new();
    assert!(inventory.add_amount(&Amount::new(Decimal::from_i32(1), "CNY")));
    assert_eq!(1, inventory.size());
    assert_eq!(Decimal::from_i32(1), inventory.get_total(&"CNY".to_string()));
}

#[test]
fn should_inventory_be_independent() {
    let mut inventory = Inventory::new();
    inventory.add_amount(&Amount::new(Decimal::from_i32(1), "CNY"));
    let new_inventory = inventory.copy();
    inventory.add_amount(&Amount::new(Decimal::from_i32(1), "CNY"));

    assert_eq!(1, inventory.size());
    assert_eq!(Decimal::from_i32(2), inventory.get_total(&"CNY".to_string()));
    assert_eq!(1, new_inventory.size());
    assert_eq!(Decimal::from_i32(1), new_inventory.get_total(&"CNY".to_string()));
}

fn total(ledger: &Ledger, account: &str, currency: &str) -> Decimal {
    inventory(&ledger.account_inventory, account).unwrap().get_total(&currency.to_string())
}

#[test]
fn should_record_amount_into_inventory() {
    let ledger = Ledger::load_from_str(
        "1970-01-01 open Assets:From CNY\n1970-01-01 open Expenses:To CNY\n\n2022-02-22 \"Payee\"\n  Assets:From -10 CNY\n  Expenses:To 10 CNY\n",
    )
    .unwrap();
    assert_eq!(2, ledger.account_inventory.len());
    assert_eq!(Decimal::from_i32(-10), total(&ledger, "Assets:From", "CNY"));
    assert_eq!(Decimal::from_i32(10), total(&ledger, "Expenses:To", "CNY"));
}

#[test]
fn should_record_amount_into_inventory_given_none_unit_posting_and_single_unit_posting() {
    let ledger = Ledger::load_from_str(
        "1970-01-01 open Assets:From CNY\n1970-01-01 open Expenses:To CNY\n\n2022-02-22 \"Payee\"\n  Assets:From -10 CNY\n  Expenses:To\n",
    )
    .unwrap();
    assert_eq!(2, ledger.account_inventory.len());
    assert_eq!(Decimal::from_i32(-10), total(&ledger, "Assets:From", "CNY"));
    assert_eq!(Decimal::from_i32(10), total(&ledger, "Expenses:To", "CNY"));
}

#[test]
fn should_record_amount_into_inventory_given_none_unit_posting_and_more_unit_postings() {
    let ledger = Ledger::load_from_str(
        "1970-01-01 open Assets:From CNY\n1970-01-01 open Expenses:To CNY\n\n2022-02-22 \"Payee\"\n  Assets:From -5 CNY\n  Assets:From -5 CNY\n  Expenses:To\n",
    )
    .unwrap();
    assert_eq!(2, ledger.account_inventory.len());
    assert_eq!(Decimal::from_i32(-10), total(&ledger, "Assets:From", "CNY"));
    assert_eq!(Decimal::from_i32(10), total(&ledger, "Expenses:To", "CNY"));
}

#[test]
fn should_record_amount_into_inventory_given_unit_postings_and_total_cost() {
    let ledger = Ledger::load_from_str(
        "1970-01-01 open Assets:From CNY\n1970-01-01 open Expenses:To CNY\n\n2022-02-22 \"Payee\"\n  Assets:From -5 CNY\n  Assets:From -5 CNY\n  Expenses:To 1 BTC @@ 10 CNY\n",
    )
    .unwrap();
    assert_eq!(2, ledger.account_inventory.len());
    assert_eq!(Decimal::from_i32(-10), total(&ledger, "Assets:From", "CNY"));
    assert_eq!(Decimal::from_i32(1), total(&ledger, "Expenses:To", "BTC"));
}

#[test]
fn should_record_amount_into_inventory_given_unit_postings_and_single_cost() {
    let ledger = Ledger::load_from_str(
        "1970-01-01 open Assets:From CNY\n1970-01-01 open Expenses:To CNY2\n\n2022-02-22 \"Payee\"\n  Assets:From -5 CNY\n  Assets:From -5 CNY\n  Expenses:To 10 CNY2 @ 1 CNY\n",
    )
    .unwrap();
    assert_eq!(2, ledger.account_inventory.len());
    assert_eq!(Decimal::from_i32(-10), total(&ledger, "Assets:From", "CNY"));
    assert_eq!(Decimal::from_i32(10), total(&ledger, "Expenses:To", "CNY2"));
}

#[test]
fn should_record_daily_inventory() {
    let ledger = Ledger::load_from_str(
        "1970-01-01 open Assets:From CNY\n1970-01-01 open Expenses:To CNY\n\n2022-02-22 \"Payee\"\n  Assets:From -10 CNY\n  Expenses:To\n",
    )
    .unwrap();
    let account_inventory = ledger.daily_inventory.get_account_inventory(&day(2022, 2, 22));
    assert_eq!(
        Decimal::from_i32(-10),
        inventory(&account_inventory, "Assets:From").unwrap().get_total(&"CNY".to_string())
    );
    assert_eq!(
        Decimal::from_i32(10),
        inventory(&account_inventory, "Expenses:To").unwrap().get_total(&"CNY".to_string())
    );
}

#[test]
fn should_get_from_previous_day_given_day_is_not_in_data() {
    let mut daily_inventory = DailyAccountInventory::new();
    let map = vec![("AAAAA".to_string(), Inventory::new())];
    daily_inventory.insert_account_inventory(day(2022, 2, 22), map);

    let target_day_inventory = daily_inventory.get_account_inventory(&day(2022, 3, 22));
    assert_eq!(1, target_day_inventory.len());
    assert!(inventory(&target_day_inventory, "AAAAA").is_some());
}

#[test]
fn should_get_nothing_before_the_first_recorded_day() {
    let mut daily_inventory = DailyAccountInventory::new();
    daily_inventory.insert_account_inventory(day(2022, 2, 22), vec![("AAAAA".to_string(), Inventory::new())]);
    assert!(daily_inventory.get_account_inventory(&day(2022, 2, 21)).is_empty());
}

#[test]
fn should_keep_undated_directives_as_metas() {
    let ledger = Ledger::load_from_str("option \"title\" \"Example\"\n1970-01-01 open Assets:Hello\n").unwrap();
    assert_eq!(1, ledger.metas.len());
    assert_eq!(1, ledger.directives.len());
}

#[test]
fn should_report_unbalanced_transaction() {
    let ledger = Ledger::load_from_str(
        "1970-01-01 open Assets:From CNY\n1970-01-01 open Expenses:To CNY\n\n2022-02-22 \"Payee\"\n  Assets:From -10 CNY\n  Expenses:To 9 CNY\n",
    )
    .unwrap();
    assert!(ledger.errors.iter().any(|e| e.error == LedgerErrorType::TransactionDoesNotBalance));
}

#[test]
fn should_report_account_that_does_not_exist() {
    let ledger = Ledger::load_from_str("1970-01-01 close Assets:Hello\n").unwrap();
    assert_eq!(
        vec![LedgerErrorType::AccountDoesNotExist { account_name: "Assets:Hello".to_string() }],
        ledger.errors.iter().map(|e| e.error.clone()).collect::<Vec<_>>()
    );
}

#[test]
fn should_report_commodity_that_is_not_declared() {
    let ledger = Ledger::load_from_str("1970-01-01 open Assets:Hello CNY\n").unwrap();
    assert_eq!(
        vec![LedgerErrorType::CommodityDoesNotDefine { commodity_name: "CNY".to_string() }],
        ledger.errors.iter().map(|e| e.error.clone()).collect::<Vec<_>>()
    );
}

#[test]
fn should_hold_the_asserted_amount_after_balance_pad() {
    let ledger = Ledger::load_from_str(
        "1970-01-01 open Assets:Hello CNY\n1970-01-01 open Equity:Open CNY\n1970-01-02 balance Assets:Hello 100 CNY with pad Equity:Open\n",
    )
    .unwrap();
    assert_eq!(Decimal::from_i32(100), total(&ledger, "Assets:Hello", "CNY"));
    assert_eq!(Decimal::from_i32(-100), total(&ledger, "Equity:Open", "CNY"));
}

#[test]
fn should_report_failed_balance_check() {
    let ledger = Ledger::load_from_str(
        "1970-01-01 commodity CNY\n1970-01-01 open Assets:Hello CNY\n1970-01-02 balance Assets:Hello 100 CNY\n",
    )
    .unwrap();
    assert_eq!(1, ledger.errors.len());
    assert!(matches!(ledger.errors[0].error, LedgerErrorType::AccountBalanceCheckError { .. }));
    assert_eq!(Decimal::from_i32(100), total(&ledger, "Assets:Hello", "CNY"));
}

#[test]
fn should_record_prices() {
    let ledger = Ledger::load_from_str(
        "1970-01-01 commodity USD\n1970-01-01 commodity CNY\n1970-01-02 price USD 7 CNY\n",
    )
    .unwrap();
    assert!(ledger.errors.is_empty());
    let at = day(1970, 1, 3).and_midnight();
    assert_eq!(
        Some(Decimal::from_i32(700)),
        ledger.prices.calculate(&at, &"USD".to_string(), &"CNY".to_string(), &Decimal::from_i32(100))
    );
}

#[test]
fn should_record_commodity_precision_and_rounding() {
    let ledger = Ledger::load_from_str(
        "1970-01-01 commodity CNY\n  precision: \"2\"\n  rounding: \"RoundUp\"\n1970-01-01 commodity USD\n  precision: \"two\"\n",
    )
    .unwrap();
    assert_eq!(2, ledger.currency_infos.len());
    let cny = ledger.currencies.iter().position(|c| c == "CNY").unwrap();
    assert_eq!(Some(2), ledger.currency_infos[cny].precision);
    assert_eq!(Some(zhang::models::Rounding::RoundUp), ledger.currency_infos[cny].rounding);
    let usd = ledger.currencies.iter().position(|c| c == "USD").unwrap();
    assert_eq!(None, ledger.currency_infos[usd].precision);
    assert_eq!(None, ledger.currency_infos[usd].rounding);
}

#[test]
fn should_name_the_first_unreadable_line() {
    let r = Ledger::load_from_str("1970-01-01 open Assets:Hello CNY\n\n1970-01-02 nonsense \"\n");
    assert_eq!(3, r.err().unwrap().line);
}

fn lots_of(ledger: &Ledger, account: &str, currency: &str) -> Vec<(String, Decimal, Decimal)> {
    ledger
        .lots
        .iter()
        .find(|(n, inv)| n == account && inv.currency() == currency)
        .map(|(_, inv)| inv.lots())
        .unwrap()
}

#[test]
fn should_record_posting_units_into_lots() {
    let ledger = Ledger::load_from_str(
        "1970-01-01 open Assets:From CNY\n1970-01-01 open Expenses:To CNY\n\n2022-02-22 \"Payee\"\n  Assets:From -10 CNY\n  Expenses:To 10 CNY\n",
    )
    .unwrap();
    assert_eq!(2, ledger.lots.len());
    assert_eq!(
        vec![("CNY".to_string(), Decimal::from_i32(1), Decimal::from_i32(10))],
        lots_of(&ledger, "Expenses:To", "CNY")
    );
    assert_eq!(
        vec![("CNY".to_string(), Decimal::from_i32(1), Decimal::from_i32(-10))],
        lots_of(&ledger, "Assets:From", "CNY")
    );
}

#[test]
fn lot_add_should_fill_named_lot_then_spread_first_in_first_out() {
    let mut ledger = Ledger::new();
    let account = "Assets:Stock".to_string();
    assert!(ledger.lot_add(&account, &Amount::new_with_i32(10, "AAPL"), LotInfo::Lot("USD".to_string(), Decimal::from_i32(7))));
    assert_eq!(
        vec![
            ("AAPL".to_string(), Decimal::from_i32(1), Decimal::from_i32(0)),
            ("USD".to_string(), Decimal::from_i32(7), Decimal::from_i32(10)),
        ],
        lots_of(&ledger, "Assets:Stock", "AAPL")
    );
    assert!(ledger.lot_add(&account, &Amount::new_with_i32(-3, "AAPL"), LotInfo::Fifo));
    assert_eq!(
        vec![
            ("AAPL".to_string(), Decimal::from_i32(1), Decimal::from_i32(0)),
            ("USD".to_string(), Decimal::from_i32(7), Decimal::from_i32(7)),
        ],
        lots_of(&ledger, "Assets:Stock", "AAPL")
    );
    assert_eq!(1, ledger.lots.len());
    assert!(ledger.lot_add(&account, &Amount::new_with_i32(5, "MSFT"), LotInfo::Fifo));
    assert_eq!(2, ledger.lots.len());
}

#[test]
fn should_record_account_and_transaction_documents() {
    let ledger = Ledger::load_from_str(
        "1970-01-01 open Assets:From CNY\n1970-01-01 open Expenses:To CNY\n1970-01-02 document Assets:From \"bill.pdf\"\n2022-02-22 \"Payee\"\n  Assets:From -10 CNY\n  document: \"a.pdf\"\n  Expenses:To 10 CNY\n  document: \"b.pdf\"\n",
    )
    .unwrap();
    assert_eq!(3, ledger.documents.len());
    match &ledger.documents[0] {
        DocumentType::AccountDocument { account, filename, .. } => {
            assert_eq!("Assets:From", account);
            assert_eq!("bill.pdf", filename);
        }
        other => panic!("unexpected {:?}", other),
    }
    let names: Vec<String> = ledger.documents[1..]
        .iter()
        .map(|d| match d {
            DocumentType::TransactionDocument { filename, .. } => filename.clone(),
            other => panic!("unexpected {:?}", other),
        })
        .collect();
    assert_eq!(vec!["a.pdf".to_string(), "b.pdf".to_string()], names);
}

#[test]
fn commodity_declared_again_takes_new_metadata_and_keeps_prices() {
    let ledger = Ledger::load_from_str(
        "1970-01-01 commodity CNY\n  precision: \"2\"\n1970-01-02 commodity CNY\n  precision: \"3\"\n  name: \"yuan\"\n",
    )
    .unwrap();
    assert_eq!(1, ledger.currency_infos.len());
    let info = &ledger.currency_infos[0];
    assert_eq!(Some(3), info.precision);
    assert_eq!(
        Some(&zhang::models::ZhangString::QuoteString("yuan".to_string())),
        info.commodity.meta.get_one(&"name".to_string())
    );
}

#[test]
fn balance_check_reports_differences_beyond_machine_integers() {
    let ledger = Ledger::load_from_str(
        "1970-01-01 open Assets:A CNY\n1970-01-02 balance Assets:A 340282366920938463463374607431768211454 CNY\n",
    )
    .unwrap();
    assert_eq!("340282366920938463463374607431768211454", total(&ledger, "Assets:A", "CNY").to_text());
    assert!(ledger.errors.iter().any(|e| matches!(e.error, LedgerErrorType::AccountBalanceCheckError { .. })));
}
