use zhang::date::NaiveDate;
use zhang::price_grip::DatedPriceGrip;
use zhang::data::Transaction;
use zhang::inventory::Inventory;
use zhang::amount::Amount;
use zhang::decimal::Decimal;
use zhang::models::Directive;
use zhang::parser::parse_zhang;

fn txn(text: &str) -> Transaction {
    match parse_zhang(text).unwrap().pop().unwrap().data {
        Directive::Transaction(trx) => trx,
        _ => unreachable!(),
    }
}

#[test]
fn should_return_true_given_balanced_transaction() {
    let trx = txn("2022-06-02 \"balanced transaction\"\n  Assets:Card -100 CNY\n  Expenses:Some 100 CNY\n");
    assert!(trx.is_balance());
}

#[test]
fn should_return_true_given_two_same_decimal() {
    let trx = txn("2022-06-02 \"balanced transaction\"\n  Assets:Card -100.00 CNY\n  Expenses:Some 100 CNY\n");
    assert!(trx.is_balance());
}

#[test]
fn should_return_true_given_multiple_posting() {
    let trx = txn(
        "2022-06-02 \"balanced transaction\"\n  Assets:Card -100.00 CNY\n  Expenses:Some 50 CNY\n  Expenses:Others 50 CNY\n",
    );
    assert!(trx.is_balance());
}

#[test]
fn should_return_false_given_two_diff_posting_amount() {
    let trx = txn("2022-06-02 \"balanced transaction\"\n  Assets:Card -100 CNY\n  Expenses:Some 90 CNY\n");
    assert!(!trx.is_balance());
}

#[test]
fn should_return_false_given_two_diff_currency() {
    let trx = txn("2022-06-02 \"balanced transaction\"\n  Assets:Card -100 CNY\n  Expenses:Some 100 CNY2\n");
    assert!(!trx.is_balance());
}

#[test]
fn implicit_posting_takes_the_negated_sum() {
    let trx = txn("2022-06-02 \"x\"\n  Assets:Card -100 CNY\n  Assets:Cash -0.5 CNY\n  Expenses:Some\n");
    let postings = trx.txn_postings();
    assert_eq!(postings[2].units(), Some(Amount::new(Decimal::new(1005, 1), "CNY")));
    assert_eq!(postings[0].costs(), Some(Amount::new(Decimal::from_i32(-100), "CNY")));
    assert_eq!(postings[2].account_name(), "Expenses:Some");
    assert!(trx.is_balance());
    assert!(trx.has_account(&"Assets:Cash".to_string()));
    assert!(!trx.has_account(&"Assets:Bank".to_string()));
}

#[test]
fn implicit_posting_of_mixed_commodities_is_zero() {
    let trx = txn("2022-06-02 \"x\"\n  Assets:Card -100 CNY\n  Assets:Cash -5 USD\n  Expenses:Some\n");
    let postings = trx.txn_postings();
    assert_eq!(postings[2].units(), Some(Amount::new(Decimal::zero(), "CNY")));
    assert!(!trx.is_balance());
}

#[test]
fn cost_weighs_instead_of_units() {
    let trx = txn("2022-06-02 \"x\"\n  Assets:Stock 10 AAPL { 100 USD }\n  Assets:Cash\n");
    let postings = trx.txn_postings();
    assert_eq!(postings[1].units(), Some(Amount::new(Decimal::from_i32(-100), "USD")));
    assert!(!trx.is_balance());
}

#[test]
fn inventory_keeps_totals_per_commodity() {
    let mut inventory = Inventory::new();
    assert!(inventory.is_zero());
    assert!(inventory.add_amount(&Amount::new(Decimal::new(150, 2), "CNY")));
    assert!(inventory.add_amount(&Amount::new(Decimal::from_i32(3), "USD")));
    assert!(inventory.add_amount(&Amount::new(Decimal::new(-15, 1), "CNY")));
    assert_eq!(inventory.get_total(&"CNY".to_string()).mantissa(), Some(0));
    assert_eq!(inventory.get_total(&"USD".to_string()), Decimal::from_i32(3));
    assert_eq!(inventory.get_total(&"EUR".to_string()), Decimal::zero());
    assert_eq!(inventory.size(), 1);
    assert!(!inventory.is_zero());
}

#[test]
fn inventory_sub_amount_takes_from_the_total() {
    let mut inventory = Inventory::new();
    assert!(inventory.add_amount(&Amount::new(Decimal::from_i32(10), "CNY")));
    assert!(inventory.sub_amount(&Amount::new(Decimal::from_text("2.5").unwrap(), "CNY")));
    assert_eq!(Decimal::from_text("7.5").unwrap(), inventory.get_total(&"CNY".to_string()));
}

#[test]
fn inventory_worth_in_another_commodity() {
    let mut prices = DatedPriceGrip::new();
    let at = NaiveDate::from_ymd_opt(2022, 1, 1).unwrap().and_midnight();
    prices.insert(at, "USD".to_string(), "CNY".to_string(), Decimal::from_i32(7));
    let mut inventory = Inventory::new();
    inventory.add_amount(&Amount::new(Decimal::from_i32(10), "USD"));
    inventory.add_amount(&Amount::new(Decimal::from_i32(5), "CNY"));
    inventory.add_amount(&Amount::new(Decimal::from_i32(3), "HKD"));
    let later = NaiveDate::from_ymd_opt(2022, 2, 1).unwrap().and_midnight();
    assert_eq!(Some(Decimal::from_i32(75)), inventory.calculate_to_currency(&prices, &later, &"CNY".to_string()));
}

#[test]
fn is_balance_answers_for_numbers_beyond_machine_integers() {
    let trx = txn("2022-06-02 \"big\"\n  Assets:Card 170141183460469231731687303715884105727 CNY\n  Expenses:Some 170141183460469231731687303715884105727 CNY\n");
    assert!(!trx.is_balance());
    let trx = txn("2022-06-02 \"big\"\n  Assets:Card -340282366920938463463374607431768211454 CNY\n  Expenses:Some 170141183460469231731687303715884105727 CNY\n  Expenses:Other 170141183460469231731687303715884105727 CNY\n");
    assert!(trx.is_balance());
}
