use zhang::statistic::current_statistic;
use zhang::amount::Amount;
use zhang::date::NaiveDate;
use zhang::decimal::Decimal;
use zhang::date::day_range;
use zhang::statistic::{statistic_changes, statistic_details, statistic_for_period, BalanceRow, ChangeRow};

fn day(d: u32) -> NaiveDate {
    NaiveDate::from_ymd_opt(2022, 1, d).unwrap()
}

fn cny(n: i32) -> Amount {
    Amount::new(Decimal::from_i32(n), "CNY")
}

fn balance(d: u32, account: &str, n: i32) -> BalanceRow {
    BalanceRow { date: day(d), account: account.to_string(), amount: cny(n) }
}

#[test]
fn details_carry_the_last_balance_forward() {
    let accounts = vec!["Assets:A".to_string(), "Assets:B".to_string(), "Assets:C".to_string()];
    let before = vec![balance(1, "Assets:A", 5), balance(1, "Assets:A", 7)];
    let details = vec![balance(3, "Assets:A", 10), balance(3, "Assets:B", 2), balance(3, "Assets:B", 3)];
    let days = vec![day(2), day(3), day(4)];
    let r = statistic_details(&accounts, &before, &details, &days, "CNY");
    assert_eq!(3, r.len());
    assert_eq!(day(2), r[0].0);
    assert_eq!(("Assets:A".to_string(), cny(7)), r[0].1[0]);
    assert_eq!(("Assets:B".to_string(), Amount::zero("CNY")), r[0].1[1]);
    assert_eq!(("Assets:A".to_string(), cny(10)), r[1].1[0]);
    assert_eq!(("Assets:B".to_string(), cny(3)), r[1].1[1]);
    assert_eq!(("Assets:A".to_string(), cny(10)), r[2].1[0]);
    assert_eq!(("Assets:B".to_string(), cny(3)), r[2].1[1]);
    assert_eq!(("Assets:C".to_string(), Amount::zero("CNY")), r[2].1[2]);
}

#[test]
fn changes_keep_the_last_row_per_day_and_type() {
    let rows = vec![
        ChangeRow { date: day(2), account_type: "Assets".to_string(), amount: cny(1) },
        ChangeRow { date: day(2), account_type: "Expenses".to_string(), amount: cny(2) },
        ChangeRow { date: day(2), account_type: "Assets".to_string(), amount: cny(3) },
        ChangeRow { date: day(5), account_type: "Assets".to_string(), amount: cny(4) },
    ];
    let days = vec![day(1), day(2), day(3)];
    let r = statistic_changes(&rows, &days);
    assert_eq!(4, r.len());
    let day2 = r.iter().find(|e| e.0 == day(2)).unwrap();
    assert_eq!(vec![("Assets".to_string(), cny(3)), ("Expenses".to_string(), cny(2))], day2.1);
    let day5 = r.iter().find(|e| e.0 == day(5)).unwrap();
    assert_eq!(vec![("Assets".to_string(), cny(4))], day5.1);
    assert!(r.iter().find(|e| e.0 == day(1)).unwrap().1.is_empty());
    assert!(r.iter().find(|e| e.0 == day(3)).unwrap().1.is_empty());
}

#[test]
fn current_statistic_sums_assets_and_liabilities() {
    let latest = vec![
        balance(1, "Assets:Cash", 100),
        balance(1, "Liabilities:Card", -30),
        balance(1, "Expenses:Food", 20),
        BalanceRow { date: day(1), account: "Assets:Bank".to_string(), amount: Amount::new(Decimal::from_text("0.5").unwrap(), "CNY") },
    ];
    let month = vec![
        ChangeRow { date: day(1), account_type: "Expenses".to_string(), amount: cny(20) },
        ChangeRow { date: day(1), account_type: "Expenses".to_string(), amount: cny(99) },
    ];
    let st = current_statistic(&latest, &month, "CNY").unwrap();
    assert_eq!(Decimal::from_text("70.5").unwrap(), st.balance.number);
    assert_eq!("CNY", st.balance.currency);
    assert_eq!(Decimal::from_i32(-30), st.liability.number);
    assert_eq!(Amount::zero("CNY"), st.income);
    assert_eq!(cny(20), st.expense);
}

#[test]
fn statistic_for_period_covers_every_day_of_the_period() {
    let accounts = vec!["Assets:A".to_string()];
    let before = vec![balance(1, "Assets:A", 5)];
    let details = vec![balance(3, "Assets:A", 10)];
    let rows = vec![ChangeRow { date: day(3), account_type: "Assets".to_string(), amount: cny(5) }];
    let (changes, balances) = statistic_for_period(&rows, &accounts, &before, &details, day(2), day(4), "CNY");
    let days: Vec<NaiveDate> = balances.iter().map(|e| e.0).collect();
    assert_eq!(vec![day(2), day(3), day(4)], days);
    assert_eq!(("Assets:A".to_string(), cny(5)), balances[0].1[0]);
    assert_eq!(("Assets:A".to_string(), cny(10)), balances[1].1[0]);
    assert_eq!(3, changes.len());
}

#[test]
fn day_range_crosses_months_and_years() {
    let from = NaiveDate::from_ymd_opt(2023, 12, 30).unwrap();
    let to = NaiveDate::from_ymd_opt(2024, 1, 2).unwrap();
    let r = day_range(from, to);
    assert_eq!(
        vec![
            NaiveDate::from_ymd_opt(2023, 12, 30).unwrap(),
            NaiveDate::from_ymd_opt(2023, 12, 31).unwrap(),
            NaiveDate::from_ymd_opt(2024, 1, 1).unwrap(),
            NaiveDate::from_ymd_opt(2024, 1, 2).unwrap(),
        ],
        r
    );
    let feb = day_range(NaiveDate::from_ymd_opt(2024, 2, 28).unwrap(), NaiveDate::from_ymd_opt(2024, 3, 1).unwrap());
    assert_eq!(3, feb.len());
    assert_eq!(NaiveDate::from_ymd_opt(2024, 2, 29).unwrap(), feb[1]);
    assert!(day_range(to, from).is_empty());
    assert_eq!(vec![from], day_range(from, from));
}

#[test]
fn current_statistic_sums_balances_beyond_machine_integers() {
    let max = Amount::new(Decimal::new(i128::MAX, 0), "CNY");
    let latest = vec![
        BalanceRow { date: day(1), account: "Assets:A".to_string(), amount: max.clone() },
        BalanceRow { date: day(1), account: "Assets:B".to_string(), amount: max },
    ];
    let st = current_statistic(&latest, &vec![], "CNY").unwrap();
    assert_eq!("340282366920938463463374607431768211454", st.balance.number.to_text());
}
