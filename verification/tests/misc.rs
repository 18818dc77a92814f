use zhang::date::{Date, NaiveDate};
use zhang::watch::is_visited_file_updated;
use zhang::amount::Amount;
use zhang::booking::{BookingMethod, ErrorKind};
use zhang::decimal::Decimal;
use zhang::inventory::Inventory;
use zhang::lots::{CommodityInventory, LotInfo};
use zhang::models::Rounding;
use zhang::options::{JournalRequest, Options};

#[test]
fn test_ctor_empty_len() {
    let inventory = Inventory::new();
    assert_eq!(0, inventory.size());
    assert!(inventory.is_zero());

    let mut inventory1 = Inventory::new();
    inventory1.add_amount(&Amount::new_with_i32(100, "USD"));
    inventory1.add_amount(&Amount::new_with_i32(101, "USD"));
    assert_eq!(1, inventory1.size());
    assert!(!inventory1.is_zero());

    let mut inventory2 = Inventory::new();
    inventory2.add_amount(&Amount::new_with_i32(100, "USD"));
    inventory2.add_amount(&Amount::new_with_i32(101, "CAD"));
    assert_eq!(2, inventory2.size());
    assert!(!inventory2.is_zero());

    let mut inventory3 = Inventory::new();
    assert_eq!(0, inventory3.size());
    inventory3.add_amount(&Amount::new_with_i32(100, "USD"));
    assert_eq!(1, inventory3.size());
    inventory3.add_amount(&Amount::new_with_i32(101, "CAD"));
    assert_eq!(2, inventory3.size());
}

#[test]
fn inventory_size_leaves_out_zero_totals() {
    let mut inventory = Inventory::new();
    inventory.add_amount(&Amount::new_with_i32(100, "USD"));
    inventory.add_amount(&Amount::new_with_i32(-100, "USD"));
    assert_eq!(0, inventory.size());
    assert!(inventory.is_zero());
}

#[test]
fn commodity_inventory_starts_with_its_default_lot() {
    let inventory = CommodityInventory::new("USD");
    assert_eq!(Decimal::zero(), inventory.total());
    assert_eq!(vec![("USD".to_string(), Decimal::one(), Decimal::zero())], inventory.lots());
}

#[test]
fn commodity_inventory_opens_a_named_lot() {
    let mut inventory = CommodityInventory::new("USD");
    assert!(inventory.insert(&Decimal::from_i32(10), LotInfo::Lot("CNY".to_string(), Decimal::from_i32(7))));
    assert_eq!(Decimal::from_i32(10), inventory.total());
    let lots = inventory.lots();
    assert_eq!(2, lots.len());
    assert_eq!(("CNY".to_string(), Decimal::from_i32(7), Decimal::from_i32(10)), lots[1]);
}

#[test]
fn commodity_inventory_total_follows_fifo_reduction() {
    let mut inventory = CommodityInventory::new("USD");
    inventory.insert(&Decimal::from_i32(10), LotInfo::Lot("CNY".to_string(), Decimal::from_i32(7)));
    assert!(inventory.insert(&Decimal::from_i32(-4), LotInfo::Fifo));
    assert_eq!(Decimal::from_i32(6), inventory.total());
    let lots = inventory.lots();
    assert_eq!(Decimal::zero(), lots[0].2);
    assert_eq!(Decimal::from_i32(6), lots[1].2);
}

#[test]
fn commodity_inventory_filo_reduction_overflows_into_the_default_lot() {
    let mut inventory = CommodityInventory::new("USD");
    inventory.insert(&Decimal::from_i32(10), LotInfo::Lot("CNY".to_string(), Decimal::from_i32(7)));
    assert!(inventory.insert(&Decimal::from_i32(-12), LotInfo::Filo));
    assert_eq!(Decimal::from_i32(-2), inventory.total());
    let lots = inventory.lots();
    assert_eq!(2, lots.len());
    assert_eq!(Decimal::from_i32(-2), lots[0].2);
    assert_eq!(Decimal::zero(), lots[1].2);
}

#[test]
fn options_take_known_keys() {
    let mut options = Options::default();
    assert_eq!("CNY", options.operating_currency);
    assert_eq!(Rounding::RoundDown, options.default_rounding);
    assert_eq!(2, options.default_balance_tolerance_precision);

    options.parse("operating_currency", "USD");
    options.parse("default_rounding", "RoundUp");
    options.parse("default_balance_tolerance", "5");
    assert_eq!("USD", options.operating_currency);
    assert_eq!(Rounding::RoundUp, options.default_rounding);
    assert_eq!(5, options.default_balance_tolerance_precision);

    options.parse("default_balance_tolerance", "not a number");
    options.parse("title", "Example");
    assert_eq!(5, options.default_balance_tolerance_precision);
    assert_eq!("USD", options.operating_currency);
}

#[test]
fn journal_request_pages() {
    let request = JournalRequest { page: None, size: None };
    assert_eq!(100, request.limit());
    assert_eq!(0, request.offset());
    let request = JournalRequest { page: Some(3), size: Some(20) };
    assert_eq!(20, request.limit());
    assert_eq!(40, request.offset());
    let request = JournalRequest { page: Some(0), size: Some(20) };
    assert_eq!(0, request.offset());
}

#[test]
fn booking_method_names() {
    assert_eq!(Ok(BookingMethod::Fifo), BookingMethod::from_text("FIFO"));
    assert_eq!(Ok(BookingMethod::NoBooking), BookingMethod::from_text("NONE"));
    assert_eq!(Ok(BookingMethod::AverageOnly), BookingMethod::from_text("AVERAGE_ONLY"));
    assert_eq!(Err(ErrorKind::ParseInvalidMeta), BookingMethod::from_text("fifo"));
    assert_eq!("LIFO", BookingMethod::Lifo.to_text());
    assert_eq!("STRICT", BookingMethod::Strict.to_text());
}

#[test]
fn decimal_text_reads_back() {
    for text in ["0", "-0.05", "100", "1.500", "-123456.789", "0.001"] {
        let d = Decimal::from_text(text).unwrap();
        assert_eq!(text, d.to_text());
        let back = Decimal::from_text(&d.to_text()).unwrap();
        assert_eq!(d, back);
    }
    let d = Decimal::new(-5, 3);
    assert_eq!("-0.005", d.to_text());
    assert_eq!(Some(d.clone()), Decimal::from_text(&d.to_text()));
}

#[test]
fn decimal_add_then_sub_gives_back_the_value() {
    let a = Decimal::from_text("1.25").unwrap();
    let b = Decimal::from_text("-0.125").unwrap();
    let sum = a.checked_add(&b).unwrap();
    assert_eq!(Decimal::from_text("1.125").unwrap(), sum);
    let back = sum.checked_sub(&b).unwrap();
    assert!(back.eq_value(&a));
    assert_eq!(Decimal::from_text("1.250").unwrap(), back);
}

fn inventory_of(amounts: &[(i128, u32, &str)]) -> Inventory {
    let mut inv = Inventory::new();
    for (m, s, c) in amounts {
        assert!(inv.add_amount(&Amount::new(Decimal::new(*m, *s), c)));
    }
    inv
}

#[test]
fn inventories_add_and_subtract_by_commodity() {
    let a = inventory_of(&[(10, 0, "CNY"), (15, 1, "USD")]);
    let b = inventory_of(&[(225, 2, "CNY"), (3, 0, "EUR")]);
    let sum = a.add(&b).unwrap();
    assert_eq!(sum.get_total(&"CNY".to_string()), Decimal::new(1225, 2));
    assert_eq!(sum.get_total(&"USD".to_string()), Decimal::new(15, 1));
    assert_eq!(sum.get_total(&"EUR".to_string()), Decimal::new(3, 0));
    let diff = a.sub(&b).unwrap();
    assert_eq!(diff.get_total(&"CNY".to_string()), Decimal::new(775, 2));
    assert_eq!(diff.get_total(&"EUR".to_string()), Decimal::new(-3, 0));
    assert_eq!(diff.get_total(&"USD".to_string()), Decimal::new(15, 1));
}

#[test]
fn inventories_add_large_totals_exactly() {
    let a = inventory_of(&[(i128::MAX, 0, "CNY")]);
    let b = inventory_of(&[(1, 0, "CNY")]);
    let sum = a.add(&b).unwrap();
    assert_eq!("170141183460469231731687303715884105728", sum.get_total(&"CNY".to_string()).to_text());
    assert_eq!(Decimal::new(i128::MAX - 1, 0), a.sub(&b).unwrap().get_total(&"CNY".to_string()));
}

#[test]
fn commodity_inventory_adds_past_the_largest_machine_integer() {
    let mut inventory = CommodityInventory::new("USD");
    assert!(inventory.insert(&Decimal::new(i128::MAX, 0), LotInfo::Fifo));
    assert!(inventory.insert(&Decimal::from_i32(1), LotInfo::Lot("USD".to_string(), Decimal::one())));
    assert_eq!("170141183460469231731687303715884105728", inventory.total().to_text());
}

#[test]
fn reload_only_when_a_visited_file_changes() {
    let visited = vec!["/books/main.zhang".to_string(), "/books/2023.zhang".to_string()];
    assert!(is_visited_file_updated(&visited, &vec!["/books/other".to_string(), "/books/2023.zhang".to_string()]));
    assert!(!is_visited_file_updated(&visited, &vec!["/books/other".to_string()]));
    assert!(!is_visited_file_updated(&visited, &vec![]));
    assert!(!is_visited_file_updated(&vec![], &vec!["/books/main.zhang".to_string()]));
}

#[test]
fn budget_interval_wraps_years_before_zero() {
    let d = Date::Date(NaiveDate::from_ymd_opt(2023, 5, 1).unwrap());
    assert_eq!(202305, d.as_budget_interval());
    let before_zero = Date::Date(NaiveDate::from_ymd_opt(-1, 5, 1).unwrap());
    assert_eq!(((-100i32) as u32).wrapping_add(5), before_zero.as_budget_interval());
}

#[test]
fn fifo_reduction_keeps_other_lots_non_negative() {
    let mut inv = CommodityInventory::new("AAPL");
    assert!(inv.insert(&Decimal::from_i32(3), LotInfo::Lot("USD".to_string(), Decimal::from_i32(7))));
    assert!(inv.insert(&Decimal::from_i32(-5), LotInfo::Fifo));
    let lots = inv.lots();
    assert_eq!(Decimal::from_i32(-2), inv.total());
    assert!(lots.iter().filter(|l| !(l.0 == "AAPL" && l.1 == Decimal::from_i32(1))).all(|l| !l.2.is_negative()));
    assert_eq!(("AAPL".to_string(), Decimal::from_i32(1), Decimal::from_i32(-2)), lots[0]);
}

#[test]
fn decimals_hold_numbers_of_any_size() {
    let max = Decimal::new(i128::MAX, 0);
    let sum = max.checked_add(&max).unwrap();
    assert_eq!("340282366920938463463374607431768211454", sum.to_text());
    assert_eq!(None, sum.mantissa());
    let back = sum.checked_sub(&max).unwrap();
    assert_eq!(Some(i128::MAX), back.mantissa());
    let big = Decimal::from_text("123456789012345678901234567890123456789012.5").unwrap();
    assert_eq!("123456789012345678901234567890123456789012.5", big.to_text());
    assert_eq!("15241578753238836750495351562566681945008420977350670629847549916196003276940725156.25", big.checked_mul(&big).unwrap().to_text());
    assert!(big.checked_mul(&big).unwrap().checked_sub(&big.checked_mul(&big).unwrap()).unwrap().is_zero());
    assert_eq!("123456789012345678901234567890123456789013", big.round_with(0, true).to_text());
    assert_eq!("-0.13", Decimal::new(-125, 3).round_with(2, true).to_text());
}
