use zhang::date::{NaiveDate, NaiveDateTime};
use zhang::decimal::Decimal;
use zhang::price_grip::{DatedPriceGrip, PriceGrip};

fn at_seconds(seconds: u32) -> NaiveDateTime {
    NaiveDate::from_ymd_opt(1970, 1, 1)
        .unwrap()
        .and_hms_opt(seconds / 3600, seconds % 3600 / 60, seconds % 60)
        .unwrap()
}

fn s(text: &str) -> String {
    text.to_string()
}

#[test]
fn should_insert_price() {
    let mut grip = PriceGrip::default();
    grip.insert(s("USD"), s("CNY"), Decimal::from_i32(10));
    assert_eq!(grip.get(&s("USD"), &s("CNY")).unwrap(), Decimal::from_i32(10));

    grip.insert(s("USD"), s("CNY"), Decimal::from_i32(20));
    assert_eq!(grip.get(&s("USD"), &s("CNY")).unwrap(), Decimal::from_i32(20));
}

#[test]
fn should_get_price() {
    let mut grip = PriceGrip::default();
    grip.insert(s("USD"), s("CNY"), Decimal::from_i32(7));
    assert_eq!(grip.get(&s("USD"), &s("CNY")), Some(Decimal::from_i32(7)));
    assert_eq!(grip.get(&s("USD"), &s("CCY")), None);
    assert_eq!(grip.get(&s("CNY"), &s("USD")), None);
}

#[test]
fn should_insert_price_grip() {
    let mut dpg = DatedPriceGrip::default();
    dpg.insert(at_seconds(0), s("USD"), s("CNY"), Decimal::from_i32(7));
    assert!(dpg.inner.contains_key(&at_seconds(0)));
    assert_eq!(
        dpg.inner.get_latest(&at_seconds(0)).unwrap().get(&s("USD"), &s("CNY")).unwrap(),
        Decimal::from_i32(7)
    );
}

#[test]
fn should_return_it_given_same_from_to_currency() {
    let dpg = DatedPriceGrip::default();
    assert_eq!(
        dpg.calculate(&at_seconds(0), &s("CNY"), &s("CNY"), &Decimal::from_i32(100)),
        Some(Decimal::from_i32(100))
    );
}

#[test]
fn should_calculate_to_target_currency() {
    let mut dpg = DatedPriceGrip::default();
    dpg.insert(at_seconds(0), s("USD"), s("CNY"), Decimal::from_i32(7));
    assert_eq!(
        dpg.calculate(&at_seconds(0), &s("USD"), &s("CNY"), &Decimal::from_i32(100)),
        Some(Decimal::from_i32(700))
    );
    assert_eq!(
        dpg.calculate(&at_seconds(1000), &s("USD"), &s("CNY"), &Decimal::from_i32(100)),
        Some(Decimal::from_i32(700))
    );
}

#[test]
fn should_not_use_a_price_from_a_later_moment() {
    let mut dpg = DatedPriceGrip::default();
    dpg.insert(at_seconds(1000), s("USD"), s("CNY"), Decimal::from_i32(7));
    assert_eq!(
        dpg.calculate(&at_seconds(0), &s("USD"), &s("CNY"), &Decimal::from_i32(100)),
        Some(Decimal::zero())
    );
}

#[test]
fn should_use_the_latest_price_up_to_the_moment() {
    let mut dpg = DatedPriceGrip::default();
    dpg.insert(at_seconds(0), s("USD"), s("CNY"), Decimal::from_i32(7));
    dpg.insert(at_seconds(2000), s("USD"), s("CNY"), Decimal::from_i32(6));
    assert_eq!(
        dpg.calculate(&at_seconds(1000), &s("USD"), &s("CNY"), &Decimal::from_i32(100)),
        Some(Decimal::from_i32(700))
    );
    assert_eq!(
        dpg.calculate(&at_seconds(3000), &s("USD"), &s("CNY"), &Decimal::from_i32(100)),
        Some(Decimal::from_i32(600))
    );
}
