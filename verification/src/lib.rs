use vstd::prelude::*;

pub mod account;
pub mod amount;
pub mod beancount;
pub mod beancount_parser;
pub mod booking;
pub mod data;
pub mod date;
pub mod decimal;
pub mod edit;
pub mod grammar;
pub mod exporter;
pub mod inventory;
pub mod journal;
pub mod keys;
pub mod latest_map;
pub mod ledger;
pub mod lexer;
pub mod lots;
pub mod models;
pub mod multi_value_map;
pub mod natural;
pub mod options;
pub mod parser;
pub mod price_grip;
pub mod roundtrip;
pub mod span;
pub mod statistic;
pub mod strings;
pub mod text;
pub mod transform;
pub mod utils;
pub mod watch;
pub mod wechat;

verus! {

} // verus!
