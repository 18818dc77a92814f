use vstd::prelude::*;

use crate::account::Account;
use crate::amount::Amount;
use crate::date::Date;
use crate::decimal::Decimal;
use crate::models::{Flag, SingleTotalPrice, StringOrAccount, ZhangString};
use crate::multi_value_map::MultiValueMap;

verus! {

/// The metadata of a directive: keys with one or more string values each.
pub type Meta = MultiValueMap<String, ZhangString>;

/// Opens an account, optionally restricted to some commodities.
#[derive(Debug, PartialEq, Eq, Clone)]
pub struct Open {
    pub date: Date,
    pub account: Account,
    pub commodities: Vec<String>,
    pub meta: Meta,
}

/// Closes an account.
#[derive(Debug, PartialEq, Eq, Clone)]
pub struct Close {
    pub date: Date,
    pub account: Account,
    pub meta: Meta,
}

/// Declares a commodity.
#[derive(Debug, PartialEq, Eq, Clone)]
pub struct Commodity {
    pub date: Date,
    pub currency: String,
    pub meta: Meta,
}

/// A balance assertion, plain or padding the difference from another account.
#[derive(Debug, PartialEq, Eq, Clone)]
pub enum Balance {
    BalanceCheck(BalanceCheck),
    BalancePad(BalancePad),
}

/// Asserts the amount of a commodity in an account at a date.
#[derive(Debug, PartialEq, Eq, Clone)]
pub struct BalanceCheck {
    pub date: Date,
    pub account: Account,
    pub amount: Amount,
    /// the tolerance to use in the verification
    pub tolerance: Option<Decimal>,
    /// `None` while the check holds, else how far the account is from the asserted amount
    pub distance: Option<Amount>,
    pub current_amount: Option<Amount>,
    pub meta: Meta,
}

/// Sets the amount of a commodity in an account at a date, taking the difference from a pad
/// account.
#[derive(Debug, PartialEq, Eq, Clone)]
pub struct BalancePad {
    pub date: Date,
    pub account: Account,
    pub amount: Amount,
    /// the tolerance to use in the verification
    pub tolerance: Option<Decimal>,
    /// the difference that was padded
    pub diff_amount: Option<Amount>,
    pub pad: Account,
    pub meta: Meta,
}

/// One leg of a transaction.
#[derive(Debug, PartialEq, Eq, Clone)]
pub struct Posting {
    pub flag: Option<Flag>,
    pub account: Account,
    pub units: Option<Amount>,
    pub cost: Option<Amount>,
    pub cost_date: Option<Date>,
    pub price: Option<SingleTotalPrice>,
    pub meta: Meta,
}

/// A transaction: a dated set of postings. Tags and links keep the order in which they were
/// written.
#[derive(Debug, PartialEq, Eq, Clone)]
pub struct Transaction {
    pub date: Date,
    pub flag: Option<Flag>,
    pub payee: Option<ZhangString>,
    pub narration: Option<ZhangString>,
    pub tags: Vec<String>,
    pub links: Vec<String>,
    pub postings: Vec<Posting>,
    pub meta: Meta,
}

/// A dated note on an account.
#[derive(Debug, PartialEq, Eq, Clone)]
pub struct Note {
    pub date: Date,
    pub account: Account,
    pub comment: ZhangString,
    pub tags: Option<Vec<String>>,
    pub links: Option<Vec<String>>,
    pub meta: Meta,
}

/// A dated event.
#[derive(Debug, PartialEq, Eq, Clone)]
pub struct Event {
    pub date: Date,
    pub event_type: ZhangString,
    pub description: ZhangString,
    pub meta: Meta,
}

/// A named query.
#[derive(Debug, PartialEq, Eq, Clone)]
pub struct Query {
    pub date: Date,
    pub name: ZhangString,
    pub query_string: ZhangString,
    pub meta: Meta,
}

/// The price of a commodity in another at a date.
#[derive(Debug, PartialEq, Eq, Clone)]
pub struct Price {
    pub date: Date,
    pub currency: String,
    pub amount: Amount,
    pub meta: Meta,
}

/// A document attached to an account.
#[derive(Debug, PartialEq, Eq, Clone)]
pub struct Document {
    pub date: Date,
    pub account: Account,
    pub filename: ZhangString,
    pub tags: Option<Vec<String>>,
    pub links: Option<Vec<String>>,
    pub meta: Meta,
}

/// A budget of a commodity.
#[derive(Debug, PartialEq, Eq, Clone)]
pub struct Budget {
    pub date: Date,
    pub name: String,
    pub commodity: String,
    pub meta: Meta,
}

/// An amount added to a budget.
#[derive(Debug, PartialEq, Eq, Clone)]
pub struct BudgetAdd {
    pub date: Date,
    pub name: String,
    pub amount: Amount,
    pub meta: Meta,
}

/// An amount moved from one budget to another.
#[derive(Debug, PartialEq, Eq, Clone)]
pub struct BudgetTransfer {
    pub date: Date,
    pub from: String,
    pub to: String,
    pub amount: Amount,
    pub meta: Meta,
}

/// The closing of a budget.
#[derive(Debug, PartialEq, Eq, Clone)]
pub struct BudgetClose {
    pub date: Date,
    pub name: String,
    pub meta: Meta,
}

/// A custom directive with a type and values.
#[derive(Debug, PartialEq, Eq, Clone)]
pub struct Custom {
    pub date: Date,
    pub custom_type: ZhangString,
    pub values: Vec<StringOrAccount>,
    pub meta: Meta,
}

/// An option of the ledger.
#[derive(Debug, PartialEq, Eq, Clone)]
pub struct Options {
    pub key: ZhangString,
    pub value: ZhangString,
}

/// A plugin with its configuration values.
#[derive(Debug, PartialEq, Eq, Clone)]
pub struct Plugin {
    pub module: ZhangString,
    pub value: Vec<ZhangString>,
}

/// Includes another file.
#[derive(Debug, PartialEq, Eq, Clone)]
pub struct Include {
    pub file: ZhangString,
}

/// A comment line.
#[derive(Debug, PartialEq, Eq, Clone)]
pub struct Comment {
    pub content: String,
}

impl Transaction {
    /// Whether some posting is on the account of that name.
    pub fn has_account(&self, name: &String) -> (r: bool)
        ensures
            r == exists|i: int| 0 <= i < self.postings@.len() && #[trigger] self.postings@[i].account.content@ == name@,
    {
        let mut i: usize = 0;
        while i < self.postings.len()
            invariant
                i <= self.postings@.len(),
                forall|j: int| 0 <= j < i ==> #[trigger] self.postings@[j].account.content@ != name@,
            decreases self.postings@.len() - i,
        {
            if self.postings[i].account.content == *name {
                return true;
            }
            i = i + 1;
        }
        false
    }
}

} // verus!
