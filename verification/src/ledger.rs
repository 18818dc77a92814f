use vstd::prelude::*;

use crate::amount::Amount;
use crate::data::{Balance, BalanceCheck, BalancePad, Close, Commodity, Document, Open, Posting, Price, Transaction};
use crate::decimal::Decimal;
use crate::inventory::{all_units, balanced, can_infer, inferred_units, numbers_of, unwrap_units, Inventory, TxnPosting, is_sum_of, sum_fits_at};
use crate::decimal::{max_scale, sum_at, sum_fits};
use crate::models::{Directive, Flag, Rounding, SingleTotalPrice, ZhangString};
use crate::data::Meta;
use crate::options::{i32_of_text, parse_i32};
use crate::multi_value_map::MultiValueMap;
use crate::span::{SpanInfo, Spanned};
use crate::keys::{EqKey, OrdKey};
use crate::latest_map::LatestMap;
use crate::date::NaiveDate;
use crate::price_grip::{DatedPriceGrip, PriceGrip};
use crate::lots::{fresh_inventory, inserted, CommodityInventory, LotInfo};

verus! {

/// Whether an account is open.
#[derive(Debug, PartialEq, Eq, Clone, Copy)]
pub enum AccountStatus {
    /// account is open
    Open,
    /// account is closed
    Close,
}

/// What the ledger knows of an account.
#[derive(Debug, Clone)]
pub struct AccountInfo {
    pub currencies: Vec<String>,
    pub status: AccountStatus,
    pub meta: MultiValueMap<String, String>,
}

/// What the ledger knows of a declared commodity: its directive, and the precision and
/// rounding that its metadata gives.
#[derive(Debug, Clone)]
pub struct CurrencyInfo {
    pub commodity: Commodity,
    pub precision: Option<i32>,
    pub rounding: Option<Rounding>,
    /// Prices of the commodity by day; a commodity declared again keeps them.
    pub prices: LatestMap<NaiveDate, Decimal>,
}

/// The text of the first value of a metadata key.
pub open spec fn meta_first_text(meta: Meta, key: Seq<char>) -> Option<Seq<char>> {
    if meta@.dom().contains(key) {
        Some(meta@[key][0].content())
    } else {
        None
    }
}

/// The precision that a commodity's metadata gives: its `precision` read as a number.
pub open spec fn precision_of(meta: Meta) -> Option<i32> {
    match meta_first_text(meta, "precision"@) {
        Some(t) => i32_of_text(t),
        None => None,
    }
}

/// The rounding that a commodity's metadata gives: its `rounding` read as a rounding mode.
pub open spec fn rounding_of(meta: Meta) -> Option<Rounding> {
    match meta_first_text(meta, "rounding"@) {
        Some(t) => if t == "RoundUp"@ {
            Some(Rounding::RoundUp)
        } else if t == "RoundDown"@ {
            Some(Rounding::RoundDown)
        } else {
            None
        },
        None => None,
    }
}

/// What is wrong with a ledger.
#[derive(Debug, Clone, PartialEq, Eq)]
pub enum LedgerErrorType {
    AccountBalanceCheckError { account_name: String, target: Amount, current: Amount, distance: Amount },
    AccountDoesNotExist { account_name: String },
    AccountClosed { account_name: String },
    TransactionDoesNotBalance,
    CommodityDoesNotDefine { commodity_name: String },
}

/// An error of a ledger with the span of the directive where it shows.
#[derive(Debug, Clone, PartialEq, Eq)]
pub struct LedgerError {
    pub span: SpanInfo,
    pub error: LedgerErrorType,
}

/// A document of the ledger: one of an account, or one that a transaction names in its
/// metadata.
#[derive(Debug, Clone, PartialEq, Eq)]
pub enum DocumentType {
    AccountDocument { date: crate::date::Date, account: String, filename: String },
    TransactionDocument { date: crate::date::Date, filename: String },
}

/// The state of a ledger as its directives are processed.
#[derive(Debug, Clone)]
pub struct Ledger {
    pub accounts: Vec<(String, AccountInfo)>,
    pub currencies: Vec<String>,
    pub currency_infos: Vec<CurrencyInfo>,
    pub account_inventory: Vec<(String, Inventory)>,
    pub errors: Vec<LedgerError>,
    pub directives: Vec<Spanned<Directive>>,
    pub metas: Vec<Spanned<Directive>>,
    pub daily_inventory: DailyAccountInventory,
    pub prices: DatedPriceGrip,
    /// The lots of each account, one entry for each account and commodity.
    pub lots: Vec<(String, CommodityInventory)>,
    /// The documents, in order.
    pub documents: Vec<DocumentType>,
}

/// The inventories of the accounts at the end of each day that had dated directives.
#[derive(Debug, Clone)]
pub struct DailyAccountInventory {
    pub inner: LatestMap<NaiveDate, Vec<(String, Inventory)>>,
}

/// The names and entries of account inventories.
pub open spec fn inventory_views(v: Seq<(String, Inventory)>) -> Seq<(Seq<char>, Seq<(Seq<char>, Decimal)>)> {
    v.map_values(|e: (String, Inventory)| (e.0@, e.1.entries()))
}

/// Equal account inventories.
pub fn copy_inventories(v: &Vec<(String, Inventory)>) -> (r: Vec<(String, Inventory)>)
    ensures
        inventory_views(r@) == inventory_views(v@),
        forall|i: int| 0 <= i < r@.len() ==> (#[trigger] r@[i]).1.wf() == v@[i].1.wf(),
{
    let mut r: Vec<(String, Inventory)> = Vec::new();
    let mut i: usize = 0;
    while i < v.len()
        invariant
            i <= v@.len(),
            inventory_views(r@) == inventory_views(v@.take(i as int)),
            forall|k: int| 0 <= k < r@.len() ==> (#[trigger] r@[k]).1.wf() == v@[k].1.wf(),
            r@.len() == i,
        decreases v@.len() - i,
    {
        let ghost before = r@;
        r.push((v[i].0.clone(), v[i].1.copy()));
        proof {
            assert(inventory_views(r@) =~= inventory_views(before).push((v@[i as int].0@, v@[i as int].1.entries())));
            assert(inventory_views(v@.take(i + 1)) =~= inventory_views(v@.take(i as int)).push((v@[i as int].0@, v@[i as int].1.entries())));
        }
        i = i + 1;
    }
    proof {
        assert(v@.take(v@.len() as int) =~= v@);
    }
    r
}

impl DailyAccountInventory {
    pub fn new() -> (r: DailyAccountInventory)
        ensures
            r.inner.wf(),
            r.inner@ == Map::<int, Vec<(String, Inventory)>>::empty(),
    {
        DailyAccountInventory { inner: LatestMap::new() }
    }

    /// Records the inventories of the accounts at the end of a day.
    pub fn insert_account_inventory(&mut self, day: NaiveDate, inventories: Vec<(String, Inventory)>)
        requires
            old(self).inner.wf(),
        ensures
            final(self).inner.wf(),
            final(self).inner@ == old(self).inner@.insert(day.rank(), inventories),
    {
        self.inner.insert(day, inventories);
    }

    /// The inventories of the accounts at the end of the latest recorded day not after `day`;
    /// none before the first recorded day.
    pub fn get_account_inventory(&self, day: &NaiveDate) -> (r: Vec<(String, Inventory)>)
        requires
            self.inner.wf(),
        ensures
            (exists|x: int| crate::latest_map::is_latest(self.inner@, day.rank(), x)) ==> exists|x: int|
                crate::latest_map::is_latest(self.inner@, day.rank(), x) && inventory_views(r@) == inventory_views(#[trigger] self.inner@[x]@),
            !(exists|x: int| crate::latest_map::is_latest(self.inner@, day.rank(), x)) ==> r@.len() == 0,
    {
        match self.inner.get_latest(day) {
            Some(v) => copy_inventories(v),
            None => {
                proof {
                    if exists|x: int| crate::latest_map::is_latest(self.inner@, day.rank(), x) {
                        let x = choose|x: int| crate::latest_map::is_latest(self.inner@, day.rank(), x);
                        assert(self.inner@.dom().contains(x));
                    }
                }
                Vec::new()
            },
        }
    }
}

impl Ledger {
    /// Account names and inventory names are each unique, and every inventory is well formed.
    pub open spec fn wf(&self) -> bool {
        &&& forall|i: int, j: int|
            0 <= i < j < self.accounts@.len() ==> #[trigger] self.accounts@[i].0@ != #[trigger] self.accounts@[j].0@
        &&& forall|i: int, j: int|
            0 <= i < j < self.account_inventory@.len() ==> #[trigger] self.account_inventory@[i].0@
                != #[trigger] self.account_inventory@[j].0@
        &&& forall|i: int| 0 <= i < self.account_inventory@.len() ==> (#[trigger] self.account_inventory@[i]).1.wf()
        &&& forall|i: int| 0 <= i < self.accounts@.len() ==> (#[trigger] self.accounts@[i]).1.meta.wf()
        &&& self.daily_inventory.inner.wf()
        &&& self.prices.wf()
        &&& self.currency_infos@.len() == self.currencies@.len()
        &&& forall|i: int, j: int|
            0 <= i < j < self.currencies@.len() ==> #[trigger] self.currencies@[i]@ != #[trigger] self.currencies@[j]@
        &&& forall|i: int| 0 <= i < self.lots@.len() ==> (#[trigger] self.lots@[i]).1.wf()
        &&& forall|i: int, j: int|
            0 <= i < j < self.lots@.len() ==> !(#[trigger] self.lots@[i].0@ == #[trigger] self.lots@[j].0@
                && self.lots@[i].1.commodity() == self.lots@[j].1.commodity())
    }

    pub open spec fn has_account(&self, name: Seq<char>) -> bool {
        exists|i: int| 0 <= i < self.accounts@.len() && #[trigger] self.accounts@[i].0@ == name
    }

    /// The account of that name is known and closed.
    pub open spec fn is_closed(&self, name: Seq<char>) -> bool {
        exists|i: int|
            0 <= i < self.accounts@.len() && #[trigger] self.accounts@[i].0@ == name && self.accounts@[i].1.status
                == AccountStatus::Close
    }

    pub open spec fn has_currency(&self, c: Seq<char>) -> bool {
        exists|i: int| 0 <= i < self.currencies@.len() && #[trigger] self.currencies@[i]@ == c
    }

    /// An empty ledger.
    pub fn new() -> (r: Ledger)
        ensures
            r.wf(),
            r.accounts@.len() == 0,
            r.currencies@.len() == 0,
            r.account_inventory@.len() == 0,
            r.errors@.len() == 0,
            r.currency_infos@.len() == 0,
            r.directives@.len() == 0,
            r.metas@.len() == 0,
            r.daily_inventory.inner@ == Map::<int, Vec<(String, Inventory)>>::empty(),
            r.prices.grips() == Map::<int, PriceGrip>::empty(),
            r.lots@.len() == 0,
            r.documents@.len() == 0,
    {
        Ledger {
            accounts: Vec::new(),
            currencies: Vec::new(),
            currency_infos: Vec::new(),
            account_inventory: Vec::new(),
            errors: Vec::new(),
            directives: Vec::new(),
            metas: Vec::new(),
            daily_inventory: DailyAccountInventory::new(),
            prices: DatedPriceGrip::new(),
            lots: Vec::new(),
            documents: Vec::new(),
        }
    }

    /// Where the account of that name stands.
    pub fn find_account(&self, name: &String) -> (r: Option<usize>)
        ensures
            match r {
                Some(i) => i < self.accounts@.len() && self.accounts@[i as int].0@ == name@,
                None => !self.has_account(name@),
            },
    {
        let mut i: usize = 0;
        while i < self.accounts.len()
            invariant
                i <= self.accounts@.len(),
                forall|j: int| 0 <= j < i ==> #[trigger] self.accounts@[j].0@ != name@,
            decreases self.accounts@.len() - i,
        {
            if self.accounts[i].0 == *name {
                return Some(i);
            }
            i = i + 1;
        }
        None
    }

    /// Whether the commodity is declared.
    pub fn currency_defined(&self, c: &String) -> (r: bool)
        ensures
            r == self.has_currency(c@),
    {
        let mut i: usize = 0;
        while i < self.currencies.len()
            invariant
                i <= self.currencies@.len(),
                forall|j: int| 0 <= j < i ==> #[trigger] self.currencies@[j]@ != c@,
            decreases self.currencies@.len() - i,
        {
            if self.currencies[i] == *c {
                return true;
            }
            i = i + 1;
        }
        false
    }

    /// Reports an account that does not exist.
    pub fn check_account_existed(&mut self, span: &SpanInfo, name: &String)
        ensures
            final(self).documents == old(self).documents,
            final(self).directives == old(self).directives,
            final(self).metas == old(self).metas,
            final(self).lots == old(self).lots,
            final(self).accounts == old(self).accounts,
            final(self).currencies == old(self).currencies,
            final(self).currency_infos == old(self).currency_infos,
            final(self).account_inventory == old(self).account_inventory,
            final(self).daily_inventory == old(self).daily_inventory,
            final(self).prices == old(self).prices,
            final(self).errors@ == if old(self).has_account(name@) {
                old(self).errors@
            } else {
                old(self).errors@.push(
                    LedgerError { span: *span, error: LedgerErrorType::AccountDoesNotExist { account_name: *name } },
                )
            },
    {
        if self.find_account(name).is_none() {
            self.errors.push(
                LedgerError {
                    span: span.copy(),
                    error: LedgerErrorType::AccountDoesNotExist { account_name: name.clone() },
                },
            );
        }
    }

    /// Reports an account that is closed.
    pub fn check_account_closed(&mut self, span: &SpanInfo, name: &String)
        requires
            old(self).wf(),
        ensures
            final(self).documents == old(self).documents,
            final(self).directives == old(self).directives,
            final(self).metas == old(self).metas,
            final(self).lots == old(self).lots,
            final(self).accounts == old(self).accounts,
            final(self).currencies == old(self).currencies,
            final(self).currency_infos == old(self).currency_infos,
            final(self).account_inventory == old(self).account_inventory,
            final(self).daily_inventory == old(self).daily_inventory,
            final(self).prices == old(self).prices,
            final(self).errors@ == if old(self).is_closed(name@) {
                old(self).errors@.push(
                    LedgerError { span: *span, error: LedgerErrorType::AccountClosed { account_name: *name } },
                )
            } else {
                old(self).errors@
            },
    {
        match self.find_account(name) {
            Some(i) => {
                if matches!(self.accounts[i].1.status, AccountStatus::Close) {
                    self.errors.push(
                        LedgerError {
                            span: span.copy(),
                            error: LedgerErrorType::AccountClosed { account_name: name.clone() },
                        },
                    );
                } else {
                    proof {
                        assert forall|j: int| 0 <= j < self.accounts@.len() && #[trigger] self.accounts@[j].0@ == name@
                            implies self.accounts@[j].1.status != AccountStatus::Close by {
                            if j != i {
                                if j < i {
                                    assert(self.accounts@[j].0@ != self.accounts@[i as int].0@);
                                } else {
                                    assert(self.accounts@[i as int].0@ != self.accounts@[j].0@);
                                }
                            }
                        }
                    }
                }
            },
            None => {},
        }
    }

    /// Reports a commodity that is not declared.
    pub fn check_commodity_define(&mut self, span: &SpanInfo, commodity: &String)
        ensures
            final(self).documents == old(self).documents,
            final(self).directives == old(self).directives,
            final(self).metas == old(self).metas,
            final(self).lots == old(self).lots,
            final(self).accounts == old(self).accounts,
            final(self).currencies == old(self).currencies,
            final(self).currency_infos == old(self).currency_infos,
            final(self).account_inventory == old(self).account_inventory,
            final(self).daily_inventory == old(self).daily_inventory,
            final(self).prices == old(self).prices,
            final(self).errors@ == if old(self).has_currency(commodity@) {
                old(self).errors@
            } else {
                old(self).errors@.push(
                    LedgerError {
                        span: *span,
                        error: LedgerErrorType::CommodityDoesNotDefine { commodity_name: *commodity },
                    },
                )
            },
    {
        if !self.currency_defined(commodity) {
            self.errors.push(
                LedgerError {
                    span: span.copy(),
                    error: LedgerErrorType::CommodityDoesNotDefine { commodity_name: commodity.clone() },
                },
            );
        }
    }
}

impl Ledger {
    /// The inventory of the account of that name, if it has one.
    pub open spec fn inventory_of(&self, name: Seq<char>) -> Option<Inventory> {
        if exists|i: int| 0 <= i < self.account_inventory@.len() && #[trigger] self.account_inventory@[i].0@ == name {
            Some(
                self.account_inventory@[choose|i: int|
                    0 <= i < self.account_inventory@.len() && #[trigger] self.account_inventory@[i].0@ == name].1,
            )
        } else {
            None
        }
    }

    proof fn lemma_inventory_at(&self, i: int)
        requires
            self.wf(),
            0 <= i < self.account_inventory@.len(),
        ensures
            self.inventory_of(self.account_inventory@[i].0@) == Some(self.account_inventory@[i].1),
    {
        let name = self.account_inventory@[i].0@;
        let j = choose|j: int| 0 <= j < self.account_inventory@.len() && #[trigger] self.account_inventory@[j].0@ == name;
        if j != i {
            if j < i {
                assert(self.account_inventory@[j].0@ != self.account_inventory@[i].0@);
            } else {
                assert(self.account_inventory@[i].0@ != self.account_inventory@[j].0@);
            }
        }
    }

    fn find_inventory(&self, name: &String) -> (r: Option<usize>)
        ensures
            match r {
                Some(i) => i < self.account_inventory@.len() && self.account_inventory@[i as int].0@ == name@,
                None => self.inventory_of(name@) is None,
            },
    {
        let mut i: usize = 0;
        while i < self.account_inventory.len()
            invariant
                i <= self.account_inventory@.len(),
                forall|j: int| 0 <= j < i ==> #[trigger] self.account_inventory@[j].0@ != name@,
            decreases self.account_inventory@.len() - i,
        {
            if self.account_inventory[i].0 == *name {
                return Some(i);
            }
            i = i + 1;
        }
        None
    }

    /// The total of a commodity in an account; zero when the account has no inventory.
    pub fn account_total(&self, name: &String, currency: &String) -> (r: crate::decimal::Decimal)
        requires
            self.wf(),
        ensures
            match self.inventory_of(name@) {
                Some(inv) => r == inv.total(currency@),
                None => r.mant() == 0 && r.scl() == 0,
            },
    {
        match self.find_inventory(name) {
            Some(i) => {
                proof {
                    self.lemma_inventory_at(i as int);
                }
                self.account_inventory[i].1.get_total(currency)
            },
            None => crate::decimal::Decimal::zero(),
        }
    }

    /// Adds an amount to the inventory of an account, giving the account an inventory when it
    /// has none; gives `true`.
    pub fn add_to_account(&mut self, name: &String, amount: &Amount) -> (ok: bool)
        requires
            old(self).wf(),
        ensures
            final(self).documents == old(self).documents,
            final(self).daily_inventory == old(self).daily_inventory,
            final(self).prices == old(self).prices,
            final(self).directives == old(self).directives,
            final(self).metas == old(self).metas,
            final(self).lots == old(self).lots,
            final(self).wf(),
            final(self).accounts == old(self).accounts,
            final(self).currencies == old(self).currencies,
            final(self).currency_infos == old(self).currency_infos,
            final(self).errors == old(self).errors,
            final(self).inventory_of(name@) is Some,
            ({
                let before = match old(self).inventory_of(name@) {
                    Some(inv) => inv.total(amount.currency@),
                    None => crate::decimal::Decimal::from_parts(0, 0),
                };
                let after = final(self).inventory_of(name@).unwrap().total(amount.currency@);
                let s = if before.scl() >= amount.number.scl() { before.scl() } else { amount.number.scl() };
                &&& ok ==> after.scl() == s && after.mant() == before.at_scale(s) + amount.number.at_scale(s)
                &&& !ok ==> !(crate::decimal::fits_mantissa(before.at_scale(s)) && crate::decimal::fits_mantissa(
                    amount.number.at_scale(s),
                ) && crate::decimal::fits_mantissa(before.at_scale(s) + amount.number.at_scale(s)))
            }),
            forall|x: Seq<char>| x != amount.currency@ ==> #[trigger] final(self).inventory_of(name@).unwrap().total(x) == match old(self).inventory_of(name@) {
                Some(inv) => inv.total(x),
                None => crate::decimal::Decimal::from_parts(0, 0),
            },
            forall|x: Seq<char>| x != name@ ==> #[trigger] final(self).inventory_of(x) == old(self).inventory_of(x),
            ok,
    {
        let i = match self.find_inventory(name) {
            Some(i) => {
                proof {
                    self.lemma_inventory_at(i as int);
                }
                i
            },
            None => {
                self.account_inventory.push((name.clone(), Inventory::new()));
                let n = self.account_inventory.len() - 1;
                proof {
                    assert forall|a: int, b: int| 0 <= a < b < self.account_inventory@.len() implies #[trigger] self.account_inventory@[a].0@
                        != #[trigger] self.account_inventory@[b].0@ by {
                        if b == n {
                            assert(old(self).account_inventory@[a] == self.account_inventory@[a]);
                        }
                    }
                    self.lemma_inventory_at(n as int);
                    let inv = self.account_inventory@[n as int].1;
                    crate::decimal::lemma_from_parts(0, 0);
                    assert(!inv.has(amount.currency@));
                    assert forall|x: Seq<char>| !inv.has(x) by {}
                    assert forall|x: Seq<char>| x != name@ implies #[trigger] self.inventory_of(x) == old(self).inventory_of(x) by {
                        if exists|k: int| 0 <= k < old(self).account_inventory@.len() && #[trigger] old(self).account_inventory@[k].0@ == x {
                            let k = choose|k: int| 0 <= k < old(self).account_inventory@.len() && #[trigger] old(self).account_inventory@[k].0@ == x;
                            old(self).lemma_inventory_at(k);
                            assert(self.account_inventory@[k] == old(self).account_inventory@[k]);
                            self.lemma_inventory_at(k);
                        } else {
                            if exists|k: int| 0 <= k < self.account_inventory@.len() && #[trigger] self.account_inventory@[k].0@ == x {
                                let k = choose|k: int| 0 <= k < self.account_inventory@.len() && #[trigger] self.account_inventory@[k].0@ == x;
                                if k < n {
                                    assert(old(self).account_inventory@[k] == self.account_inventory@[k]);
                                }
                            }
                        }
                    }
                }
                n
            },
        };
        let ghost mid = *self;
        let (entry_name, mut inv) = self.account_inventory.remove(i);
        let ok = inv.add_amount(amount);
        self.account_inventory.insert(i, (entry_name, inv));
        proof {
            assert(self.account_inventory@ =~= mid.account_inventory@.update(i as int, (mid.account_inventory@[i as int].0, inv)));
            assert forall|a: int, b: int| 0 <= a < b < self.account_inventory@.len() implies #[trigger] self.account_inventory@[a].0@
                != #[trigger] self.account_inventory@[b].0@ by {
                assert(self.account_inventory@[a].0 == mid.account_inventory@[a].0);
                assert(self.account_inventory@[b].0 == mid.account_inventory@[b].0);
            }
            assert forall|k: int| 0 <= k < self.account_inventory@.len() implies (#[trigger] self.account_inventory@[k]).1.wf() by {
                if k != i {
                    assert(self.account_inventory@[k] == mid.account_inventory@[k]);
                }
            }
            self.lemma_inventory_at(i as int);
            mid.lemma_inventory_at(i as int);
            assert forall|x: Seq<char>| x != name@ implies #[trigger] self.inventory_of(x) == mid.inventory_of(x) by {
                if exists|k: int| 0 <= k < mid.account_inventory@.len() && #[trigger] mid.account_inventory@[k].0@ == x {
                    let k = choose|k: int| 0 <= k < mid.account_inventory@.len() && #[trigger] mid.account_inventory@[k].0@ == x;
                    mid.lemma_inventory_at(k);
                    assert(k != i);
                    assert(self.account_inventory@[k] == mid.account_inventory@[k]);
                    self.lemma_inventory_at(k);
                } else {
                    if exists|k: int| 0 <= k < self.account_inventory@.len() && #[trigger] self.account_inventory@[k].0@ == x {
                        let k = choose|k: int| 0 <= k < self.account_inventory@.len() && #[trigger] self.account_inventory@[k].0@ == x;
                        assert(self.account_inventory@[k].0 == mid.account_inventory@[k].0);
                    }
                }
            }
        }
        ok
    }
}

/// Some string of `v` has the characters `x`.
pub open spec fn has_name(v: Seq<String>, x: Seq<char>) -> bool {
    exists|k: int| 0 <= k < v.len() && #[trigger] v[k]@ == x
}

/// What opening the account of `op` does to the ledger `l`, giving `l2` (see
/// `Ledger::process_open`).
pub open spec fn open_effect(l: Ledger, op: Open, span: SpanInfo, l2: Ledger) -> bool {
    &&& l2.documents == l.documents
    &&& l2.lots == l.lots
    &&& l2.has_account(op.account.content@)
    &&& l2.account_at(op.account.content@).status == AccountStatus::Open
    &&& forall|c: int| 0 <= c < op.commodities@.len() ==> has_name(
        l2.account_at(op.account.content@).currencies@,
        #[trigger] op.commodities@[c]@,
    )
    &&& l2.currencies == l.currencies
    &&& l2.currency_infos == l.currency_infos
    &&& l2.account_inventory == l.account_inventory
    &&& l.errors@.len() <= l2.errors@.len()
    &&& forall|k: int| 0 <= k < l.errors@.len() ==> #[trigger] l2.errors@[k] == l.errors@[k]
}

/// What closing the account of `cl` does to the ledger `l`, giving `l2` (see
/// `Ledger::process_close`).
pub open spec fn close_effect(l: Ledger, cl: Close, span: SpanInfo, l2: Ledger) -> bool {
    &&& l2.documents == l.documents
    &&& l2.lots == l.lots
    &&& l2.has_account(cl.account.content@)
    &&& l2.account_at(cl.account.content@).status == AccountStatus::Close
    &&& l2.currencies == l.currencies
    &&& l2.currency_infos == l.currency_infos
    &&& l2.account_inventory == l.account_inventory
    &&& l2.errors@ == l.errors@ + (if l.has_account(cl.account.content@) {
        Seq::empty()
    } else {
        seq![LedgerError { span: span, error: LedgerErrorType::AccountDoesNotExist { account_name: cl.account.content } }]
    }) + (if l.is_closed(cl.account.content@) {
        seq![LedgerError { span: span, error: LedgerErrorType::AccountClosed { account_name: cl.account.content } }]
    } else {
        Seq::empty()
    })
}

/// What declaring the commodity `cm` does to the ledger `l`, giving `l2` (see
/// `Ledger::process_commodity`).
pub open spec fn commodity_effect(l: Ledger, cm: Commodity, l2: Ledger) -> bool {
    &&& l2.documents == l.documents
    &&& l2.lots == l.lots
    &&& l2.has_currency(cm.currency@)
    &&& forall|c: Seq<char>| #[trigger] l2.has_currency(c) == (l.has_currency(c) || c == cm.currency@)
    &&& forall|i: int|
        0 <= i < l2.currencies@.len() && #[trigger] l2.currencies@[i]@ == cm.currency@
            ==> l2.currency_infos@[i].precision == precision_of(cm.meta)
            && l2.currency_infos@[i].rounding == rounding_of(cm.meta)
            && l2.currency_infos@[i].commodity.date == cm.date
            && l2.currency_infos@[i].commodity.currency == cm.currency
            && l2.currency_infos@[i].commodity.meta@ == cm.meta@
            && l2.currency_infos@[i].commodity.meta.key_order() == cm.meta.key_order()
            && l2.currency_infos@[i].commodity.meta.value_lists() == cm.meta.value_lists()
            && (if i < l.currencies@.len() {
            l2.currency_infos@[i].prices == l.currency_infos@[i].prices
        } else {
            l2.currency_infos@[i].prices@ == Map::<int, Decimal>::empty()
        })
    &&& l.currencies@.len() <= l2.currencies@.len()
    &&& forall|i: int|
        0 <= i < l.currencies@.len() && l.currencies@[i]@ != cm.currency@
            ==> #[trigger] l2.currencies@[i] == l.currencies@[i] && l2.currency_infos@[i]
            == l.currency_infos@[i]
    &&& l2.accounts == l.accounts
    &&& l2.account_inventory == l.account_inventory
    &&& l2.errors == l.errors
    &&& l2.daily_inventory == l.daily_inventory
    &&& l2.prices == l.prices
}

/// What the price `pr` does to the ledger `l`, giving `l2` (see `Ledger::process_price`).
pub open spec fn price_effect(l: Ledger, pr: Price, span: SpanInfo, l2: Ledger) -> bool {
    &&& l2.documents == l.documents
    &&& l2.lots == l.lots
    &&& ({
        let at = pr.date.spec_naive_datetime().rank();
        &&& l2.prices.grips().dom() == l.prices.grips().dom().insert(at)
        &&& l2.prices.grips()[at].price(pr.currency@, pr.amount.currency@) == Some(pr.amount.number)
        &&& forall|a: Seq<char>, b: Seq<char>|
            !(a == pr.currency@ && b == pr.amount.currency@) ==> #[trigger] l2.prices.grips()[at].price(a, b)
                == if l.prices.grips().dom().contains(at) {
                l.prices.grips()[at].price(a, b)
            } else {
                None
            }
        &&& forall|k: int| k != at ==> #[trigger] l2.prices.grips().dom().contains(k)
            == l.prices.grips().dom().contains(k) && (l.prices.grips().dom().contains(k)
            ==> l2.prices.grips()[k] == l.prices.grips()[k])
    })
    &&& l2.accounts == l.accounts
    &&& l2.currencies == l.currencies
    &&& l2.currency_infos == l.currency_infos
    &&& l2.account_inventory == l.account_inventory
    &&& l2.daily_inventory == l.daily_inventory
    &&& l2.errors@ == l.errors@ + (if l.has_currency(pr.currency@) {
        Seq::empty()
    } else {
        seq![LedgerError { span: span, error: LedgerErrorType::CommodityDoesNotDefine { commodity_name: pr.currency } }]
    }) + (if l.has_currency(pr.amount.currency@) {
        Seq::empty()
    } else {
        seq![LedgerError { span: span, error: LedgerErrorType::CommodityDoesNotDefine { commodity_name: pr.amount.currency } }]
    })
}

/// What the document `doc` does to the ledger `l`, giving `l2` (see
/// `Ledger::process_document`).
pub open spec fn document_effect(l: Ledger, doc: Document, span: SpanInfo, l2: Ledger) -> bool {
    &&& l2.documents@ == l.documents@.push(
        DocumentType::AccountDocument { date: doc.date, account: doc.account.content, filename: doc.filename.plain() },
    )
    &&& l2.lots == l.lots
    &&& l2.accounts == l.accounts
    &&& l2.currencies == l.currencies
    &&& l2.currency_infos == l.currency_infos
    &&& l2.account_inventory == l.account_inventory
    &&& l2.daily_inventory == l.daily_inventory
    &&& l2.prices == l.prices
    &&& l2.errors@ == l.errors@ + (if l.has_account(doc.account.content@) {
        Seq::empty()
    } else {
        seq![LedgerError { span: span, error: LedgerErrorType::AccountDoesNotExist { account_name: doc.account.content } }]
    }) + (if l.is_closed(doc.account.content@) {
        seq![LedgerError { span: span, error: LedgerErrorType::AccountClosed { account_name: doc.account.content } }]
    } else {
        Seq::empty()
    })
}

impl Ledger {
    /// The entry of the account of that name.
    pub open spec fn account_at(&self, name: Seq<char>) -> AccountInfo {
        self.accounts@[choose|i: int| 0 <= i < self.accounts@.len() && #[trigger] self.accounts@[i].0@ == name].1
    }

    /// Gives the position of the account, opening an entry for it when it has none.
    fn ensure_account(&mut self, name: &String) -> (i: usize)
        requires
            old(self).wf(),
        ensures
            final(self).documents == old(self).documents,
            final(self).lots == old(self).lots,
            final(self).wf(),
            i < final(self).accounts@.len(),
            final(self).accounts@[i as int].0@ == name@,
            old(self).has_account(name@) ==> final(self).accounts == old(self).accounts,
            !old(self).has_account(name@) ==> final(self).accounts@ == old(self).accounts@.push(
                final(self).accounts@[i as int],
            ) && final(self).accounts@[i as int].1.status == AccountStatus::Open
                && final(self).accounts@[i as int].1.currencies@.len() == 0,
            final(self).currencies == old(self).currencies,
            final(self).currency_infos == old(self).currency_infos,
            final(self).account_inventory == old(self).account_inventory,
            final(self).errors == old(self).errors,
    {
        match self.find_account(name) {
            Some(i) => i,
            None => {
                let info = AccountInfo { currencies: Vec::new(), status: AccountStatus::Open, meta: MultiValueMap::new() };
                self.accounts.push((name.clone(), info));
                let n = self.accounts.len() - 1;
                proof {
                    assert forall|a: int, b: int| 0 <= a < b < self.accounts@.len() implies #[trigger] self.accounts@[a].0@
                        != #[trigger] self.accounts@[b].0@ by {
                        if b == n {
                            assert(old(self).accounts@[a] == self.accounts@[a]);
                        }
                    }
                    assert forall|k: int| 0 <= k < self.accounts@.len() implies (#[trigger] self.accounts@[k]).1.meta.wf() by {
                        if k < n {
                            assert(old(self).accounts@[k] == self.accounts@[k]);
                        }
                    }
                }
                n
            },
        }
    }

    /// Replaces the entry of the account at position `i`.
    fn set_account(&mut self, i: usize, info: AccountInfo)
        requires
            old(self).wf(),
            i < old(self).accounts@.len(),
            info.meta.wf(),
        ensures
            final(self).documents == old(self).documents,
            final(self).lots == old(self).lots,
            final(self).wf(),
            final(self).accounts@ == old(self).accounts@.update(i as int, (old(self).accounts@[i as int].0, info)),
            final(self).currencies == old(self).currencies,
            final(self).currency_infos == old(self).currency_infos,
            final(self).account_inventory == old(self).account_inventory,
            final(self).errors == old(self).errors,
    {
        let ghost mid = self.accounts@;
        let (name, _) = self.accounts.remove(i);
        self.accounts.insert(i, (name, info));
        proof {
            assert(self.accounts@ =~= mid.update(i as int, (mid[i as int].0, info)));
            assert forall|a: int, b: int| 0 <= a < b < self.accounts@.len() implies #[trigger] self.accounts@[a].0@
                != #[trigger] self.accounts@[b].0@ by {
                assert(self.accounts@[a].0 == mid[a].0);
                assert(self.accounts@[b].0 == mid[b].0);
            }
            assert forall|k: int| 0 <= k < self.accounts@.len() implies (#[trigger] self.accounts@[k]).1.meta.wf() by {
                if k != i {
                    assert(self.accounts@[k] == mid[k]);
                }
            }
        }
    }

    /// Opens an account: reports its commodities that are not declared, marks it open, and
    /// records its commodities and metadata.
    pub fn process_open(&mut self, open: &Open, span: &SpanInfo)
        requires
            old(self).wf(),
        ensures
            final(self).documents == old(self).documents,
            final(self).wf(),
            open_effect(*old(self), *open, *span, *final(self)),
    {
        let mut c: usize = 0;
        while c < open.commodities.len()
            invariant
                self.wf(),
                self.accounts == old(self).accounts,
                self.currencies == old(self).currencies,
                self.currency_infos == old(self).currency_infos,
                self.account_inventory == old(self).account_inventory,
                self.lots == old(self).lots,
                self.documents == old(self).documents,
                old(self).errors@.len() <= self.errors@.len(),
                forall|k: int| 0 <= k < old(self).errors@.len() ==> #[trigger] self.errors@[k] == old(self).errors@[k],
            decreases open.commodities@.len() - c,
        {
            self.check_commodity_define(span, &open.commodities[c]);
            c = c + 1;
        }
        let name = &open.account.content;
        let i = self.ensure_account(name);
        let old_info = &self.accounts[i].1;
        let mut currencies: Vec<String> = Vec::new();
        let mut k: usize = 0;
        while k < old_info.currencies.len()
            invariant
                k <= old_info.currencies@.len(),
            decreases old_info.currencies@.len() - k,
        {
            currencies.push(old_info.currencies[k].clone());
            k = k + 1;
        }
        let mut meta: MultiValueMap<String, String> = MultiValueMap::new();
        let old_pairs = old_info.meta.pairs();
        let mut k: usize = 0;
        while k < old_pairs.len()
            invariant
                meta.wf(),
                k <= old_pairs@.len(),
            decreases old_pairs@.len() - k,
        {
            let (key, value) = old_pairs[k];
            meta.insert(key.clone(), value.clone());
            k = k + 1;
        }
        let pairs = open.meta.pairs();
        let mut k: usize = 0;
        while k < pairs.len()
            invariant
                meta.wf(),
                k <= pairs@.len(),
            decreases pairs@.len() - k,
        {
            let (key, value) = pairs[k];
            meta.insert(key.clone(), value.as_str().to_owned());
            k = k + 1;
        }
        let mut c: usize = 0;
        while c < open.commodities.len()
            invariant
                c <= open.commodities@.len(),
                forall|q: int| 0 <= q < c ==> has_name(currencies@, #[trigger] open.commodities@[q]@),
            decreases open.commodities@.len() - c,
        {
            let ghost before = currencies@;
            if !crate::parser::contains_string(&currencies, &open.commodities[c]) {
                currencies.push(open.commodities[c].clone());
            }
            proof {
                assert forall|q: int| 0 <= q <= c implies has_name(currencies@, #[trigger] open.commodities@[q]@) by {
                    if q < c {
                        assert(has_name(before, open.commodities@[q]@));
                        let k = choose|k: int| 0 <= k < before.len() && #[trigger] before[k]@ == open.commodities@[q]@;
                        assert(currencies@[k] == before[k]);
                    } else if currencies@.len() > before.len() {
                        assert(currencies@[before.len() as int]@ == open.commodities@[q]@);
                    }
                }
            }
            c = c + 1;
        }
        let ghost cv = currencies@;
        let info = AccountInfo { currencies, status: AccountStatus::Open, meta };
        self.set_account(i, info);
        proof {
            self.lemma_account_at(i as int);
            assert(self.account_at(open.account.content@).currencies@ == cv);
        }
    }

    proof fn lemma_account_at(&self, i: int)
        requires
            self.wf(),
            0 <= i < self.accounts@.len(),
        ensures
            self.has_account(self.accounts@[i].0@),
            self.account_at(self.accounts@[i].0@) == self.accounts@[i].1,
    {
        let name = self.accounts@[i].0@;
        let j = choose|j: int| 0 <= j < self.accounts@.len() && #[trigger] self.accounts@[j].0@ == name;
        if j != i {
            if j < i {
                assert(self.accounts@[j].0@ != self.accounts@[i].0@);
            } else {
                assert(self.accounts@[i].0@ != self.accounts@[j].0@);
            }
        }
    }

    /// Closes an account: reports it when it does not exist or is closed already, and marks it
    /// closed.
    pub fn process_close(&mut self, close: &Close, span: &SpanInfo)
        requires
            old(self).wf(),
        ensures
            final(self).documents == old(self).documents,
            final(self).wf(),
            close_effect(*old(self), *close, *span, *final(self)),
    {
        let name = &close.account.content;
        self.check_account_existed(span, name);
        self.check_account_closed(span, name);
        proof {
            assert(self.errors@ =~= old(self).errors@ + (if old(self).has_account(close.account.content@) {
                Seq::empty()
            } else {
                seq![LedgerError { span: *span, error: LedgerErrorType::AccountDoesNotExist { account_name: close.account.content } }]
            }) + (if old(self).is_closed(close.account.content@) {
                seq![LedgerError { span: *span, error: LedgerErrorType::AccountClosed { account_name: close.account.content } }]
            } else {
                Seq::empty()
            }));
        }
        let ghost errs = self.errors@;
        let i = self.ensure_account(name);
        let old_info = &self.accounts[i].1;
        let mut currencies: Vec<String> = Vec::new();
        let mut k: usize = 0;
        while k < old_info.currencies.len()
            invariant
                k <= old_info.currencies@.len(),
            decreases old_info.currencies@.len() - k,
        {
            currencies.push(old_info.currencies[k].clone());
            k = k + 1;
        }
        let mut meta: MultiValueMap<String, String> = MultiValueMap::new();
        let old_pairs = old_info.meta.pairs();
        let mut k: usize = 0;
        while k < old_pairs.len()
            invariant
                meta.wf(),
                k <= old_pairs@.len(),
            decreases old_pairs@.len() - k,
        {
            let (key, value) = old_pairs[k];
            meta.insert(key.clone(), value.clone());
            k = k + 1;
        }
        let pairs = close.meta.pairs();
        let mut k: usize = 0;
        while k < pairs.len()
            invariant
                meta.wf(),
                k <= pairs@.len(),
            decreases pairs@.len() - k,
        {
            let (key, value) = pairs[k];
            meta.insert(key.clone(), value.as_str().to_owned());
            k = k + 1;
        }
        self.set_account(i, AccountInfo { currencies, status: AccountStatus::Close, meta });
        proof {
            self.lemma_account_at(i as int);
        }
    }

    /// Declares a commodity.
    /// Where the commodity stands among the declared ones.
    fn find_currency(&self, c: &String) -> (r: Option<usize>)
        ensures
            match r {
                Some(i) => i < self.currencies@.len() && self.currencies@[i as int]@ == c@,
                None => !self.has_currency(c@),
            },
    {
        let mut i: usize = 0;
        while i < self.currencies.len()
            invariant
                i <= self.currencies@.len(),
                forall|j: int| 0 <= j < i ==> #[trigger] self.currencies@[j]@ != c@,
            decreases self.currencies@.len() - i,
        {
            if self.currencies[i] == *c {
                return Some(i);
            }
            i = i + 1;
        }
        None
    }

    /// Declares a commodity, with the precision and rounding that its metadata gives; a
    /// commodity declared again takes the new ones.
    pub fn process_commodity(&mut self, commodity: &Commodity)
        requires
            old(self).wf(),
        ensures
            final(self).documents == old(self).documents,
            final(self).wf(),
            commodity_effect(*old(self), *commodity, *final(self)),
    {
        let precision = match commodity.meta.get_one(&"precision".to_owned()) {
            Some(v) => parse_i32(v.as_str()),
            None => None,
        };
        let rounding = match commodity.meta.get_one(&"rounding".to_owned()) {
            Some(v) => Rounding::from_text(v.as_str()),
            None => None,
        };
        let copied = Commodity {
            date: commodity.date,
            currency: commodity.currency.clone(),
            meta: commodity.meta.copy(),
        };
        match self.find_currency(&commodity.currency) {
            Some(i) => {
                let ghost before = self.currency_infos@;
                let mut info = self.currency_infos.remove(i);
                let ghost kept = info.prices;
                info.commodity = copied;
                info.precision = precision;
                info.rounding = rounding;
                self.currency_infos.insert(i, info);
                proof {
                    assert(self.currency_infos@ =~= before.update(i as int, info));
                    assert(info.prices == kept);
                    assert forall|j: int|
                        0 <= j < self.currencies@.len() && #[trigger] self.currencies@[j]@ == commodity.currency@ implies j == i by {
                        if j < i {
                            assert(self.currencies@[j]@ != self.currencies@[i as int]@);
                        } else if j > i {
                            assert(self.currencies@[i as int]@ != self.currencies@[j]@);
                        }
                    }
                    assert forall|c: Seq<char>| #[trigger] self.has_currency(c) == (old(self).has_currency(c) || c
                        == commodity.currency@) by {
                        if c == commodity.currency@ {
                            assert(self.currencies@[i as int]@ == c);
                        }
                    }
                }
            },
            None => {
                let info = CurrencyInfo { commodity: copied, precision, rounding, prices: LatestMap::new() };
                self.currencies.push(commodity.currency.clone());
                self.currency_infos.push(info);
                proof {
                    let n = self.currencies@.len() - 1;
                    assert(self.currencies@[n]@ == commodity.currency@);
                    assert forall|c: Seq<char>| #[trigger] self.has_currency(c) == (old(self).has_currency(c) || c
                        == commodity.currency@) by {
                        if old(self).has_currency(c) {
                            let k = choose|k: int| 0 <= k < old(self).currencies@.len() && #[trigger] old(self).currencies@[k]@ == c;
                            assert(self.currencies@[k] == old(self).currencies@[k]);
                        }
                        if self.has_currency(c) && c != commodity.currency@ {
                            let k = choose|k: int| 0 <= k < self.currencies@.len() && #[trigger] self.currencies@[k]@ == c;
                            assert(k < n);
                            assert(old(self).currencies@[k] == self.currencies@[k]);
                        }
                    }
                    assert forall|a: int, b: int| 0 <= a < b < self.currencies@.len() implies #[trigger] self.currencies@[a]@
                        != #[trigger] self.currencies@[b]@ by {
                        if b == n {
                            assert(old(self).currencies@[a] == self.currencies@[a]);
                        } else {
                            assert(old(self).currencies@[a] == self.currencies@[a]);
                            assert(old(self).currencies@[b] == self.currencies@[b]);
                        }
                    }
                    assert forall|j: int|
                        0 <= j < self.currencies@.len() && #[trigger] self.currencies@[j]@ == commodity.currency@ implies j == n by {
                        if j < n {
                            assert(old(self).currencies@[j] == self.currencies@[j]);
                        }
                    }
                }
            },
        }
    }

    /// Reports a price whose commodities are not declared.
    pub fn process_price(&mut self, price: &Price, span: &SpanInfo)
        requires
            old(self).wf(),
        ensures
            final(self).documents == old(self).documents,
            final(self).wf(),
            price_effect(*old(self), *price, *span, *final(self)),
    {
        self.check_commodity_define(span, &price.currency);
        self.check_commodity_define(span, &price.amount.currency);
        self.prices.insert(
            price.date.naive_datetime(),
            price.currency.clone(),
            price.amount.currency.clone(),
            price.amount.number.copy(),
        );
        proof {
            assert(self.errors@ =~= old(self).errors@ + (if old(self).has_currency(price.currency@) {
                Seq::empty()
            } else {
                seq![LedgerError { span: *span, error: LedgerErrorType::CommodityDoesNotDefine { commodity_name: price.currency } }]
            }) + (if old(self).has_currency(price.amount.currency@) {
                Seq::empty()
            } else {
                seq![LedgerError { span: *span, error: LedgerErrorType::CommodityDoesNotDefine { commodity_name: price.amount.currency } }]
            }));
        }
    }

    /// Reports a document of an account that does not exist or is closed.
    pub fn process_document(&mut self, document: &Document, span: &SpanInfo)
        requires
            old(self).wf(),
        ensures
            final(self).wf(),
            document_effect(*old(self), *document, *span, *final(self)),
    {
        self.check_account_existed(span, &document.account.content);
        self.check_account_closed(span, &document.account.content);
        proof {
            assert(self.errors@ =~= old(self).errors@ + (if old(self).has_account(document.account.content@) {
                Seq::empty()
            } else {
                seq![LedgerError { span: *span, error: LedgerErrorType::AccountDoesNotExist { account_name: document.account.content } }]
            }) + (if old(self).is_closed(document.account.content@) {
                seq![LedgerError { span: *span, error: LedgerErrorType::AccountClosed { account_name: document.account.content } }]
            } else {
                Seq::empty()
            }));
        }
        self.documents.push(DocumentType::AccountDocument {
            date: document.date,
            account: document.account.content.clone(),
            filename: document.filename.plain_string(),
        });
    }
}

/// The amounts that the first `k` postings of `ps` move into the account `a`, in order.
pub open spec fn posted(ps: Seq<crate::data::Posting>, k: int, a: Seq<char>) -> Seq<(Seq<char>, Decimal)>
    decreases k,
{
    if k <= 0 || k > ps.len() {
        Seq::empty()
    } else {
        let rest = posted(ps, k - 1, a);
        let p = ps[k - 1];
        if p.account.content@ == a && inferred_units(ps, p) is Some {
            rest.push(inferred_units(ps, p).unwrap())
        } else {
            rest
        }
    }
}

/// The total of a commodity in an account of the ledger; zero when the account has no
/// inventory.
pub open spec fn total_in(l: Ledger, a: Seq<char>, c: Seq<char>) -> Decimal {
    match l.inventory_of(a) {
        Some(inv) => inv.total(c),
        None => Decimal::from_parts(0, 0),
    }
}

/// The running sum of a commodity in an account: its total before, then what the postings
/// move in.
pub open spec fn running(l: Ledger, ps: Seq<crate::data::Posting>, k: int, a: Seq<char>, c: Seq<char>) -> Seq<Decimal> {
    seq![total_in(l, a, c)] + numbers_of(posted(ps, k, a), c)
}

/// The transaction balances: every posting has units, every running sum of a commodity fits,
/// and the units of each commodity sum to zero.
pub open spec fn txn_balanced(ps: Seq<crate::data::Posting>) -> bool {
    &&& forall|i: int| 0 <= i < ps.len() ==> #[trigger] all_units(ps)[i] is Some
    &&& forall|k: int, c: Seq<char>| 0 <= k <= ps.len() ==> sum_fits(#[trigger] numbers_of(unwrap_units(all_units(ps)).take(k), c))
    &&& balanced(unwrap_units(all_units(ps)))
}

proof fn lemma_single_sum(t: Decimal)
    ensures
        max_scale(seq![t]) == t.scl(),
        sum_at(seq![t], t.scl()) == t.mant(),
{
    let s = seq![t];
    assert(s.drop_last() =~= Seq::<Decimal>::empty());
    assert(s.last() == t);
    assert(max_scale(Seq::<Decimal>::empty()) == 0);
    assert(sum_at(Seq::<Decimal>::empty(), t.scl()) == 0);
    assert(crate::decimal::pow10(0) == 1);
    assert(t.at_scale(t.scl()) == t.mant() * crate::decimal::pow10(0)) by {
        assert((t.scl() - t.scl()) as nat == 0);
    }
    assert(t.mant() * 1 == t.mant());
}

/// The errors that the checks of one posting report, in the order they are made: an account
/// that does not exist, an account that is closed, then each commodity of its units, price
/// and cost that is not declared.
pub open spec fn posting_errors(l: Ledger, p: Posting, span: SpanInfo) -> Seq<LedgerError> {
    let name = p.account.content;
    let missing = if l.has_account(name@) {
        Seq::empty()
    } else {
        seq![LedgerError { span, error: LedgerErrorType::AccountDoesNotExist { account_name: name } }]
    };
    let closed = if l.is_closed(name@) {
        seq![LedgerError { span, error: LedgerErrorType::AccountClosed { account_name: name } }]
    } else {
        Seq::empty()
    };
    missing + closed + commodity_error(l, match p.units {
        Some(u) => Some(u.currency),
        None => None,
    }, span) + commodity_error(l, match p.price {
        Some(SingleTotalPrice::Single(a)) => Some(a.currency),
        Some(SingleTotalPrice::Total(a)) => Some(a.currency),
        None => None,
    }, span) + commodity_error(l, match p.cost {
        Some(c) => Some(c.currency),
        None => None,
    }, span)
}

/// The error that a commodity, when there is one, reports when it is not declared.
pub open spec fn commodity_error(l: Ledger, c: Option<String>, span: SpanInfo) -> Seq<LedgerError> {
    match c {
        Some(c) => if l.has_currency(c@) {
            Seq::empty()
        } else {
            seq![LedgerError { span, error: LedgerErrorType::CommodityDoesNotDefine { commodity_name: c } }]
        },
        None => Seq::empty(),
    }
}

/// The errors that the checks of the postings report, posting after posting.
pub open spec fn postings_errors(l: Ledger, ps: Seq<Posting>, span: SpanInfo) -> Seq<LedgerError>
    decreases ps.len(),
{
    if ps.len() == 0 {
        Seq::empty()
    } else {
        postings_errors(l, ps.drop_last(), span) + posting_errors(l, ps.last(), span)
    }
}

/// The errors of one more posting follow those of the postings before it; they depend only
/// on the accounts and commodities of the ledger.
pub proof fn lemma_postings_errors_step(l: Ledger, m: Ledger, ps: Seq<Posting>, i: int, span: SpanInfo)
    requires
        0 <= i < ps.len(),
        l.accounts == m.accounts,
        l.currencies == m.currencies,
    ensures
        postings_errors(l, ps.take(i + 1), span) == postings_errors(l, ps.take(i), span) + posting_errors(
            m,
            ps[i],
            span,
        ),
{
    assert(ps.take(i + 1).drop_last() =~= ps.take(i));
    assert(posting_errors(l, ps[i], span) == posting_errors(m, ps[i], span));
}


impl Ledger {
    /// Checks the account and the commodities of a posting, reporting each that is missing,
    /// closed or not declared.
    #[verifier::spinoff_prover]
    #[verifier::rlimit(50)]
    pub fn check_posting(&mut self, p: &Posting, span: &SpanInfo)
        requires
            old(self).wf(),
        ensures
            final(self).documents == old(self).documents,
            final(self).directives == old(self).directives,
            final(self).metas == old(self).metas,
            final(self).lots == old(self).lots,
            final(self).wf(),
            final(self).accounts == old(self).accounts,
            final(self).currencies == old(self).currencies,
            final(self).currency_infos == old(self).currency_infos,
            final(self).account_inventory == old(self).account_inventory,
            final(self).daily_inventory == old(self).daily_inventory,
            final(self).prices == old(self).prices,
            final(self).errors@ == old(self).errors@ + posting_errors(*old(self), *p, *span),
    {
        let ghost start = *self;
        self.check_account_existed(span, &p.account.content);
        self.check_account_closed(span, &p.account.content);
        match &p.units {
            Some(u) => self.check_commodity_define(span, &u.currency),
            None => {},
        }
        match &p.price {
            Some(SingleTotalPrice::Single(a)) => self.check_commodity_define(span, &a.currency),
            Some(SingleTotalPrice::Total(a)) => self.check_commodity_define(span, &a.currency),
            None => {},
        }
        match &p.cost {
            Some(c) => self.check_commodity_define(span, &c.currency),
            None => {},
        }
        proof {
            assert(self.errors@ =~= start.errors@ + posting_errors(start, *p, *span));
        }
    }
}

/// The entry `i` of the lot table holds the lots of commodity `c` of account `a`.
pub open spec fn has_lots(lots: Seq<(String, CommodityInventory)>, a: Seq<char>, c: Seq<char>, i: int) -> bool {
    0 <= i < lots.len() && lots[i].0@ == a && lots[i].1.commodity() == c
}

/// `after` is the lot table `before` once `number` of commodity `c` went into the lots of
/// account `a` by `lot_info`, `ok` telling whether it fitted: into the entry of that account
/// and commodity, or into a new one at the end (see `Ledger::lot_add`).
pub open spec fn lot_added_to(
    before: Seq<(String, CommodityInventory)>,
    a: Seq<char>,
    c: Seq<char>,
    number: Decimal,
    lot_info: LotInfo,
    after: Seq<(String, CommodityInventory)>,
    ok: bool,
) -> bool {
    if exists|i: int| #[trigger] has_lots(before, a, c, i) {
        let i = choose|i: int| #[trigger] has_lots(before, a, c, i);
        &&& after.len() == before.len()
        &&& forall|j: int| 0 <= j < before.len() && j != i ==> #[trigger] after[j] == before[j]
        &&& after[i].0 == before[i].0
        &&& inserted(before[i].1, number, lot_info, after[i].1, ok)
    } else {
        &&& after.len() == before.len() + 1
        &&& forall|j: int| 0 <= j < before.len() ==> #[trigger] after[j] == before[j]
        &&& after[before.len() as int].0@ == a
        &&& exists|f: CommodityInventory| #[trigger] fresh_inventory(f, c) && inserted(f, number, lot_info, after[before.len() as int].1, ok)
    }
}

impl Ledger {
    /// Adds an amount to the lots of an account by `lot_info` (see
    /// `CommodityInventory::insert`), opening the lots of its commodity when the account has
    /// none; gives whether it fitted.
    pub fn lot_add(&mut self, account: &String, amount: &Amount, lot_info: LotInfo) -> (ok: bool)
        requires
            old(self).wf(),
        ensures
            final(self).documents == old(self).documents,
            final(self).wf(),
            lot_added_to(old(self).lots@, account@, amount.currency@, amount.number, lot_info, final(self).lots@, ok),
            final(self).accounts == old(self).accounts,
            final(self).currencies == old(self).currencies,
            final(self).currency_infos == old(self).currency_infos,
            final(self).account_inventory == old(self).account_inventory,
            final(self).errors == old(self).errors,
            final(self).directives == old(self).directives,
            final(self).metas == old(self).metas,
            final(self).daily_inventory == old(self).daily_inventory,
            final(self).prices == old(self).prices,
    {
        let ghost a = account@;
        let ghost c = amount.currency@;
        match self.find_lots(account, &amount.currency) {
            Some(i) => {
                let ghost before = self.lots@;
                proof {
                    assert(has_lots(before, a, c, i as int));
                    let k = choose|k: int| #[trigger] has_lots(before, a, c, k);
                    if k != i {
                        if k < i {
                            assert(!(before[k].0@ == before[i as int].0@ && before[k].1.commodity() == before[i as int].1.commodity()));
                        } else {
                            assert(!(before[i as int].0@ == before[k].0@ && before[i as int].1.commodity() == before[k].1.commodity()));
                        }
                    }
                }
                let mut entry = self.lots.remove(i);
                let ok = entry.1.insert(&amount.number, lot_info);
                self.lots.insert(i, entry);
                proof {
                    assert(self.lots@ =~= before.update(i as int, entry));
                    assert forall|x: int| 0 <= x < self.lots@.len() implies (#[trigger] self.lots@[x]).1.wf() by {
                        if x != i {
                            assert(self.lots@[x] == before[x]);
                        }
                    }
                    assert forall|x: int, y: int| 0 <= x < y < self.lots@.len() implies !(#[trigger] self.lots@[x].0@
                        == #[trigger] self.lots@[y].0@ && self.lots@[x].1.commodity() == self.lots@[y].1.commodity()) by {
                        assert(self.lots@[x].0 == before[x].0 && self.lots@[x].1.commodity() == before[x].1.commodity());
                        assert(self.lots@[y].0 == before[y].0 && self.lots@[y].1.commodity() == before[y].1.commodity());
                    }
                }
                return ok;
            },
            None => {},
        }
        let ghost before = self.lots@;
        let mut inv = CommodityInventory::new(amount.currency.as_str());
        let ghost fresh = inv;
        let ok = inv.insert(&amount.number, lot_info);
        self.lots.push((account.clone(), inv));
        proof {
            assert(fresh_inventory(fresh, c));
            let n = before.len() as int;
            assert(self.lots@[n].1 == inv);
            assert forall|x: int| 0 <= x < self.lots@.len() implies (#[trigger] self.lots@[x]).1.wf() by {
                if x < n {
                    assert(self.lots@[x] == before[x]);
                }
            }
            assert forall|x: int, y: int| 0 <= x < y < self.lots@.len() implies !(#[trigger] self.lots@[x].0@
                == #[trigger] self.lots@[y].0@ && self.lots@[x].1.commodity() == self.lots@[y].1.commodity()) by {
                if y == n {
                    assert(!has_lots(before, a, c, x));
                    assert(self.lots@[x] == before[x]);
                }
            }
            assert(!exists|k: int| #[trigger] has_lots(before, a, c, k));
        }
        ok
    }

    /// Where the lots of the commodity of the account stand in the lot table.
    pub fn find_lots(&self, account: &String, currency: &String) -> (r: Option<usize>)
        ensures
            match r {
                Some(i) => has_lots(self.lots@, account@, currency@, i as int),
                None => forall|j: int| !#[trigger] has_lots(self.lots@, account@, currency@, j),
            },
    {
        let mut i: usize = 0;
        while i < self.lots.len()
            invariant
                i <= self.lots@.len(),
                forall|j: int| 0 <= j < i ==> !#[trigger] has_lots(self.lots@, account@, currency@, j),
            decreases self.lots@.len() - i,
        {
            if self.lots[i].0 == *account && *self.lots[i].1.currency() == *currency {
                return Some(i);
            }
            i = i + 1;
        }
        None
    }
}

/// What the posting `k` of the postings `ps` does to the lot table `before`: its units go into
/// the lots of its account, first in first out (see `Ledger::lot_add`); a posting without
/// units changes nothing.
pub open spec fn posting_lot_step(
    before: Seq<(String, CommodityInventory)>,
    ps: Seq<Posting>,
    k: int,
    after: Seq<(String, CommodityInventory)>,
    ok: bool,
) -> bool {
    match all_units(ps)[k] {
        Some(u) => lot_added_to(before, ps[k].account.content@, u.0, u.1, LotInfo::Fifo, after, ok),
        None => after == before,
    }
}

/// The lot tables `chain` lead from `before` to `after` through the postings `ps`, one
/// posting after the other.
pub open spec fn lot_chain(
    before: Seq<(String, CommodityInventory)>,
    ps: Seq<Posting>,
    chain: Seq<Seq<(String, CommodityInventory)>>,
    oks: Seq<bool>,
    after: Seq<(String, CommodityInventory)>,
) -> bool {
    &&& chain.len() == ps.len() + 1
    &&& oks.len() == ps.len()
    &&& chain[0] == before
    &&& chain[ps.len() as int] == after
    &&& forall|k: int| 0 <= k < ps.len() ==> #[trigger] posting_lot_step(chain[k], ps, k, chain[k + 1], oks[k])
}

/// `after` is the lot table `before` once the units of every posting of `ps` went into the
/// lots of its account, in order.
pub open spec fn posting_lots(
    before: Seq<(String, CommodityInventory)>,
    ps: Seq<Posting>,
    after: Seq<(String, CommodityInventory)>,
) -> bool {
    exists|chain: Seq<Seq<(String, CommodityInventory)>>, oks: Seq<bool>| #[trigger] lot_chain(before, ps, chain, oks, after)
}

impl Ledger {
    /// Puts the units of each posting of the transaction into the lots of its account, first
    /// in first out.
    pub fn record_posting_lots(&mut self, trx: &Transaction)
        requires
            old(self).wf(),
            can_infer(trx.postings@),
        ensures
            final(self).documents == old(self).documents,
            final(self).wf(),
            posting_lots(old(self).lots@, trx.postings@, final(self).lots@),
            final(self).accounts == old(self).accounts,
            final(self).currencies == old(self).currencies,
            final(self).currency_infos == old(self).currency_infos,
            final(self).account_inventory == old(self).account_inventory,
            final(self).errors == old(self).errors,
            final(self).directives == old(self).directives,
            final(self).metas == old(self).metas,
            final(self).daily_inventory == old(self).daily_inventory,
            final(self).prices == old(self).prices,
    {
        let ghost ps = trx.postings@;
        let ghost mut chain: Seq<Seq<(String, CommodityInventory)>> = seq![self.lots@];
        let ghost mut oks: Seq<bool> = Seq::empty();
        let mut i: usize = 0;
        while i < trx.postings.len()
            invariant
                ps == trx.postings@,
                can_infer(ps),
                i <= ps.len(),
                self.wf(),
                chain.len() == i + 1,
                oks.len() == i,
                chain[0] == old(self).lots@,
                chain[i as int] == self.lots@,
                forall|k: int| 0 <= k < i ==> #[trigger] posting_lot_step(chain[k], ps, k, chain[k + 1], oks[k]),
                self.accounts == old(self).accounts,
                self.currencies == old(self).currencies,
                self.currency_infos == old(self).currency_infos,
                self.account_inventory == old(self).account_inventory,
                self.errors == old(self).errors,
                self.directives == old(self).directives,
                self.metas == old(self).metas,
                self.daily_inventory == old(self).daily_inventory,
                self.documents == old(self).documents,
                self.prices == old(self).prices,
            decreases ps.len() - i,
        {
            let p = &trx.postings[i];
            let tp = TxnPosting { txn: trx, posting: p };
            proof {
                if p.units is None {
                    assert(ps[i as int].units is None);
                }
            }
            let ghost before = self.lots@;
            let ghost mut ok_now = true;
            match tp.units() {
                Some(u) => {
                    let ok = self.lot_add(&p.account.content, &u, LotInfo::Fifo);
                    proof {
                        ok_now = ok;
                    }
                },
                None => {},
            }
            proof {
                assert(all_units(ps)[i as int] == inferred_units(ps, ps[i as int]));
                assert(posting_lot_step(before, ps, i as int, self.lots@, ok_now));
                chain = chain.push(self.lots@);
                oks = oks.push(ok_now);
                assert forall|k: int| 0 <= k < i + 1 implies #[trigger] posting_lot_step(chain[k], ps, k, chain[k + 1], oks[k]) by {
                    if k < i {
                        assert(chain[k] == chain.drop_last()[k]);
                    }
                }
            }
            i = i + 1;
        }
        proof {
            assert(lot_chain(old(self).lots@, ps, chain, oks, self.lots@));
        }
    }
}

/// The documents that the transaction names under the metadata key `document`, in order.
pub open spec fn transaction_documents(t: Transaction) -> Seq<DocumentType> {
    let names = if t.meta@.dom().contains("document"@) {
        t.meta@["document"@]
    } else {
        Seq::empty()
    };
    names.map_values(|z: ZhangString| DocumentType::TransactionDocument { date: t.date, filename: z.plain() })
}

impl Ledger {
    /// Records the documents that the transaction names.
    pub fn record_transaction_documents(&mut self, trx: &Transaction)
        requires
            old(self).wf(),
        ensures
            final(self).wf(),
            final(self).documents@ == old(self).documents@ + transaction_documents(*trx),
            final(self).lots == old(self).lots,
            final(self).accounts == old(self).accounts,
            final(self).currencies == old(self).currencies,
            final(self).currency_infos == old(self).currency_infos,
            final(self).account_inventory == old(self).account_inventory,
            final(self).errors == old(self).errors,
            final(self).directives == old(self).directives,
            final(self).metas == old(self).metas,
            final(self).daily_inventory == old(self).daily_inventory,
            final(self).prices == old(self).prices,
    {
        let key = "document".to_owned();
        let names = trx.meta.get_all(&key);
        let ghost want = transaction_documents(*trx);
        let ghost start = self.documents@;
        proof {
            assert(key.key_view() == "document"@);
        }
        let mut i: usize = 0;
        while i < names.len()
            invariant
                i <= names@.len(),
                want.len() == names@.len(),
                forall|k: int| 0 <= k < names@.len() ==> #[trigger] want[k] == (DocumentType::TransactionDocument {
                    date: trx.date,
                    filename: names@[k].plain(),
                }),
                self.documents@ == start + want.take(i as int),
                self.wf(),
                self.lots == old(self).lots,
                self.accounts == old(self).accounts,
                self.currencies == old(self).currencies,
                self.currency_infos == old(self).currency_infos,
                self.account_inventory == old(self).account_inventory,
                self.errors == old(self).errors,
                self.directives == old(self).directives,
                self.metas == old(self).metas,
                self.daily_inventory == old(self).daily_inventory,
                self.prices == old(self).prices,
                start == old(self).documents@,
            decreases names@.len() - i,
        {
            self.documents.push(DocumentType::TransactionDocument { date: trx.date, filename: names[i].plain_string() });
            proof {
                assert(want.take(i + 1) =~= want.take(i as int).push(want[i as int]));
            }
            i = i + 1;
        }
        proof {
            assert(want.take(names@.len() as int) =~= want);
        }
    }
}

/// The ledgers agree on their daily inventories, prices, directives, metas, lots and
/// documents.
#[verifier::opaque]
pub open spec fn same_records(a: Ledger, b: Ledger) -> bool {
    &&& a.daily_inventory == b.daily_inventory
    &&& a.prices == b.prices
    &&& a.directives == b.directives
    &&& a.metas == b.metas
    &&& a.lots == b.lots
    &&& a.documents == b.documents
}

/// What processing the transaction `t` does to the ledger `l`, giving `l2` (see
/// `Ledger::process_transaction`).
pub open spec fn transaction_effect(l: Ledger, t: Transaction, span: SpanInfo, l2: Ledger) -> bool {
    &&& l2.daily_inventory == l.daily_inventory
    &&& l2.prices == l.prices
    &&& l2.directives == l.directives
    &&& l2.metas == l.metas
    &&& l2.accounts == l.accounts
    &&& l2.currencies == l.currencies
    &&& l2.currency_infos == l.currency_infos
    &&& l.errors@.len() <= l2.errors@.len()
    &&& forall|k: int| 0 <= k < l.errors@.len() ==> #[trigger] l2.errors@[k] == l.errors@[k]
    &&& l2.errors@ == (if balanced(unwrap_units(all_units(t.postings@))) {
        l.errors@
    } else {
        l.errors@.push(LedgerError { span: span, error: LedgerErrorType::TransactionDoesNotBalance })
    }) + postings_errors(l, t.postings@, span)
    &&& forall|a: Seq<char>, c: Seq<char>|
        #![trigger total_in(l2, a, c)]
        {
            let run = running(l, t.postings@, t.postings@.len() as int, a, c);
            &&& total_in(l2, a, c).scl() == max_scale(run)
            &&& total_in(l2, a, c).mant() == sum_at(run, max_scale(run))
        }
    &&& posting_lots(l.lots@, t.postings@, l2.lots@)
    &&& l2.documents@ == l.documents@ + transaction_documents(t)
}

impl Ledger {
    /// Processes a transaction: reports it when it does not balance, reports each posting's
    /// account when it does not exist or is closed and each commodity of its units, price and
    /// cost that is not declared, and adds the units of each posting to its account.
    #[verifier::spinoff_prover]
    #[verifier::rlimit(100)]
    pub fn process_transaction(&mut self, trx: &Transaction, span: &SpanInfo)
        requires
            old(self).wf(),
            can_infer(trx.postings@),
        ensures
            final(self).wf(),
            transaction_effect(*old(self), *trx, *span, *final(self)),
    {
        let ghost ps = trx.postings@;
        let ghost start = *self;
        let ghost bal = balanced(unwrap_units(all_units(ps)));
        if !trx.is_balance() {
            self.errors.push(LedgerError { span: span.copy(), error: LedgerErrorType::TransactionDoesNotBalance });
        }
        proof {
            assert(self.errors@ == if bal {
                start.errors@
            } else {
                start.errors@.push(LedgerError { span: *span, error: LedgerErrorType::TransactionDoesNotBalance })
            });
            assert(self.account_inventory == start.account_inventory);
            assert forall|a: Seq<char>, c: Seq<char>| #![trigger total_in(*self, a, c)]
                sum_fits(running(start, ps, 0, a, c)) implies ({
                    let run = running(start, ps, 0, a, c);
                    &&& total_in(*self, a, c).scl() == max_scale(run)
                    &&& total_in(*self, a, c).mant() == sum_at(run, max_scale(run))
                }) by {
                assert(posted(ps, 0, a) =~= Seq::empty());
                assert(numbers_of(Seq::<(Seq<char>, Decimal)>::empty(), c) =~= Seq::<Decimal>::empty());
                assert(running(start, ps, 0, a, c) =~= seq![total_in(start, a, c)]);
                assert(total_in(*self, a, c) == total_in(start, a, c));
                lemma_single_sum(total_in(start, a, c));
            }
        }
        let ghost checked = self.errors@;
        proof {
            assert(ps.take(0) =~= Seq::<Posting>::empty());
            assert(checked =~= checked + postings_errors(start, ps.take(0), *span));
        }
        proof {
            reveal(same_records);
        }
        let mut i: usize = 0;
        while i < trx.postings.len()
            invariant
                ps == trx.postings@,
                can_infer(ps),
                i <= ps.len(),
                self.wf(),
                self.accounts == start.accounts,
                self.currencies == start.currencies,
                self.currency_infos == start.currency_infos,
                same_records(start, *self),
                checked.len() <= self.errors@.len(),
                forall|k: int| 0 <= k < checked.len() ==> #[trigger] self.errors@[k] == checked[k],
                forall|k: int| checked.len() <= k < self.errors@.len() ==> !(#[trigger] self.errors@[k].error is TransactionDoesNotBalance),
                self.errors@ == checked + postings_errors(start, ps.take(i as int), *span),
                checked == start.errors@ || checked == start.errors@.push(
                    LedgerError { span: *span, error: LedgerErrorType::TransactionDoesNotBalance },
                ),
                checked == if bal {
                    start.errors@
                } else {
                    start.errors@.push(LedgerError { span: *span, error: LedgerErrorType::TransactionDoesNotBalance })
                },
                forall|a: Seq<char>, c: Seq<char>|
                    #![trigger total_in(*self, a, c)]
                    sum_fits(running(start, ps, i as int, a, c)) ==> {
                        let run = running(start, ps, i as int, a, c);
                        &&& total_in(*self, a, c).scl() == max_scale(run)
                        &&& total_in(*self, a, c).mant() == sum_at(run, max_scale(run))
                    },
            decreases ps.len() - i,
        {
            let ghost head = *self;
            let p = &trx.postings[i];
            self.check_posting(p, span);
            proof {
                lemma_postings_errors_step(start, head, ps, i as int, *span);
                assert(self.errors@ =~= checked + postings_errors(start, ps.take(i + 1), *span));
            }
            let tp = TxnPosting { txn: trx, posting: p };
            proof {
                if p.units is None {
                    assert(ps[i as int].units is None);
                }
            }
            let ghost before = *self;
            proof {
                assert(before.account_inventory == head.account_inventory);
            }
            match tp.units() {
                Some(u) => {
                    let ok = self.add_to_account(&p.account.content, &u);
                    proof {
                        let a0 = p.account.content@;
                        let c0 = u.currency@;
                        assert forall|a: Seq<char>, c: Seq<char>| #![trigger total_in(*self, a, c)]
                            sum_fits(running(start, ps, i + 1, a, c)) implies ({
                                let run = running(start, ps, i + 1, a, c);
                                &&& total_in(*self, a, c).scl() == max_scale(run)
                                &&& total_in(*self, a, c).mant() == sum_at(run, max_scale(run))
                            }) by {
                            let pre = running(start, ps, i as int, a, c);
                            assert(total_in(before, a, c) == total_in(head, a, c));
                            if sum_fits(pre) {
                                assert(total_in(head, a, c).scl() == max_scale(pre));
                            }
                            if a == a0 {
                                assert(posted(ps, i + 1, a) == posted(ps, i as int, a).push((c0, u.number)));
                                if c == c0 {
                                    assert(numbers_of(posted(ps, i + 1, a), c) == numbers_of(posted(ps, i as int, a), c).push(u.number)) by {
                                        assert(posted(ps, i as int, a).push((c0, u.number)).drop_last() =~= posted(ps, i as int, a));
                                    }
                                    assert(running(start, ps, i + 1, a, c) =~= pre.push(u.number));
                                    assert(pre.push(u.number).drop_last() =~= pre);
                                    assert(sum_fits(pre));
                                    assert(total_in(head, a, c).mant() == sum_at(pre, max_scale(pre)));
                                    assert(total_in(before, a, c) == total_in(before, a0, c0));
                                    crate::decimal::lemma_sum_push(pre, total_in(before, a, c), u.number);
                                } else {
                                    assert(numbers_of(posted(ps, i + 1, a), c) == numbers_of(posted(ps, i as int, a), c)) by {
                                        assert(posted(ps, i as int, a).push((c0, u.number)).drop_last() =~= posted(ps, i as int, a));
                                    }
                                    assert(running(start, ps, i + 1, a, c) =~= pre);
                                    assert(total_in(*self, a, c) == total_in(before, a, c));
                                }
                            } else {
                                assert(posted(ps, i + 1, a) == posted(ps, i as int, a));
                                assert(running(start, ps, i + 1, a, c) =~= pre);
                                assert(self.inventory_of(a) == before.inventory_of(a));
                            }
                        }
                    }
                },
                None => {
                    proof {
                        assert forall|a: Seq<char>, c: Seq<char>| #![trigger total_in(*self, a, c)]
                            sum_fits(running(start, ps, i + 1, a, c)) implies ({
                                let run = running(start, ps, i + 1, a, c);
                                &&& total_in(*self, a, c).scl() == max_scale(run)
                                &&& total_in(*self, a, c).mant() == sum_at(run, max_scale(run))
                            }) by {
                            assert(posted(ps, i + 1, a) == posted(ps, i as int, a));
                            assert(running(start, ps, i + 1, a, c) =~= running(start, ps, i as int, a, c));
                            assert(total_in(*self, a, c) == total_in(head, a, c));
                        }
                    }
                },
            }
            proof {
                reveal(same_records);
                assert(same_records(start, *self));
            }
            i = i + 1;
        }
        proof {
            reveal(same_records);
        }
        proof {
            if txn_balanced(ps) {
                assert(all_units(ps).len() == ps.len());
            }
            assert(ps.take(ps.len() as int) =~= ps);
        }
        let ghost mid = *self;
        self.record_posting_lots(trx);
        self.record_transaction_documents(trx);
        proof {
            assert forall|a: Seq<char>, c: Seq<char>| #[trigger] total_in(*self, a, c) == total_in(mid, a, c) by {
                assert(self.inventory_of(a) == mid.inventory_of(a));
            }
            assert forall|a: Seq<char>, c: Seq<char>|
                #![trigger total_in(*self, a, c)]
                {
                    let run = running(start, ps, ps.len() as int, a, c);
                    &&& total_in(*self, a, c).scl() == max_scale(run)
                    &&& total_in(*self, a, c).mant() == sum_at(run, max_scale(run))
                } by {
                crate::decimal::lemma_sum_fits(running(start, ps, ps.len() as int, a, c));
                assert(total_in(*self, a, c) == total_in(mid, a, c));
            }
        }
    }
}

/// What checking the balance `bc` does to the ledger `l`, giving `l2`, the check `bc2` and
/// `ok` (see `Ledger::process_balance_check`).
pub open spec fn balance_check_effect(l: Ledger, bc: BalanceCheck, span: SpanInfo, l2: Ledger, bc2: BalanceCheck, ok: bool) -> bool {
    &&& ok
    &&& l2.daily_inventory == l.daily_inventory
    &&& l2.prices == l.prices
    &&& l2.directives == l.directives
    &&& l2.metas == l.metas
    &&& l2.accounts == l.accounts
    &&& l2.currencies == l.currencies
    &&& l2.currency_infos == l.currency_infos
    &&& bc2.date == bc.date
    &&& bc2.account == bc.account
    &&& bc2.amount == bc.amount
    &&& ({
        let cur = total_in(l, bc.account.content@, bc.amount.currency@);
        &&& bc2.current_amount is Some
        &&& bc2.current_amount.unwrap().number == cur
        &&& bc2.current_amount.unwrap().currency@ == bc.amount.currency@
        &&& ok && cur.same_value(bc.amount.number) ==> bc2.distance == bc.distance
            && l2.account_inventory == l.account_inventory
        &&& ok ==> total_in(l2, bc.account.content@, bc.amount.currency@).same_value(
            bc.amount.number,
        )
        &&& ok && !cur.same_value(bc.amount.number) ==> bc2.distance is Some
            && l2.errors@.last().error is AccountBalanceCheckError
    })
    &&& ({
        let a = bc.account.content;
        let c = bc.amount.currency;
        let n = bc.amount.number;
        let cur = total_in(l, a@, c@);
        let checked = l.errors@ + missing_error(l, a, span) + closed_error(l, a, span);
        &&& ok == (cur.same_value(n) || sum_fits_at(n, cur, -1))
        &&& (!ok || cur.same_value(n)) ==> l2.errors@ == checked && bc2.distance == bc.distance && l2.account_inventory == l.account_inventory && l2.lots == l.lots
        &&& ok && !cur.same_value(n) ==> exists|lot_ok: bool|
            lot_added_to(l.lots@, a@, c@, bc2.distance.unwrap().number, LotInfo::Fifo, l2.lots@, lot_ok)
        &&& ok && !cur.same_value(n) ==> (bc2.distance matches Some(d) && d.currency == c && is_sum_of(
            d.number,
            n,
            cur,
            -1,
        ) && l2.errors@ == checked.push(
            LedgerError {
                span: span,
                error: LedgerErrorType::AccountBalanceCheckError {
                    account_name: a,
                    target: bc.amount,
                    current: Amount { number: cur, currency: c },
                    distance: d,
                },
            },
        ))
        &&& forall|x: Seq<char>, y: Seq<char>|
            !(x == a@ && y == c@) ==> #[trigger] total_in(l2, x, y) == total_in(l, x, y)
    })
    &&& l.errors@.len() <= l2.errors@.len()
    &&& forall|k: int| 0 <= k < l.errors@.len() ==> #[trigger] l2.errors@[k] == l.errors@[k]
}

impl Ledger {
    /// Checks the balance of an account: reports the account when it does not exist or is
    /// closed, records the current amount, and when it differs from the asserted one reports
    /// the difference, records it, and adds it to the account so that the account then holds
    /// the asserted amount. Gives `true`.
    pub fn process_balance_check(&mut self, check: &mut BalanceCheck, span: &SpanInfo) -> (ok: bool)
        requires
            old(self).wf(),
        ensures
            final(self).wf(),
            balance_check_effect(*old(self), *old(check), *span, *final(self), *final(check), ok),
            ok,
    {
        let name = check.account.content.clone();
        let currency = check.amount.currency.clone();
        self.check_account_existed(span, &name);
        self.check_account_closed(span, &name);
        proof {
            assert(self.errors@ =~= old(self).errors@ + missing_error(*old(self), check.account.content, *span)
                + closed_error(*old(self), check.account.content, *span));
        }
        let current = self.account_total(&name, &currency);
        proof {
            assert(self.account_inventory == old(self).account_inventory);
            assert(total_in(*self, name@, currency@) == total_in(*old(self), name@, currency@));
            crate::decimal::lemma_from_parts(0, 0);
            crate::decimal::lemma_decimal_parts(current, total_in(*self, name@, currency@));
        }
        check.current_amount = Some(Amount { number: current.copy(), currency: currency.clone() });
        if current.eq_value(&check.amount.number) {
            proof {
                lemma_same_value_symmetric(current, check.amount.number);
            }
            return true;
        }
        let distance = match check.amount.number.checked_sub(&current) {
            Some(d) => d,
            None => return false,
        };
        let distance_amount = Amount { number: distance, currency: currency.clone() };
        let ghost before = *self;
        proof {
            assert(total_in(before, name@, currency@) == current);
            lemma_difference_adds_back(check.amount.number, current, distance);
        }
        let ok = self.add_to_account(&name, &distance_amount);
        if !ok {
            return false;
        }
        proof {
            assert(total_in(before, name@, currency@) == current);
            crate::decimal::lemma_add_difference(current, check.amount.number, distance, total_in(*self, name@, currency@));
        }
        let ghost added = *self;
        self.errors.push(
            LedgerError {
                span: span.copy(),
                error: LedgerErrorType::AccountBalanceCheckError {
                    account_name: name.clone(),
                    target: check.amount.copy(),
                    current: Amount { number: current, currency: currency.clone() },
                    distance: distance_amount.copy(),
                },
            },
        );
        let ghost pushed = *self;
        let _ = self.lot_add(&name, &distance_amount, LotInfo::Fifo);
        check.distance = Some(distance_amount);
        proof {
            assert(self.errors == pushed.errors);
            assert(self.account_inventory == added.account_inventory);
            assert(total_in(*self, name@, currency@) == total_in(added, name@, currency@));
            assert(self.errors@ == added.errors@.push(
                LedgerError {
                    span: *span,
                    error: LedgerErrorType::AccountBalanceCheckError {
                        account_name: old(check).account.content,
                        target: old(check).amount,
                        current: Amount { number: current, currency: old(check).amount.currency },
                        distance: distance_amount,
                    },
                },
            ));
            assert forall|x: Seq<char>, y: Seq<char>| !(x == name@ && y == currency@) implies #[trigger] total_in(*self, x, y)
                == total_in(*old(self), x, y) by {
                assert(total_in(*self, x, y) == total_in(added, x, y));
                assert(total_in(before, x, y) == total_in(*old(self), x, y));
                if x == name@ {
                    assert(added.inventory_of(x).unwrap().total(y) == total_in(before, x, y));
                } else {
                    assert(added.inventory_of(x) == before.inventory_of(x));
                }
            }
        }
        true
    }
}

/// A difference that fits, added back to what was taken, fits and gives the first number.
proof fn lemma_difference_adds_back(n: Decimal, cur: Decimal, d: Decimal)
    requires
        ({
            let s = if n.scl() >= cur.scl() { n.scl() } else { cur.scl() };
            d.scl() == s && d.mant() == n.at_scale(s) - cur.at_scale(s) && crate::decimal::fits_mantissa(
                n.at_scale(s),
            ) && crate::decimal::fits_mantissa(cur.at_scale(s)) && crate::decimal::fits_mantissa(d.mant())
        }),
    ensures
        ({
            let s = if cur.scl() >= d.scl() { cur.scl() } else { d.scl() };
            &&& crate::decimal::fits_mantissa(cur.at_scale(s))
            &&& crate::decimal::fits_mantissa(d.at_scale(s))
            &&& crate::decimal::fits_mantissa(cur.at_scale(s) + d.at_scale(s))
        }),
{
    assert(crate::decimal::pow10(0) == 1);
    assert(d.at_scale(d.scl()) == d.mant()) by {
        assert((d.scl() - d.scl()) as nat == 0);
    }
}

/// The pad account of a pad transaction takes the opposite of the difference.
proof fn lemma_pad_side(
    before: Ledger,
    after: Ledger,
    ps: Seq<crate::data::Posting>,
    a: Seq<char>,
    p: Seq<char>,
    c: Seq<char>,
    d: Decimal,
)
    requires
        a != p,
        ps.len() == 2,
        ps[0].account.content@ == a,
        ps[0].units == Some(Amount { number: d, currency: ps[0].units.unwrap().currency }),
        ps[0].units.unwrap().currency@ == c,
        ps[0].cost is None,
        ps[1].account.content@ == p,
        ps[1].units is None,
        crate::decimal::fits_mantissa(d.mant()),
        forall|x: Seq<char>, y: Seq<char>|
            #![trigger total_in(after, x, y)]
            sum_fits(running(before, ps, ps.len() as int, x, y)) ==> {
                let run = running(before, ps, ps.len() as int, x, y);
                &&& total_in(after, x, y).scl() == max_scale(run)
                &&& total_in(after, x, y).mant() == sum_at(run, max_scale(run))
            },
    ensures
        sum_fits(seq![total_in(before, p, c), neg_decimal(d)]) ==> is_sum_of(total_in(after, p, c), total_in(before, p, c), d, -1),
{
    let pcur = total_in(before, p, c);
    let nd = neg_decimal(d);
    crate::decimal::lemma_scale_bound(d);
    crate::decimal::lemma_from_parts(-d.mant(), d.scl());
    let ws = crate::inventory::explicit_weights(ps);
    let p1 = ps.drop_last();
    assert(p1 =~= seq![ps[0]]);
    assert(p1.last() == ps[0]);
    assert(p1.drop_last() =~= Seq::<crate::data::Posting>::empty());
    assert(crate::inventory::explicit_weights(Seq::<crate::data::Posting>::empty()) =~= Seq::<Amount>::empty());
    assert(crate::inventory::explicit_weights(p1) =~= seq![ps[0].units.unwrap()]);
    assert(ws == crate::inventory::explicit_weights(p1));
    assert(ws =~= seq![ps[0].units.unwrap()]);
    let ns = crate::inventory::amount_numbers(ws);
    assert(ns =~= seq![d]);
    assert(seq![d].drop_last() =~= Seq::<Decimal>::empty());
    lemma_single_sum(d);
    assert(d.at_scale(d.scl()) == d.mant()) by {
        assert((d.scl() - d.scl()) as nat == 0);
        assert(crate::decimal::pow10(0) == 1);
    }
    assert(max_scale(seq![d]) == d.scl());
    assert(sum_at(Seq::<Decimal>::empty(), d.scl()) == 0);
    assert(sum_fits(Seq::<Decimal>::empty()));
    assert(sum_fits(ns));
    assert(crate::inventory::one_currency(ws));
    assert(inferred_units(ps, ps[1]) == Some((c, nd)));
    assert(posted(ps, 0, p) =~= Seq::empty());
    assert(posted(ps, 1, p) =~= Seq::empty());
    assert(posted(ps, 2, p) =~= seq![(c, nd)]);
    assert(seq![(c, nd)].drop_last() =~= Seq::<(Seq<char>, Decimal)>::empty());
    assert(numbers_of(Seq::<(Seq<char>, Decimal)>::empty(), c) =~= Seq::<Decimal>::empty());
    assert(numbers_of(seq![(c, nd)], c) =~= seq![nd]);
    let run = seq![pcur, nd];
    assert(running(before, ps, 2, p, c) =~= run);
    if sum_fits(run) {
        assert(run.drop_last() =~= seq![pcur]);
        assert(seq![pcur].drop_last() =~= Seq::<Decimal>::empty());
        lemma_single_sum(pcur);
        let s = max_scale(run);
        assert(nd.scl() == d.scl());
        assert(s == if pcur.scl() >= d.scl() { pcur.scl() } else { d.scl() });
        let q = crate::decimal::pow10((s - d.scl()) as nat);
        assert(nd.at_scale(s) == -d.at_scale(s)) by (nonlinear_arith)
            requires
                nd.at_scale(s) == nd.mant() * q,
                d.at_scale(s) == d.mant() * q,
                nd.mant() == -d.mant(),
        ;
        assert(sum_at(Seq::<Decimal>::empty(), s) == 0);
        assert(sum_at(seq![pcur], s) == pcur.at_scale(s));
        assert(sum_at(run, s) == pcur.at_scale(s) + nd.at_scale(s));
    }
}

proof fn lemma_same_value_symmetric(a: Decimal, b: Decimal)
    requires
        a.same_value(b),
    ensures
        b.same_value(a),
{
}

/// `ps` are the postings of the transaction that moves `distance` of the commodity of `pad`
/// from its pad account to its account: the account gets the units, the pad account what
/// balances them.
pub open spec fn pad_postings(ps: Seq<Posting>, pad: BalancePad, distance: Decimal) -> bool {
    &&& ps.len() == 2
    &&& ps[0].account.content == pad.account.content
    &&& ps[0].units == Some(Amount { number: distance, currency: pad.amount.currency })
    &&& ps[0].cost is None
    &&& ps[0].price is None
    &&& ps[1].account.content == pad.pad.content
    &&& ps[1].units is None
    &&& ps[1].cost is None
    &&& ps[1].price is None
}

/// The transaction that moves `distance` of a commodity from the pad account to the account.
pub fn pad_transaction(pad: &BalancePad, distance: Decimal) -> (r: Transaction)
    ensures
        r.date == pad.date,
        r.flag == Some(Flag::BalancePad),
        r.postings@.len() == 2,
        r.postings@[0].account.content == pad.account.content,
        r.postings@[0].units == Some(Amount { number: distance, currency: pad.amount.currency }),
        r.postings@[0].cost is None,
        r.postings@[1].account.content == pad.pad.content,
        r.postings@[1].units is None,
        r.tags@.len() == 0,
        r.links@.len() == 0,
        pad_postings(r.postings@, *pad, distance),
{
    let mut narration: Vec<char> = Vec::new();
    crate::strings::push_str_chars(&mut narration, "pad ");
    crate::strings::push_string_chars(&mut narration, &pad.account.content);
    crate::strings::push_str_chars(&mut narration, " to ");
    crate::strings::push_string_chars(&mut narration, &pad.pad.content);
    let mut postings: Vec<crate::data::Posting> = Vec::new();
    postings.push(
        crate::data::Posting {
            flag: None,
            account: pad.account.clone_account(),
            units: Some(Amount { number: distance, currency: pad.amount.currency.clone() }),
            cost: None,
            cost_date: None,
            price: None,
            meta: crate::data::Meta::new(),
        },
    );
    postings.push(
        crate::data::Posting {
            flag: None,
            account: pad.pad.clone_account(),
            units: None,
            cost: None,
            cost_date: None,
            price: None,
            meta: crate::data::Meta::new(),
        },
    );
    Transaction {
        date: pad.date,
        flag: Some(Flag::BalancePad),
        payee: Some(ZhangString::QuoteString("Balance Pad".to_owned())),
        narration: Some(ZhangString::QuoteString(crate::strings::string_from_chars(&narration))),
        tags: Vec::new(),
        links: Vec::new(),
        postings,
        meta: crate::data::Meta::new(),
    }
}

/// The number with the opposite sign.
pub open spec fn neg_decimal(d: Decimal) -> Decimal {
    Decimal::from_parts(-d.mant(), d.scl())
}

/// The error that an account reports when it does not exist.
pub open spec fn missing_error(l: Ledger, name: String, span: SpanInfo) -> Seq<LedgerError> {
    if l.has_account(name@) {
        Seq::empty()
    } else {
        seq![LedgerError { span, error: LedgerErrorType::AccountDoesNotExist { account_name: name } }]
    }
}

/// The error that an account reports when it is closed.
pub open spec fn closed_error(l: Ledger, name: String, span: SpanInfo) -> Seq<LedgerError> {
    if l.is_closed(name@) {
        seq![LedgerError { span, error: LedgerErrorType::AccountClosed { account_name: name } }]
    } else {
        Seq::empty()
    }
}

/// The errors that the checks of a pad report, in order: the account and the pad account
/// when they do not exist, then each when it is closed.
pub open spec fn pad_check_errors(l: Ledger, account: String, pad: String, span: SpanInfo) -> Seq<LedgerError> {
    missing_error(l, account, span) + missing_error(l, pad, span) + closed_error(l, account, span) + closed_error(
        l,
        pad,
        span,
    )
}

/// What padding the balance `bp` does to the ledger `l`, giving `l2`, the pad `bp2` and `ok`
/// (see `Ledger::process_balance_pad`).
pub open spec fn balance_pad_effect(l: Ledger, bp: BalancePad, span: SpanInfo, l2: Ledger, bp2: BalancePad, ok: bool) -> bool {
    &&& ok
    &&& l2.daily_inventory == l.daily_inventory
    &&& l2.prices == l.prices
    &&& l2.directives == l.directives
    &&& l2.metas == l.metas
    &&& l2.accounts == l.accounts
    &&& l2.currencies == l.currencies
    &&& l2.currency_infos == l.currency_infos
    &&& bp2.account == bp.account
    &&& bp2.pad == bp.pad
    &&& bp2.amount == bp.amount
    &&& l.errors@.len() <= l2.errors@.len()
    &&& forall|k: int| 0 <= k < l.errors@.len() ==> #[trigger] l2.errors@[k] == l.errors@[k]
    &&& ok ==> bp2.diff_amount is Some
    &&& ok ==> exists|ps: Seq<Posting>|
        #[trigger] pad_postings(ps, bp, bp2.diff_amount.unwrap().number) && posting_lots(
            l.lots@,
            ps,
            l2.lots@,
        )
    &&& !ok ==> l2.lots == l.lots
    &&& ({
        let cur = total_in(l, bp.account.content@, bp.amount.currency@);
        let checked = l.errors@ + pad_check_errors(
            l,
            bp.account.content,
            bp.pad.content,
            span,
        );
        &&& ok ==> (bp2.diff_amount matches Some(x) && x.currency@ == bp.amount.currency@
            && is_sum_of(x.number, bp.amount.number, cur, -1))
        &&& !ok ==> !sum_fits_at(bp.amount.number, cur, -1) && bp2 == bp
            && l2.account_inventory == l.account_inventory && l2.errors@ == checked
        &&& checked.len() <= l2.errors@.len()
        &&& forall|k: int| 0 <= k < checked.len() ==> #[trigger] l2.errors@[k] == checked[k]
    })
    &&& ({
        let a = bp.account.content@;
        let c = bp.amount.currency@;
        let cur = total_in(l, a, c);
        ok && a != bp.pad.content@ ==> total_in(
            l2,
            a,
            c,
        ).same_value(bp.amount.number)
    })
    &&& ({
        let p = bp.pad.content@;
        let c = bp.amount.currency@;
        let pcur = total_in(l, p, c);
        let d = bp2.diff_amount.unwrap().number;
        ok && bp.account.content@ != p ==> is_sum_of(
            total_in(l2, p, c),
            pcur,
            d,
            -1,
        )
    })
}

impl Ledger {
    /// Pads the balance of an account: reports the account and the pad account when they do
    /// not exist or are closed, records the difference between the asserted and the current
    /// amount, and processes the transaction that moves it from the pad account (see
    /// `pad_transaction` and `process_transaction`). Gives `true`.
    pub fn process_balance_pad(&mut self, pad: &mut BalancePad, span: &SpanInfo) -> (ok: bool)
        requires
            old(self).wf(),
        ensures
            final(self).wf(),
            balance_pad_effect(*old(self), *old(pad), *span, *final(self), *final(pad), ok),
            ok,
    {
        let name = pad.account.content.clone();
        let currency = pad.amount.currency.clone();
        self.check_account_existed(span, &name);
        self.check_account_existed(span, &pad.pad.content);
        self.check_account_closed(span, &name);
        self.check_account_closed(span, &pad.pad.content);
        let ghost checked = self.errors@;
        proof {
            assert(checked =~= old(self).errors@ + pad_check_errors(*old(self), pad.account.content, pad.pad.content, *span));
        }
        let current = self.account_total(&name, &currency);
        proof {
            assert(self.account_inventory == old(self).account_inventory);
            assert(total_in(*self, name@, currency@) == total_in(*old(self), name@, currency@));
            crate::decimal::lemma_from_parts(0, 0);
            crate::decimal::lemma_decimal_parts(current, total_in(*self, name@, currency@));
        }
        let distance = match pad.amount.number.checked_sub(&current) {
            Some(d) => d,
            None => return false,
        };
        pad.diff_amount = Some(Amount { number: distance.copy(), currency: currency.clone() });
        let trx = pad_transaction(pad, distance);
        let ghost ps = trx.postings@;
        proof {
            let p0 = ps[0];
            assert(ps.take(1).drop_last() =~= Seq::<crate::data::Posting>::empty());
            assert(ps.take(1).last() == ps[0]);
            assert(ps[0].units is Some);
            assert(crate::inventory::explicit_weights(Seq::<crate::data::Posting>::empty()) =~= Seq::<Amount>::empty());
            assert(crate::inventory::explicit_weights(ps.take(1)).len() == 1);
            assert(ps.drop_last() =~= ps.take(1));
            assert(ps.last() == ps[1]);
            assert(crate::inventory::explicit_weights(ps) == crate::inventory::explicit_weights(ps.take(1)));
        }
        let ghost before = *self;
        self.process_transaction(&trx, span);
        proof {
            assert(pad_postings(ps, *old(pad), distance));
            assert(posting_lots(before.lots@, ps, self.lots@));
            let a = name@;
            let c = currency@;
            let pn = pad.pad.content@;
            crate::decimal::lemma_sum_fits(seq![total_in(before, pn, c), neg_decimal(distance)]);
            crate::decimal::lemma_sum_fits(seq![current, distance]);
            if a != pn {
                lemma_pad_side(before, *self, ps, a, pn, c, distance);
            }
            if a != pad.pad.content@ {
                assert(inferred_units(ps, ps[0]) == Some((c, distance)));
                assert(posted(ps, 0, a) =~= Seq::empty());
                assert(posted(ps, 1, a) =~= seq![(c, distance)]);
                assert(posted(ps, 2, a) =~= seq![(c, distance)]);
                assert(seq![(c, distance)].drop_last() =~= Seq::<(Seq<char>, Decimal)>::empty());
                assert(seq![(c, distance)].last() == (c, distance));
                assert(numbers_of(Seq::<(Seq<char>, Decimal)>::empty(), c) =~= Seq::<Decimal>::empty());
                assert(numbers_of(seq![(c, distance)], c) =~= seq![distance]);
                assert(total_in(before, a, c) == current);
                assert(running(before, ps, 2, a, c) =~= seq![current, distance]);
                let run = seq![current, distance];
                if sum_fits(run) {
                    let t = total_in(*self, a, c);
                    assert(run.drop_last() =~= seq![current]);
                    lemma_single_sum(current);
                    crate::decimal::lemma_sum_push(seq![current], current, distance);
                    assert(seq![current].push(distance) =~= run);
                    crate::decimal::lemma_add_difference(current, pad.amount.number, distance, t);
                }
            }
        }
        true
    }
}

/// `a` comes before `b` by date: both are dated and `a` is earlier.
pub open spec fn earlier(a: Spanned<Directive>, b: Spanned<Directive>) -> bool {
    &&& a.data.spec_datetime() is Some
    &&& b.data.spec_datetime() is Some
    &&& a.data.spec_datetime().unwrap().rank() < b.data.spec_datetime().unwrap().rank()
}

/// Every directive is dated.
pub open spec fn all_dated(v: Seq<Spanned<Directive>>) -> bool {
    forall|i: int| 0 <= i < v.len() ==> (#[trigger] v[i]).data.spec_datetime() is Some
}

/// The directives are in order of date.
pub open spec fn sorted_by_date(v: Seq<Spanned<Directive>>) -> bool {
    forall|a: int, b: int| 0 <= a < b < v.len() ==> !earlier(#[trigger] v[b], #[trigger] v[a])
}

/// Both directives are dated, at the same moment.
pub open spec fn same_date(a: Spanned<Directive>, b: Spanned<Directive>) -> bool {
    &&& a.data.spec_datetime() is Some
    &&& b.data.spec_datetime() is Some
    &&& a.data.spec_datetime().unwrap().rank() == b.data.spec_datetime().unwrap().rank()
}

/// `r` puts the directives `d` in the order `p` (the position in `d` of each directive of
/// `r`), and directives of the same moment keep their order.
pub open spec fn stable_reorder(d: Seq<Spanned<Directive>>, r: Seq<Spanned<Directive>>, p: Seq<int>) -> bool {
    &&& p.len() == r.len() == d.len()
    &&& forall|k: int| 0 <= k < r.len() ==> 0 <= #[trigger] p[k] < d.len() && r[k] == d[p[k]]
    &&& forall|a: int, b: int| 0 <= a < b < r.len() ==> #[trigger] p[a] != #[trigger] p[b]
    &&& forall|a: int, b: int| 0 <= a < b < r.len() && same_date(#[trigger] r[a], #[trigger] r[b]) ==> p[a] < p[b]
}

fn is_earlier(a: &Spanned<Directive>, b: &Spanned<Directive>) -> (r: bool)
    ensures
        r == earlier(*a, *b),
{
    match (a.data.datetime(), b.data.datetime()) {
        (Some(x), Some(y)) => x.key_lt(&y),
        _ => false,
    }
}

/// The invariant of moving the directive at `j` towards the front: the directives before
/// `j` are in order, those after it up to `i` are in order and later than it, and none after
/// it is earlier than one before it.
pub open spec fn moving(v: Seq<Spanned<Directive>>, j: int, i: int) -> bool {
    &&& all_dated(v)
    &&& forall|a: int, b: int| 0 <= a < b < j ==> !earlier(#[trigger] v[b], #[trigger] v[a])
    &&& forall|a: int, b: int| j < a < b <= i ==> !earlier(#[trigger] v[b], #[trigger] v[a])
    &&& forall|b: int| j < b <= i ==> earlier(v[j], #[trigger] v[b])
    &&& forall|a: int, b: int| 0 <= a < j < b <= i ==> !earlier(#[trigger] v[b], #[trigger] v[a])
}

proof fn lemma_swap_multiset(before: Seq<Spanned<Directive>>, j: int)
    requires
        0 < j < before.len(),
    ensures
        before.remove(j).insert(j - 1, before[j]).to_multiset() == before.to_multiset(),
{
    let x = before[j];
    vstd::seq_lib::to_multiset_remove(before, j);
    vstd::seq_lib::to_multiset_insert(before.remove(j), j - 1, x);
    vstd::seq_lib::to_multiset_contains(before, x);
    assert(before.contains(x));
    assert(before.to_multiset().remove(x).insert(x) =~= before.to_multiset()) by {
        broadcast use vstd::multiset::group_multiset_axioms;
    }
}

proof fn lemma_move_step(before: Seq<Spanned<Directive>>, j: int, i: int)
    requires
        0 < j <= i < before.len(),
        moving(before, j, i),
        earlier(before[j], before[j - 1]),
    ensures
        moving(before.remove(j).insert(j - 1, before[j]), j - 1, i),
{
    let v = before.remove(j).insert(j - 1, before[j]);
    assert(v.len() == before.len());
    assert forall|q: int| 0 <= q < v.len() implies (v[q] == if q < j - 1 || q > j {
        before[q]
    } else if q == j - 1 {
        before[j]
    } else {
        before[j - 1]
    }) by {}
    assert(all_dated(v)) by {
        assert forall|q: int| 0 <= q < v.len() implies (#[trigger] v[q]).data.spec_datetime() is Some by {
            assert(before[q].data.spec_datetime() is Some);
        }
    }
}

proof fn lemma_move_done(v: Seq<Spanned<Directive>>, j: int, i: int)
    requires
        0 <= j <= i < v.len(),
        moving(v, j, i),
        j == 0 || !earlier(v[j], v[j - 1]),
    ensures
        forall|a: int, b: int| 0 <= a < b <= i ==> !earlier(#[trigger] v[b], #[trigger] v[a]),
{
    assert forall|a: int, b: int| 0 <= a < b <= i implies !earlier(#[trigger] v[b], #[trigger] v[a]) by {
        if b == j && a < j - 1 {
            assert(!earlier(v[j - 1], v[a]));
            assert(v[a].data.spec_datetime() is Some && v[j - 1].data.spec_datetime() is Some && v[j].data.spec_datetime() is Some);
        }
    }
}

impl Ledger {
    /// Orders directives by date, stably: each directive moves before the dated directives
    /// that it directly follows and that are later than it, so that directives of the same
    /// moment keep their order. When every directive is dated the result is in order of date.
    pub fn sort_directives_datetime(directives: Vec<Spanned<Directive>>) -> (r: Vec<Spanned<Directive>>)
        ensures
            r@.to_multiset() == directives@.to_multiset(),
            all_dated(directives@) ==> sorted_by_date(r@),
            exists|p: Seq<int>| stable_reorder(directives@, r@, p),
    {
        let ghost d = directives@;
        let mut v = directives;
        let n = v.len();
        let mut i: usize = 0;
        let ghost mut p: Seq<int> = Seq::new(n as nat, |k: int| k);
        while i < n
            invariant
                n == v@.len(),
                i <= n,
                d == directives@,
                v@.to_multiset() == directives@.to_multiset(),
                all_dated(directives@) ==> all_dated(v@),
                all_dated(directives@) ==> forall|a: int, b: int| 0 <= a < b < i ==> !earlier(#[trigger] v@[b], #[trigger] v@[a]),
                p.len() == n,
                forall|k: int| 0 <= k < n ==> 0 <= #[trigger] p[k] < n && v@[k] == d[p[k]],
                forall|a: int, b: int| 0 <= a < b < n ==> #[trigger] p[a] != #[trigger] p[b],
                forall|k: int| i <= k < n ==> #[trigger] p[k] == k,
                forall|k: int| 0 <= k < i ==> #[trigger] p[k] < i,
                forall|a: int, b: int| 0 <= a < b < i && same_date(#[trigger] v@[a], #[trigger] v@[b]) ==> p[a] < p[b],
            decreases n - i,
        {
            let mut j = i;
            while j > 0 && is_earlier(&v[j], &v[j - 1])
                invariant
                    n == v@.len(),
                    i < n,
                    j <= i,
                    d == directives@,
                    v@.to_multiset() == directives@.to_multiset(),
                    all_dated(directives@) ==> moving(v@, j as int, i as int),
                    p.len() == n,
                    forall|k: int| 0 <= k < n ==> 0 <= #[trigger] p[k] < n && v@[k] == d[p[k]],
                    forall|a: int, b: int| 0 <= a < b < n ==> #[trigger] p[a] != #[trigger] p[b],
                    forall|k: int| i < k < n ==> #[trigger] p[k] == k,
                    p[j as int] == i,
                    forall|k: int| 0 <= k <= i && k != j ==> #[trigger] p[k] < i,
                    forall|a: int, b: int| 0 <= a < b <= i && same_date(#[trigger] v@[a], #[trigger] v@[b]) ==> p[a] < p[b],
                decreases j,
            {
                let ghost before = v@;
                let ghost pb = p;
                let x = v.remove(j);
                v.insert(j - 1, x);
                proof {
                    assert(v@ =~= before.remove(j as int).insert(j - 1, before[j as int]));
                    lemma_swap_multiset(before, j as int);
                    if all_dated(directives@) {
                        lemma_move_step(before, j as int, i as int);
                    }
                    p = pb.update(j - 1, pb[j as int]).update(j as int, pb[j - 1]);
                    assert forall|q: int| 0 <= q < n implies (v@[q] == if q < j - 1 || q > j {
                        before[q]
                    } else if q == j - 1 {
                        before[j as int]
                    } else {
                        before[j - 1]
                    }) by {}
                    assert(!same_date(before[j - 1], before[j as int]));
                    assert forall|a: int, b: int| 0 <= a < b <= i && same_date(#[trigger] v@[a], #[trigger] v@[b]) implies p[a] < p[b] by {
                        let oa = if a == j - 1 { j as int } else if a == j { j - 1 } else { a };
                        let ob = if b == j - 1 { j as int } else if b == j { j - 1 } else { b };
                        assert(v@[a] == before[oa] && v@[b] == before[ob]);
                        assert(p[a] == pb[oa] && p[b] == pb[ob]);
                        if oa < ob {
                            assert(pb[oa] < pb[ob]);
                        } else {
                            assert(same_date(before[ob], before[oa]));
                            assert(pb[ob] < pb[oa]);
                        }
                    }
                }
                j = j - 1;
            }
            proof {
                if all_dated(directives@) {
                    lemma_move_done(v@, j as int, i as int);
                }
            }
            i = i + 1;
        }
        proof {
            assert(stable_reorder(directives@, v@, p));
        }
        v
    }
}

/// Whether every posting without units can be given units.
fn can_infer_exec(ps: &Vec<crate::data::Posting>) -> (r: bool)
    ensures
        r == can_infer(ps@),
{
    let mut missing = false;
    let mut present = false;
    let mut i: usize = 0;
    while i < ps.len()
        invariant
            i <= ps@.len(),
            missing == exists|k: int| 0 <= k < i && #[trigger] ps@[k].units is None,
            present == exists|k: int| 0 <= k < i && #[trigger] ps@[k].units is Some,
        decreases ps@.len() - i,
    {
        if ps[i].units.is_none() {
            missing = true;
        } else {
            present = true;
        }
        i = i + 1;
    }
    proof {
        lemma_explicit_weights_len(ps@);
    }
    !missing || present
}

/// Some posting has units exactly when there are weights.
proof fn lemma_explicit_weights_len(ps: Seq<crate::data::Posting>)
    ensures
        (crate::inventory::explicit_weights(ps).len() > 0) == exists|k: int| 0 <= k < ps.len() && #[trigger] ps[k].units is Some,
    decreases ps.len(),
{
    if ps.len() > 0 {
        lemma_explicit_weights_len(ps.drop_last());
        if exists|k: int| 0 <= k < ps.drop_last().len() && #[trigger] ps.drop_last()[k].units is Some {
            let k = choose|k: int| 0 <= k < ps.drop_last().len() && #[trigger] ps.drop_last()[k].units is Some;
            assert(ps[k].units is Some);
        }
        if exists|k: int| 0 <= k < ps.len() && #[trigger] ps[k].units is Some {
            let k = choose|k: int| 0 <= k < ps.len() && #[trigger] ps[k].units is Some;
            if k < ps.len() - 1 {
                assert(ps.drop_last()[k].units is Some);
            }
        }
    }
}

/// The ledger `l` with the daily inventories of `l2`: what `l` is once the day's snapshot
/// that `l2` holds is recorded.
pub open spec fn with_days(l: Ledger, l2: Ledger) -> Ledger {
    Ledger { daily_inventory: l2.daily_inventory, ..l }
}

/// What processing one directive does, from the ledger `l`, the directive `d` and the last
/// day `td` to `l2`, `d2` and `td2` (see `Ledger::process_directive`).
pub open spec fn directive_step(
    l: Ledger,
    d: Spanned<Directive>,
    td: Option<NaiveDate>,
    l2: Ledger,
    d2: Spanned<Directive>,
    td2: Option<NaiveDate>,
) -> bool {
    &&& l2.wf()
    &&& l.errors@.len() <= l2.errors@.len()
    &&& forall|k: int| 0 <= k < l.errors@.len() ==> #[trigger] l2.errors@[k] == l.errors@[k]
    &&& d2.span == d.span
    &&& match d.data {
        Directive::Open(o) => open_effect(l, o, d.span, l2) && td2 == td,
        Directive::Close(c) => close_effect(l, c, d.span, l2) && td2 == td,
        Directive::Commodity(c) => commodity_effect(l, c, l2) && td2 == td,
        Directive::Price(p) => price_effect(l, p, d.span, l2) && td2 == td,
        Directive::Document(doc) => document_effect(l, doc, d.span, l2) && td2 == td,
        Directive::Transaction(t) => td2 == Some(t.date.spec_naive_date()) && (!can_infer(t.postings@)
            ==> l2.account_inventory == l.account_inventory && l2.lots == l.lots && l2.errors@ == l.errors@.push(
            LedgerError { span: d.span, error: LedgerErrorType::TransactionDoesNotBalance },
        )) && (can_infer(t.postings@) ==> transaction_effect(with_days(l, l2), t, d.span, l2)),
        Directive::Balance(Balance::BalanceCheck(c)) => td2 == Some(c.date.spec_naive_date()) && (d2.data matches Directive::Balance(
            Balance::BalanceCheck(c2),
        ) && exists|ok: bool| #[trigger] balance_check_effect(with_days(l, l2), c, d.span, l2, c2, ok)),
        Directive::Balance(Balance::BalancePad(p)) => td2 == Some(p.date.spec_naive_date()) && (d2.data matches Directive::Balance(
            Balance::BalancePad(p2),
        ) && exists|ok: bool| #[trigger] balance_pad_effect(with_days(l, l2), p, d.span, l2, p2, ok)),
        _ => l2 == l && td2 == td,
    }
}

/// `sorted` holds the directives `d` in order of date, those of the same moment in the
/// order they had in `d`.
pub open spec fn date_ordered(d: Seq<Spanned<Directive>>, sorted: Seq<Spanned<Directive>>) -> bool {
    &&& exists|p: Seq<int>| #[trigger] stable_reorder(d, sorted, p)
    &&& sorted_by_date(sorted)
}

/// `r` is the ledger built from the directives `ds`: the undated ones kept in order as its
/// metas, the dated ones ordered by date and processed one after the other from an empty
/// ledger (see `Ledger::load_from_directives`).
pub open spec fn loaded_from(ds: Seq<Spanned<Directive>>, r: Ledger) -> bool {
    &&& r.wf()
    &&& r.metas@ == ds.filter(|d: Spanned<Directive>| d.data.spec_datetime() is None)
    &&& r.directives@.len() == ds.filter(|d: Spanned<Directive>| d.data.spec_datetime() is Some).len()
    &&& exists|sorted: Seq<Spanned<Directive>>, states: Seq<Ledger>, days: Seq<Option<NaiveDate>>|
        {
            &&& date_ordered(ds.filter(|d: Spanned<Directive>| d.data.spec_datetime() is Some), sorted)
            &&& #[trigger] processed_through(sorted, states, days, r)
        }
}

/// The ledger has nothing in it (see `Ledger::new`).
pub open spec fn empty_ledger(l: Ledger) -> bool {
    &&& l.wf()
    &&& l.accounts@.len() == 0
    &&& l.currencies@.len() == 0
    &&& l.account_inventory@.len() == 0
    &&& l.errors@.len() == 0
    &&& l.currency_infos@.len() == 0
    &&& l.directives@.len() == 0
    &&& l.metas@.len() == 0
    &&& l.daily_inventory.inner@ == Map::<int, Vec<(String, Inventory)>>::empty()
    &&& l.prices.grips() == Map::<int, PriceGrip>::empty()
    &&& l.lots@.len() == 0
    &&& l.documents@.len() == 0
}

/// `r` is the ledger that processing the dated directives `sorted` one after the other
/// through the states `states` (with last days `days`) leaves, its directives the processed
/// ones, and the inventories of the last day recorded.
pub open spec fn processed_through(
    sorted: Seq<Spanned<Directive>>,
    states: Seq<Ledger>,
    days: Seq<Option<NaiveDate>>,
    r: Ledger,
) -> bool {
    let n = sorted.len();
    &&& states.len() == n + 1
    &&& days.len() == n + 1
    &&& empty_ledger(states[0])
    &&& days[0] is None
    &&& r.directives@.len() == n
    &&& forall|k: int|
        0 <= k < n ==> #[trigger] directive_step(states[k], sorted[k], days[k], states[k + 1], r.directives@[k], days[k + 1])
    &&& r.accounts == states[n as int].accounts
    &&& r.currencies == states[n as int].currencies
    &&& r.currency_infos == states[n as int].currency_infos
    &&& r.account_inventory == states[n as int].account_inventory
    &&& r.errors == states[n as int].errors
    &&& r.prices == states[n as int].prices
    &&& match days[n as int] {
        Some(day) => r.daily_inventory.inner@.dom() == states[n as int].daily_inventory.inner@.dom().insert(day.rank())
            && inventory_views(r.daily_inventory.inner@[day.rank()]@) == inventory_views(
            states[n as int].account_inventory@,
        ),
        None => r.daily_inventory == states[n as int].daily_inventory,
    }
}

impl Ledger {
    /// Records the inventories of the accounts for the day being processed when a directive
    /// of another day comes, and makes that day the one being processed.
    pub fn record_daily_snapshot(&mut self, target_day: &mut Option<NaiveDate>, date: NaiveDate)
        requires
            old(self).wf(),
        ensures
            final(self).documents == old(self).documents,
            final(self).prices == old(self).prices,
            final(self).directives == old(self).directives,
            final(self).metas == old(self).metas,
            final(self).lots == old(self).lots,
            final(self).wf(),
            *final(target_day) == Some(date),
            final(self).accounts == old(self).accounts,
            final(self).currencies == old(self).currencies,
            final(self).currency_infos == old(self).currency_infos,
            final(self).account_inventory == old(self).account_inventory,
            final(self).errors == old(self).errors,
            match *old(target_day) {
                Some(t) => if t != date {
                    &&& final(self).daily_inventory.inner@.dom() == old(self).daily_inventory.inner@.dom().insert(t.rank())
                    &&& inventory_views(final(self).daily_inventory.inner@[t.rank()]@) == inventory_views(old(self).account_inventory@)
                } else {
                    final(self).daily_inventory.inner@ == old(self).daily_inventory.inner@
                },
                None => final(self).daily_inventory.inner@ == old(self).daily_inventory.inner@,
            },
    {
        match *target_day {
            Some(t) => {
                if !t.key_eq(&date) {
                    proof {
                        NaiveDate::rank_injective(&t, &date);
                    }
                    let snapshot = copy_inventories(&self.account_inventory);
                    self.daily_inventory.insert_account_inventory(t, snapshot);
                    *target_day = Some(date);
                } else {
                    proof {
                        NaiveDate::rank_injective(&t, &date);
                    }
                }
            },
            None => {
                *target_day = Some(date);
            },
        }
    }

    /// Processes one dated directive: opens, closes, declared commodities, transactions,
    /// balances, documents and prices; other directives change nothing.
    pub fn process_directive(&mut self, d: &mut Spanned<Directive>, target_day: &mut Option<NaiveDate>)
        requires
            old(self).wf(),
        ensures
            directive_step(*old(self), *old(d), *old(target_day), *final(self), *final(d), *final(target_day)),
    {
        let span = d.span.copy();
        match &mut d.data {
            Directive::Open(open) => self.process_open(open, &span),
            Directive::Close(close) => self.process_close(close, &span),
            Directive::Commodity(commodity) => self.process_commodity(commodity),
            Directive::Transaction(trx) => {
                self.record_daily_snapshot(target_day, trx.date.naive_date());
                if can_infer_exec(&trx.postings) {
                    let ghost mid = *self;
                    self.process_transaction(trx, &span);
                    proof {
                        assert(with_days(*old(self), *self) == mid);
                    }
                } else {
                    self.errors.push(LedgerError { span: span.copy(), error: LedgerErrorType::TransactionDoesNotBalance });
                }
            },
            Directive::Balance(Balance::BalanceCheck(check)) => {
                self.record_daily_snapshot(target_day, check.date.naive_date());
                let ghost mid = *self;
                let _ = self.process_balance_check(check, &span);
                proof {
                    assert(with_days(*old(self), *self) == mid);
                }
            },
            Directive::Balance(Balance::BalancePad(pad)) => {
                self.record_daily_snapshot(target_day, pad.date.naive_date());
                let ghost mid = *self;
                let _ = self.process_balance_pad(pad, &span);
                proof {
                    assert(with_days(*old(self), *self) == mid);
                }
            },
            Directive::Document(document) => self.process_document(document, &span),
            Directive::Price(price) => self.process_price(price, &span),
            _ => {},
        }
    }

    /// Builds a ledger from directives: the undated ones are kept aside in order as metas,
    /// the dated ones are ordered by date and processed one after the other.
    pub fn load_from_directives(directives: Vec<Spanned<Directive>>) -> (r: Ledger)
        ensures
            loaded_from(directives@, r),
    {
        let mut metas: Vec<Spanned<Directive>> = Vec::new();
        let mut dated: Vec<Spanned<Directive>> = Vec::new();
        let mut rest = directives;
        let n = rest.len();
        let mut i: usize = 0;
        while i < n
            invariant
                n == directives@.len(),
                i <= n,
                rest@.len() == n - i,
                forall|k: int| 0 <= k < rest@.len() ==> #[trigger] rest@[k] == directives@[i + k],
                metas@ == directives@.take(i as int).filter(|d: Spanned<Directive>| d.data.spec_datetime() is None),
                dated@ == directives@.take(i as int).filter(|d: Spanned<Directive>| d.data.spec_datetime() is Some),
            decreases n - i,
        {
            let ghost before = rest@;
            proof {
                assert(directives@.take(i + 1) =~= directives@.take(i as int).push(directives@[i as int]));
                directives@.take(i as int).lemma_filter_push(directives@[i as int], |d: Spanned<Directive>| d.data.spec_datetime() is None);
                directives@.take(i as int).lemma_filter_push(directives@[i as int], |d: Spanned<Directive>| d.data.spec_datetime() is Some);
            }
            let item = rest.remove(0);
            proof {
                assert(item == directives@[i as int]);
                assert forall|k: int| 0 <= k < rest@.len() implies #[trigger] rest@[k] == directives@[i + 1 + k] by {
                    assert(rest@[k] == before[k + 1]);
                }
            }
            if item.data.datetime().is_none() {
                metas.push(item);
            } else {
                dated.push(item);
            }
            i = i + 1;
        }
        proof {
            assert(directives@.take(n as int) =~= directives@);
            assert forall|j: int| 0 <= j < dated@.len() implies (#[trigger] dated@[j]).data.spec_datetime() is Some by {
                directives@.lemma_filter_pred(|d: Spanned<Directive>| d.data.spec_datetime() is Some, j);
            }
            assert(all_dated(dated@));
        }
        let ghost dated_view = dated@;
        let sorted = Ledger::sort_directives_datetime(dated);
        let ghost sorted_view = sorted@;
        proof {
            vstd::seq_lib::to_multiset_len(sorted@);
            vstd::seq_lib::to_multiset_len(dated@);
        }
        let mut ledger = Ledger::new();
        let ghost mut states: Seq<Ledger> = seq![ledger];
        let ghost mut days: Seq<Option<NaiveDate>> = seq![None];
        proof {
            assert(empty_ledger(states[0]));
        }
        let mut target_day: Option<NaiveDate> = None;
        let mut pending = sorted;
        let m = pending.len();
        let mut processed: Vec<Spanned<Directive>> = Vec::new();
        let mut k: usize = 0;
        while k < m
            invariant
                ledger.wf(),
                m == sorted_view.len(),
                pending@ == sorted_view.skip(k as int),
                processed@.len() == k,
                k <= m,
                states.len() == k + 1,
                days.len() == k + 1,
                states[k as int] == ledger,
                days[k as int] == target_day,
                empty_ledger(states[0]),
                days[0] is None,
                forall|j: int|
                    0 <= j < k ==> #[trigger] directive_step(states[j], sorted_view[j], days[j], states[j + 1], processed@[j], days[j + 1]),
            decreases m - k,
        {
            let ghost pend = pending@;
            let mut item = pending.remove(0);
            proof {
                assert(item == sorted_view[k as int]);
                assert(pending@ =~= sorted_view.skip(k + 1));
            }
            ledger.process_directive(&mut item, &mut target_day);
            processed.push(item);
            proof {
                states = states.push(ledger);
                days = days.push(target_day);
            }
            k = k + 1;
        }
        let ghost last = ledger;
        match target_day {
            Some(last_day) => {
                let snapshot = copy_inventories(&ledger.account_inventory);
                ledger.daily_inventory.insert_account_inventory(last_day, snapshot);
            },
            None => {},
        }
        ledger.directives = processed;
        ledger.metas = metas;
        proof {
            assert(states[m as int] == last);
            assert forall|j: int| 0 <= j < m implies #[trigger] directive_step(
                states[j],
                sorted_view[j],
                days[j],
                states[j + 1],
                ledger.directives@[j],
                days[j + 1],
            ) by {}
            assert(processed_through(sorted_view, states, days, ledger));
            assert(date_ordered(dated_view, sorted_view));
        }
        ledger
    }

    /// Reads a ledger text and builds the ledger from the directives read (see
    /// `load_from_directives`); the error of a text that cannot be read names its first
    /// unreadable line (see `crate::parser::read_as`).
    pub fn load_from_str(content: &str) -> (r: Result<Ledger, crate::parser::ParseError>)
        ensures
            match r {
                Ok(l) => exists|ds: Vec<Spanned<Directive>>|
                    #[trigger] crate::parser::read_as(content@, Ok(ds)) && loaded_from(ds@, l),
                Err(e) => crate::parser::read_as(content@, Err(e)),
            },
    {
        match crate::parser::parse_zhang(content) {
            Ok(directives) => {
                let ghost ds = directives;
                let l = Ledger::load_from_directives(directives);
                proof {
                    assert(crate::parser::read_as(content@, Ok(ds)));
                }
                Ok(l)
            },
            Err(e) => Err(e),
        }
    }
}

} // verus!
