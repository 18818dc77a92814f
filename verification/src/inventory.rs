use vstd::prelude::*;

use crate::amount::Amount;
use crate::data::{Posting, Transaction};
use crate::decimal::{
    checked_sum, lemma_decimal_parts, lemma_from_parts, lemma_sum_zero_shift, max_scale, sum_at, sum_fits, sum_step,
    Decimal,
};

verus! {

/// How much of each commodity there is; commodities in order of first appearance.
#[derive(Debug, Clone)]
pub struct Inventory {
    currencies: Vec<String>,
    totals: Vec<Decimal>,
}

/// The numbers of the amounts of commodity `c`, in order.
pub open spec fn numbers_of(us: Seq<(Seq<char>, Decimal)>, c: Seq<char>) -> Seq<Decimal>
    decreases us.len(),
{
    if us.len() == 0 {
        Seq::empty()
    } else if us.last().0 == c {
        numbers_of(us.drop_last(), c).push(us.last().1)
    } else {
        numbers_of(us.drop_last(), c)
    }
}

/// The number of entries whose total is not zero.
pub open spec fn count_nonzero(es: Seq<(Seq<char>, Decimal)>) -> nat
    decreases es.len(),
{
    if es.len() == 0 {
        0
    } else {
        count_nonzero(es.drop_last()) + if es.last().1.mant() != 0 {
            1nat
        } else {
            0nat
        }
    }
}

/// `t` is `a` plus `sign` times `b`, at the larger of their scales.
pub open spec fn is_sum_of(t: Decimal, a: Decimal, b: Decimal, sign: int) -> bool {
    let s = if a.scl() >= b.scl() { a.scl() } else { b.scl() };
    t.scl() == s && t.mant() == a.at_scale(s) + sign * b.at_scale(s)
}

/// `a` plus `sign` times `b` fits, with both numbers, at the larger of their scales (always
/// so: see `crate::decimal::fits_mantissa`).
pub open spec fn sum_fits_at(a: Decimal, b: Decimal, sign: int) -> bool {
    let s = if a.scl() >= b.scl() { a.scl() } else { b.scl() };
    crate::decimal::fits_mantissa(a.at_scale(s)) && crate::decimal::fits_mantissa(b.at_scale(s))
        && crate::decimal::fits_mantissa(a.at_scale(s) + sign * b.at_scale(s))
}

/// Adding zero keeps a number as it is.
proof fn lemma_sum_with_zero(a: Decimal, sign: int)
    ensures
        is_sum_of(a, a, Decimal::from_parts(0, 0), sign),
{
    crate::decimal::lemma_from_parts(0, 0);
    assert(Decimal::from_parts(0, 0).at_scale(a.scl()) == 0) by {
        assert(0 * crate::decimal::pow10(a.scl()) == 0);
    }
    assert(a.at_scale(a.scl()) == a.mant()) by {
        assert((a.scl() - a.scl()) as nat == 0);
        assert(crate::decimal::pow10(0) == 1);
    }
}

impl Inventory {
    pub closed spec fn wf(&self) -> bool {
        &&& self.currencies@.len() == self.totals@.len()
        &&& forall|i: int, j: int|
            0 <= i < j < self.currencies@.len() ==> #[trigger] self.currencies@[i]@ != #[trigger] self.currencies@[j]@
    }

    /// The commodities with their totals, in order of first appearance.
    pub closed spec fn entries(&self) -> Seq<(Seq<char>, Decimal)> {
        Seq::new(self.currencies@.len(), |i: int| (self.currencies@[i]@, self.totals@[i]))
    }

    /// Whether the commodity has an entry.
    pub open spec fn has(&self, c: Seq<char>) -> bool {
        exists|i: int| 0 <= i < self.entries().len() && #[trigger] self.entries()[i].0 == c
    }

    /// The total of a commodity; zero when it has no entry.
    pub open spec fn total(&self, c: Seq<char>) -> Decimal {
        if self.has(c) {
            self.entries()[choose|i: int| 0 <= i < self.entries().len() && #[trigger] self.entries()[i].0 == c].1
        } else {
            Decimal::from_parts(0, 0)
        }
    }

    /// The entries are the totals of running sums of the amounts `us`, one commodity after
    /// another.
    pub open spec fn sums_of(&self, us: Seq<(Seq<char>, Decimal)>) -> bool {
        forall|c: Seq<char>|
            #![trigger numbers_of(us, c)]
            sum_fits(numbers_of(us, c)) && self.total(c).scl() == max_scale(numbers_of(us, c))
                && self.total(c).mant() == sum_at(numbers_of(us, c), max_scale(numbers_of(us, c)))
    }

    proof fn lemma_total_at(&self, i: int)
        requires
            self.wf(),
            0 <= i < self.currencies@.len(),
        ensures
            self.has(self.currencies@[i]@),
            self.total(self.currencies@[i]@) == self.totals@[i],
    {
        let c = self.currencies@[i]@;
        assert(self.entries()[i].0 == c);
        let j = choose|j: int| 0 <= j < self.entries().len() && #[trigger] self.entries()[j].0 == c;
        if j != i {
            if j < i {
                assert(self.currencies@[j]@ != self.currencies@[i]@);
            } else {
                assert(self.currencies@[i]@ != self.currencies@[j]@);
            }
        }
    }

    /// An equal inventory.
    pub fn copy(&self) -> (r: Inventory)
        ensures
            r.wf() == self.wf(),
            r.entries() == self.entries(),
    {
        let mut currencies: Vec<String> = Vec::new();
        let mut totals: Vec<Decimal> = Vec::new();
        let mut i: usize = 0;
        while i < self.currencies.len()
            invariant
                i <= self.currencies@.len(),
                currencies@ == self.currencies@.take(i as int),
            decreases self.currencies@.len() - i,
        {
            currencies.push(self.currencies[i].clone());
            proof {
                assert(self.currencies@.take(i + 1) =~= self.currencies@.take(i as int).push(self.currencies@[i as int]));
            }
            i = i + 1;
        }
        let mut k: usize = 0;
        while k < self.totals.len()
            invariant
                k <= self.totals@.len(),
                totals@ == self.totals@.take(k as int),
            decreases self.totals@.len() - k,
        {
            totals.push(self.totals[k].copy());
            proof {
                assert(self.totals@.take(k + 1) =~= self.totals@.take(k as int).push(self.totals@[k as int]));
            }
            k = k + 1;
        }
        proof {
            assert(self.currencies@.take(self.currencies@.len() as int) =~= self.currencies@);
            assert(self.totals@.take(self.totals@.len() as int) =~= self.totals@);
        }
        let r = Inventory { currencies, totals };
        proof {
            assert(r.entries() =~= self.entries());
        }
        r
    }

    /// An empty inventory.
    pub fn new() -> (r: Inventory)
        ensures
            r.wf(),
            r.entries() == Seq::<(Seq<char>, Decimal)>::empty(),
            r.sums_of(Seq::empty()),
    {
        let r = Inventory { currencies: Vec::new(), totals: Vec::new() };
        proof {
            assert(r.entries() =~= Seq::<(Seq<char>, Decimal)>::empty());
            lemma_from_parts(0, 0);
            assert forall|c: Seq<char>| #![trigger numbers_of(Seq::<(Seq<char>, Decimal)>::empty(), c)]
                sum_fits(numbers_of(Seq::<(Seq<char>, Decimal)>::empty(), c)) && r.total(c).scl() == max_scale(
                    numbers_of(Seq::<(Seq<char>, Decimal)>::empty(), c),
                ) && r.total(c).mant() == sum_at(
                    numbers_of(Seq::<(Seq<char>, Decimal)>::empty(), c),
                    max_scale(numbers_of(Seq::<(Seq<char>, Decimal)>::empty(), c)),
                ) by {
                assert(!r.has(c));
            }
        }
        r
    }

    fn position(&self, c: &String) -> (r: Option<usize>)
        requires
            self.wf(),
        ensures
            match r {
                Some(i) => i < self.currencies@.len() && self.currencies@[i as int]@ == c@,
                None => !self.has(c@),
            },
    {
        let mut i: usize = 0;
        while i < self.currencies.len()
            invariant
                self.wf(),
                i <= self.currencies@.len(),
                forall|j: int| 0 <= j < i ==> #[trigger] self.currencies@[j]@ != c@,
            decreases self.currencies@.len() - i,
        {
            if self.currencies[i] == *c {
                return Some(i);
            }
            i = i + 1;
        }
        proof {
            if self.has(c@) {
                let j = choose|j: int| 0 <= j < self.entries().len() && #[trigger] self.entries()[j].0 == c@;
                assert(self.currencies@[j]@ == c@);
            }
        }
        None
    }

    /// Where the commodity's entry stands.
    pub closed spec fn index_of(&self, c: Seq<char>) -> int {
        choose|i: int| 0 <= i < self.entries().len() && #[trigger] self.entries()[i].0 == c
    }

    /// Adds an amount to the total of its commodity, as a running sum does (see
    /// `Decimal::checked_add`); a commodity without entry gets one at the end. Gives `true`:
    /// the total always holds the sum.
    pub fn add_amount(&mut self, amount: &Amount) -> (ok: bool)
        requires
            old(self).wf(),
        ensures
            final(self).wf(),
            ({
                let c = amount.currency@;
                let t = old(self).total(c);
                let n = amount.number;
                let s = if t.scl() >= n.scl() { t.scl() } else { n.scl() };
                let sum = t.at_scale(s) + n.at_scale(s);
                if ok {
                    &&& crate::decimal::fits_mantissa(t.at_scale(s))
                    &&& crate::decimal::fits_mantissa(n.at_scale(s))
                    &&& crate::decimal::fits_mantissa(sum)
                    &&& final(self).total(c).scl() == s
                    &&& final(self).total(c).mant() == sum
                    &&& final(self).entries() == if old(self).has(c) {
                        old(self).entries().update(old(self).index_of(c), (c, final(self).total(c)))
                    } else {
                        old(self).entries().push((c, final(self).total(c)))
                    }
                } else {
                    &&& !(crate::decimal::fits_mantissa(t.at_scale(s)) && crate::decimal::fits_mantissa(n.at_scale(s))
                        && crate::decimal::fits_mantissa(sum))
                    &&& final(self).entries() == old(self).entries()
                }
            }),
            forall|x: Seq<char>| x != amount.currency@ ==> #[trigger] final(self).total(x) == old(self).total(x),
            forall|x: Seq<char>| #[trigger] final(self).has(x) == (old(self).has(x) || (ok && x == amount.currency@)),
            ok,
    {
        let ghost c = amount.currency@;
        let ghost old_entries = self.entries();
        let cur = self.get_total(&amount.currency);
        let pos = self.position(&amount.currency);
        let new_total = match cur.checked_add(&amount.number) {
            Some(n) => n,
            None => return false,
        };
        match pos {
            Some(i) => {
                proof {
                    self.lemma_total_at(i as int);
                }
                self.totals.set(i, new_total);
                proof {
                    let j = old(self).index_of(c);
                    assert(old(self).entries()[j].0 == c);
                    if j != i {
                        if j < i {
                            assert(old(self).currencies@[j]@ != old(self).currencies@[i as int]@);
                        } else {
                            assert(old(self).currencies@[i as int]@ != old(self).currencies@[j]@);
                        }
                    }
                    assert(self.entries() =~= old_entries.update(i as int, (c, new_total)));
                    self.lemma_total_at(i as int);
                    assert forall|x: Seq<char>| x != c implies #[trigger] self.total(x) == old(self).total(x) by {
                        if old(self).has(x) {
                            let k = choose|k: int| 0 <= k < old(self).entries().len() && #[trigger] old(self).entries()[k].0 == x;
                            old(self).lemma_total_at(k);
                            self.lemma_total_at(k);
                        }
                        if self.has(x) {
                            let k = choose|k: int| 0 <= k < self.entries().len() && #[trigger] self.entries()[k].0 == x;
                            assert(old(self).entries()[k].0 == x);
                        }
                    }
                    assert forall|x: Seq<char>| #[trigger] self.has(x) == old(self).has(x) by {
                        if old(self).has(x) {
                            let k = choose|k: int| 0 <= k < old(self).entries().len() && #[trigger] old(self).entries()[k].0 == x;
                            assert(self.entries()[k].0 == x);
                        }
                        if self.has(x) {
                            let k = choose|k: int| 0 <= k < self.entries().len() && #[trigger] self.entries()[k].0 == x;
                            assert(old(self).entries()[k].0 == x);
                        }
                    }
                }
            },
            None => {
                self.currencies.push(amount.currency.clone());
                self.totals.push(new_total);
                proof {
                    let n = old(self).currencies@.len() as int;
                    assert forall|i: int, j: int|
                        0 <= i < j < self.currencies@.len() implies #[trigger] self.currencies@[i]@ != #[trigger] self.currencies@[j]@ by {
                        if j == n {
                            assert(old(self).entries()[i].0 == old(self).currencies@[i]@);
                        }
                    }
                    assert(self.entries() =~= old_entries.push((c, new_total)));
                    self.lemma_total_at(n);
                    assert forall|x: Seq<char>| x != c implies #[trigger] self.total(x) == old(self).total(x) by {
                        if old(self).has(x) {
                            let k = choose|k: int| 0 <= k < old(self).entries().len() && #[trigger] old(self).entries()[k].0 == x;
                            old(self).lemma_total_at(k);
                            self.lemma_total_at(k);
                        }
                        if self.has(x) {
                            let k = choose|k: int| 0 <= k < self.entries().len() && #[trigger] self.entries()[k].0 == x;
                            if k < n {
                                assert(old(self).entries()[k].0 == x);
                            }
                        }
                    }
                    assert forall|x: Seq<char>| #[trigger] self.has(x) == (old(self).has(x) || x == c) by {
                        if old(self).has(x) {
                            let k = choose|k: int| 0 <= k < old(self).entries().len() && #[trigger] old(self).entries()[k].0 == x;
                            assert(self.entries()[k].0 == x);
                        }
                        if x == c {
                            assert(self.entries()[n].0 == x);
                        }
                        if self.has(x) {
                            let k = choose|k: int| 0 <= k < self.entries().len() && #[trigger] self.entries()[k].0 == x;
                            if k < n {
                                assert(old(self).entries()[k].0 == x);
                            }
                        }
                    }
                }
            },
        }
        true
    }

    /// Whether every total is zero.
    pub fn is_zero(&self) -> (r: bool)
        requires
            self.wf(),
        ensures
            r == forall|i: int| 0 <= i < self.entries().len() ==> #[trigger] self.entries()[i].1.mant() == 0,
            r == forall|c: Seq<char>| #[trigger] self.total(c).mant() == 0,
    {
        let mut i: usize = 0;
        while i < self.totals.len()
            invariant
                self.wf(),
                i <= self.totals@.len(),
                forall|j: int| 0 <= j < i ==> #[trigger] self.totals@[j].mant() == 0,
            decreases self.totals@.len() - i,
        {
            if !self.totals[i].is_zero() {
                proof {
                    assert(self.entries()[i as int].1 == self.totals@[i as int]);
                    self.lemma_total_at(i as int);
                    assert(self.total(self.currencies@[i as int]@).mant() != 0);
                }
                return false;
            }
            i = i + 1;
        }
        proof {
            assert forall|c: Seq<char>| #[trigger] self.total(c).mant() == 0 by {
                if self.has(c) {
                    let k = choose|k: int| 0 <= k < self.entries().len() && #[trigger] self.entries()[k].0 == c;
                    self.lemma_total_at(k);
                } else {
                    lemma_from_parts(0, 0);
                }
            }
            assert forall|j: int| 0 <= j < self.entries().len() implies #[trigger] self.entries()[j].1.mant() == 0 by {
                assert(self.entries()[j].1 == self.totals@[j]);
            }
        }
        true
    }

    /// How many commodities have a total that is not zero.
    pub fn size(&self) -> (r: usize)
        requires
            self.wf(),
        ensures
            r == count_nonzero(self.entries()),
    {
        let mut count: usize = 0;
        let mut i: usize = 0;
        while i < self.totals.len()
            invariant
                self.wf(),
                i <= self.totals@.len(),
                count == count_nonzero(self.entries().take(i as int)),
                count <= i,
            decreases self.totals@.len() - i,
        {
            proof {
                assert(self.entries().take(i + 1).drop_last() =~= self.entries().take(i as int));
                assert(self.entries().take(i + 1).last().1 == self.totals@[i as int]);
            }
            if !self.totals[i].is_zero() {
                count = count + 1;
            }
            i = i + 1;
        }
        proof {
            assert(self.entries().take(self.totals@.len() as int) =~= self.entries());
        }
        count
    }

    /// The total of a commodity; zero when it has none.
    pub fn get_total(&self, currency: &String) -> (r: Decimal)
        requires
            self.wf(),
        ensures
            r == self.total(currency@),
    {
        match self.position(currency) {
            Some(i) => {
                proof {
                    self.lemma_total_at(i as int);
                }
                self.totals[i].copy()
            },
            None => {
                let z = Decimal::zero();
                proof {
                    lemma_from_parts(0, 0);
                    lemma_decimal_parts(z, Decimal::from_parts(0, 0));
                }
                z
            },
        }
    }
}

/// What `number` of `from` is worth in `to` at the moment of rank `at`, as
/// `DatedPriceGrip::calculate` gives it: the number itself between equal commodities, else the
/// number times the latest known price (zero without one); none when the product's scale
/// does not fit its field.
pub open spec fn converted_number(
    grips: Map<int, crate::price_grip::PriceGrip>,
    at: int,
    from: Seq<char>,
    to: Seq<char>,
    number: Decimal,
) -> Option<Decimal> {
    if from == to {
        Some(number)
    } else {
        let p = crate::price_grip::latest_price(grips, at, from, to);
        let pm = if p is Some { p.unwrap().mant() } else { 0 };
        let ps = if p is Some { p.unwrap().scl() } else { 0 };
        if crate::decimal::fits_mantissa(number.mant() * pm) && number.scl() + ps <= u32::MAX {
            Some(Decimal::from_parts(number.mant() * pm, (number.scl() + ps) as nat))
        } else {
            None
        }
    }
}

impl Inventory {
    /// Takes an amount from the total of its commodity (see `add_amount`). Gives `true`.
    pub fn sub_amount(&mut self, amount: &Amount) -> (ok: bool)
        requires
            old(self).wf(),
        ensures
            final(self).wf(),
            ({
                let c = amount.currency@;
                let t = old(self).total(c);
                let n = amount.number;
                let s = if t.scl() >= n.scl() { t.scl() } else { n.scl() };
                &&& ok ==> final(self).total(c).scl() == s && final(self).total(c).mant() == t.at_scale(s) - n.at_scale(s)
                &&& ok <== crate::decimal::fits_mantissa(t.at_scale(s)) && crate::decimal::fits_mantissa(n.at_scale(s))
                    && crate::decimal::fits_mantissa(t.at_scale(s) - n.at_scale(s))
                &&& !ok ==> final(self).entries() == old(self).entries()
            }),
            forall|x: Seq<char>| x != amount.currency@ ==> #[trigger] final(self).total(x) == old(self).total(x),
            ok,
    {
        let neg = amount.neg();
        proof {
            let t = self.total(amount.currency@);
            let n = amount.number;
            let s = if t.scl() >= n.scl() { t.scl() } else { n.scl() };
            let p = crate::decimal::pow10((s - n.scl()) as nat);
            assert(neg.number.at_scale(s) == -n.at_scale(s)) by (nonlinear_arith)
                requires
                    neg.number.mant() == -n.mant(),
                    neg.number.at_scale(s) == neg.number.mant() * p,
                    n.at_scale(s) == n.mant() * p,
            ;
            assert(neg.number.at_scale(s) == neg.number.mant() * crate::decimal::pow10((s - neg.number.scl()) as nat));
            assert(crate::decimal::fits_mantissa(-n.at_scale(s)) == crate::decimal::fits_mantissa(n.at_scale(s)));
        }
        self.add_amount(&neg)
    }

    /// Adds up two inventories, commodity by commodity (see `add_amount`); always there.
    pub fn add(&self, rhs: &Inventory) -> (r: Option<Inventory>)
        requires
            self.wf(),
            rhs.wf(),
        ensures
            match r {
                Some(inv) => inv.wf() && forall|c: Seq<char>| is_sum_of(#[trigger] inv.total(c), self.total(c), rhs.total(c), 1),
                None => exists|c: Seq<char>| #[trigger] rhs.has(c) && !sum_fits_at(self.total(c), rhs.total(c), 1),
            },
            r is Some,
    {
        self.combine(rhs, false)
    }

    /// Takes one inventory from another, commodity by commodity (see `sub_amount`); always
    /// there.
    pub fn sub(&self, rhs: &Inventory) -> (r: Option<Inventory>)
        requires
            self.wf(),
            rhs.wf(),
        ensures
            match r {
                Some(inv) => inv.wf() && forall|c: Seq<char>| is_sum_of(#[trigger] inv.total(c), self.total(c), rhs.total(c), -1),
                None => exists|c: Seq<char>| #[trigger] rhs.has(c) && !sum_fits_at(self.total(c), rhs.total(c), -1),
            },
            r is Some,
    {
        self.combine(rhs, true)
    }

    fn combine(&self, rhs: &Inventory, take: bool) -> (r: Option<Inventory>)
        requires
            self.wf(),
            rhs.wf(),
        ensures
            ({
                let sign: int = if take { -1 } else { 1 };
                match r {
                    Some(inv) => inv.wf() && forall|c: Seq<char>| is_sum_of(#[trigger] inv.total(c), self.total(c), rhs.total(c), sign),
                    None => exists|c: Seq<char>| #[trigger] rhs.has(c) && !sum_fits_at(self.total(c), rhs.total(c), sign),
                }
            }),
    {
        let ghost sign: int = if take { -1 } else { 1 };
        let mut inv = self.copy();
        let mut i: usize = 0;
        while i < rhs.currencies.len()
            invariant
                sign == (if take { -1int } else { 1 }),
                self.wf(),
                rhs.wf(),
                inv.wf(),
                i <= rhs.currencies@.len(),
                forall|c: Seq<char>|
                    #![trigger inv.total(c)]
                    (exists|j: int| 0 <= j < i && #[trigger] rhs.currencies@[j]@ == c) ==> is_sum_of(
                        inv.total(c),
                        self.total(c),
                        rhs.total(c),
                        sign,
                    ),
                forall|c: Seq<char>|
                    #![trigger inv.total(c)]
                    !(exists|j: int| 0 <= j < i && #[trigger] rhs.currencies@[j]@ == c) ==> inv.total(c) == self.total(c),
            decreases rhs.currencies@.len() - i,
        {
            let ghost c = rhs.currencies@[i as int]@;
            proof {
                rhs.lemma_total_at(i as int);
                if exists|j: int| 0 <= j < i && #[trigger] rhs.currencies@[j]@ == c {
                    let j = choose|j: int| 0 <= j < i && #[trigger] rhs.currencies@[j]@ == c;
                    assert(rhs.currencies@[j]@ != rhs.currencies@[i as int]@);
                }
                assert(inv.total(c) == self.total(c));
            }
            let amount = Amount { number: rhs.totals[i].copy(), currency: rhs.currencies[i].clone() };
            let ghost before = inv;
            let ok = if take {
                inv.sub_amount(&amount)
            } else {
                inv.add_amount(&amount)
            };
            if !ok {
                proof {
                    assert(rhs.entries()[i as int].0 == c);
                    assert(rhs.has(c));
                    assert(!sum_fits_at(self.total(c), rhs.total(c), sign));
                }
                return None;
            }
            proof {
                assert forall|x: Seq<char>| (exists|j: int| 0 <= j < i + 1 && #[trigger] rhs.currencies@[j]@ == x) implies is_sum_of(
                    #[trigger] inv.total(x),
                    self.total(x),
                    rhs.total(x),
                    sign,
                ) by {
                    if x != c {
                        let j = choose|j: int| 0 <= j < i + 1 && #[trigger] rhs.currencies@[j]@ == x;
                        assert(j < i);
                        assert(before.total(x) == inv.total(x));
                    }
                }
                assert forall|x: Seq<char>| !(exists|j: int| 0 <= j < i + 1 && #[trigger] rhs.currencies@[j]@ == x) implies #[trigger] inv.total(
                    x,
                ) == self.total(x) by {
                    assert(x != c);
                    assert(!(exists|j: int| 0 <= j < i && #[trigger] rhs.currencies@[j]@ == x)) by {
                        if exists|j: int| 0 <= j < i && #[trigger] rhs.currencies@[j]@ == x {
                            let j = choose|j: int| 0 <= j < i && #[trigger] rhs.currencies@[j]@ == x;
                            assert(0 <= j < i + 1 && rhs.currencies@[j]@ == x);
                        }
                    }
                }
            }
            i = i + 1;
        }
        proof {
            assert forall|c: Seq<char>| is_sum_of(#[trigger] inv.total(c), self.total(c), rhs.total(c), sign) by {
                if !(exists|j: int| 0 <= j < i && #[trigger] rhs.currencies@[j]@ == c) {
                    assert(!rhs.has(c)) by {
                        if rhs.has(c) {
                            let k = choose|k: int| 0 <= k < rhs.entries().len() && #[trigger] rhs.entries()[k].0 == c;
                            assert(rhs.currencies@[k]@ == c);
                        }
                    }
                    lemma_sum_with_zero(self.total(c), sign);
                }
            }
        }
        Some(inv)
    }

    /// What the inventory is worth in `to` at a moment: the sum of each total converted at the
    /// latest prices up to the moment (see `converted_number`); none when the scale of a
    /// conversion does not fit its field.
    pub fn calculate_to_currency(
        &self,
        prices: &crate::price_grip::DatedPriceGrip,
        date: &crate::date::NaiveDateTime,
        to: &String,
    ) -> (r: Option<Decimal>)
        requires
            self.wf(),
            prices.wf(),
        ensures
            ({
                let es = self.entries();
                let cs = Seq::new(
                    es.len(),
                    |i: int| converted_number(prices.grips(), crate::keys::OrdKey::rank(date), es[i].0, to@, es[i].1),
                );
                let all = forall|i: int| 0 <= i < es.len() ==> (#[trigger] cs[i]) is Some;
                let ds = Seq::new(es.len(), |i: int| cs[i].unwrap());
                match r {
                    Some(x) => all && sum_fits(ds) && x.scl() == max_scale(ds) && x.mant() == sum_at(ds, max_scale(ds)),
                    None => !(all && sum_fits(ds)),
                }
            }),
    {
        let ghost es = self.entries();
        let ghost at = crate::keys::OrdKey::rank(date);
        let ghost cs = Seq::new(es.len(), |i: int| converted_number(prices.grips(), at, es[i].0, to@, es[i].1));
        let mut ds: Vec<Decimal> = Vec::new();
        let mut i: usize = 0;
        while i < self.totals.len()
            invariant
                self.wf(),
                es == self.entries(),
                cs == Seq::new(es.len(), |i: int| converted_number(prices.grips(), at, es[i].0, to@, es[i].1)),
                at == crate::keys::OrdKey::rank(date),
                prices.wf(),
                i <= self.totals@.len(),
                ds@.len() == i,
                forall|k: int| 0 <= k < i ==> (#[trigger] cs[k]) == Some(ds@[k]),
            decreases self.totals@.len() - i,
        {
            let v = prices.calculate(date, &self.currencies[i], to, &self.totals[i]);
            match v {
                Some(d) => {
                    proof {
                        crate::decimal::lemma_scale_bound(d);
                        assert(es[i as int] == (self.currencies@[i as int]@, self.totals@[i as int]));
                        let n = self.totals@[i as int];
                        if self.currencies@[i as int]@ != to@ {
                            let p = crate::price_grip::latest_price(prices.grips(), at, self.currencies@[i as int]@, to@);
                            let pm = if p is Some { p.unwrap().mant() } else { 0 };
                            let ps = if p is Some { p.unwrap().scl() } else { 0 };
                            assert(crate::decimal::fits_mantissa(d.mant()));
                            crate::decimal::lemma_from_parts(n.mant() * pm, (n.scl() + ps) as nat);
                            crate::decimal::lemma_decimal_parts(d, Decimal::from_parts(n.mant() * pm, (n.scl() + ps) as nat));
                        }
                        assert(cs[i as int] == Some(d));
                    }
                    ds.push(d);
                },
                None => return None,
            }
            i = i + 1;
        }
        proof {
            assert(ds@ =~= Seq::new(es.len(), |k: int| cs[k].unwrap()));
        }
        checked_sum(&ds)
    }
}

/// A posting of a transaction, seen with the transaction.
pub struct TxnPosting<'a> {
    pub txn: &'a Transaction,
    pub posting: &'a Posting,
}

/// What a posting with units weighs in its transaction: its cost when it has one, else its
/// units.
pub open spec fn posting_weight(p: Posting) -> Amount {
    match p.cost {
        Some(c) => c,
        None => p.units.unwrap(),
    }
}

/// The weights of the postings that have units, in order.
pub open spec fn explicit_weights(ps: Seq<Posting>) -> Seq<Amount>
    decreases ps.len(),
{
    if ps.len() == 0 {
        Seq::empty()
    } else if ps.last().units is Some {
        explicit_weights(ps.drop_last()).push(posting_weight(ps.last()))
    } else {
        explicit_weights(ps.drop_last())
    }
}

pub open spec fn amount_numbers(ws: Seq<Amount>) -> Seq<Decimal> {
    ws.map_values(|a: Amount| a.number)
}

/// All the amounts are of one commodity.
pub open spec fn one_currency(ws: Seq<Amount>) -> bool {
    forall|i: int, j: int| 0 <= i < ws.len() && 0 <= j < ws.len() ==> #[trigger] ws[i].currency@ == #[trigger] ws[j].currency@
}

/// The units a posting stands for in a transaction with postings `ps`: its own; for a posting
/// without, the negated sum of the weights of the postings with units when they are of one
/// commodity, and zero `CNY` when they are of several.
pub open spec fn inferred_units(ps: Seq<Posting>, p: Posting) -> Option<(Seq<char>, Decimal)> {
    match p.units {
        Some(u) => Some((u.currency@, u.number)),
        None => {
            let ws = explicit_weights(ps);
            let ns = amount_numbers(ws);
            if !one_currency(ws) {
                Some(("CNY"@, Decimal::from_parts(0, 0)))
            } else {
                Some((ws[0].currency@, Decimal::from_parts(-sum_at(ns, max_scale(ns)), max_scale(ns))))
            }
        },
    }
}

/// A posting without units can be given units: some posting has units.
pub open spec fn can_infer(ps: Seq<Posting>) -> bool {
    (exists|i: int| 0 <= i < ps.len() && #[trigger] ps[i].units is None) ==> explicit_weights(ps).len() > 0
}

/// The units of every posting.
pub open spec fn all_units(ps: Seq<Posting>) -> Seq<Option<(Seq<char>, Decimal)>> {
    ps.map_values(|p: Posting| inferred_units(ps, p))
}

pub open spec fn unwrap_units(us: Seq<Option<(Seq<char>, Decimal)>>) -> Seq<(Seq<char>, Decimal)> {
    us.map_values(|u: Option<(Seq<char>, Decimal)>| u.unwrap())
}

/// The postings balance: for every commodity, the units of that commodity sum to zero.
pub open spec fn balanced(us: Seq<(Seq<char>, Decimal)>) -> bool {
    forall|c: Seq<char>|
        #![trigger numbers_of(us, c)]
        sum_at(numbers_of(us, c), max_scale(numbers_of(us, c))) == 0
}

/// The weights of the postings with units, and the numbers of those weights.
fn weights_of(ps: &Vec<Posting>) -> (r: Vec<Amount>)
    ensures
        r@ == explicit_weights(ps@),
{
    let mut r: Vec<Amount> = Vec::new();
    let mut i: usize = 0;
    while i < ps.len()
        invariant
            i <= ps@.len(),
            r@ == explicit_weights(ps@.take(i as int)),
        decreases ps@.len() - i,
    {
        proof {
            assert(ps@.take(i + 1).drop_last() =~= ps@.take(i as int));
            assert(ps@.take(i + 1).last() == ps@[i as int]);
        }
        let p = &ps[i];
        match &p.units {
            Some(u) => {
                match &p.cost {
                    Some(c) => r.push(c.copy()),
                    None => r.push(u.copy()),
                }
            },
            None => {},
        }
        i = i + 1;
    }
    proof {
        assert(ps@.take(ps@.len() as int) =~= ps@);
    }
    r
}

impl<'a> TxnPosting<'a> {
    /// The units of the posting; see `inferred_units`.
    pub fn units(&self) -> (r: Option<Amount>)
        requires
            self.posting.units is Some || explicit_weights(self.txn.postings@).len() > 0,
        ensures
            self.posting.units is Some ==> r == self.posting.units,
            match r {
                Some(a) => inferred_units(self.txn.postings@, *self.posting) == Some((a.currency@, a.number)),
                None => inferred_units(self.txn.postings@, *self.posting) is None,
            },
    {
        match &self.posting.units {
            Some(u) => Some(u.copy()),
            None => {
                let ws = weights_of(&self.txn.postings);
                let ghost wv = ws@;
                let mut same = true;
                let mut nums: Vec<Decimal> = Vec::new();
                let mut i: usize = 0;
                while i < ws.len()
                    invariant
                        wv == ws@,
                        wv.len() > 0,
                        i <= wv.len(),
                        nums@ == amount_numbers(wv.take(i as int)),
                        same == forall|j: int| 0 <= j < i ==> #[trigger] wv[j].currency@ == wv[0].currency@,
                    decreases wv.len() - i,
                {
                    if ws[i].currency != ws[0].currency {
                        same = false;
                    }
                    nums.push(ws[i].number.copy());
                    proof {
                        assert(amount_numbers(wv.take(i + 1)) =~= amount_numbers(wv.take(i as int)).push(wv[i as int].number));
                    }
                    i = i + 1;
                }
                proof {
                    assert(wv.take(wv.len() as int) =~= wv);
                    if !same {
                        let j = choose|j: int| 0 <= j < wv.len() && #[trigger] wv[j].currency@ != wv[0].currency@;
                        assert(!one_currency(wv));
                    }
                }
                if !same {
                    let z = Amount::zero("CNY");
                    proof {
                        lemma_from_parts(0, 0);
                        lemma_decimal_parts(z.number, Decimal::from_parts(0, 0));
                    }
                    return Some(z);
                }
                match checked_sum(&nums) {
                    Some(total) => {
                        let a = Amount { number: total.neg(), currency: ws[0].currency.clone() };
                        proof {
                            let m = -sum_at(nums@, max_scale(nums@));
                            crate::decimal::lemma_scale_bound(total);
                            lemma_from_parts(m, max_scale(nums@));
                            lemma_decimal_parts(a.number, Decimal::from_parts(m, max_scale(nums@)));
                        }
                        Some(a)
                    },
                    None => None,
                }
            },
        }
    }

    /// What the posting weighs: its cost when it has one, else its units.
    pub fn costs(&self) -> (r: Option<Amount>)
        requires
            self.posting.cost is Some || self.posting.units is Some || explicit_weights(self.txn.postings@).len() > 0,
        ensures
            self.posting.cost is Some ==> r == self.posting.cost,
            self.posting.cost is None ==> match r {
                Some(a) => inferred_units(self.txn.postings@, *self.posting) == Some((a.currency@, a.number)),
                None => inferred_units(self.txn.postings@, *self.posting) is None,
            },
    {
        match &self.posting.cost {
            Some(c) => Some(c.copy()),
            None => self.units(),
        }
    }

    /// The name of the posting's account.
    pub fn account_name(&self) -> (r: String)
        ensures
            r@ == self.posting.account.content@,
    {
        self.posting.account.content.clone()
    }
}

impl Transaction {
    /// Each posting seen with this transaction.
    pub fn txn_postings(&self) -> (r: Vec<TxnPosting<'_>>)
        ensures
            r@.len() == self.postings@.len(),
            forall|i: int| 0 <= i < r@.len() ==> *#[trigger] r@[i].txn == *self && *r@[i].posting == self.postings@[i],
    {
        let mut r: Vec<TxnPosting<'_>> = Vec::new();
        let mut i: usize = 0;
        while i < self.postings.len()
            invariant
                i <= self.postings@.len(),
                r@.len() == i,
                forall|j: int| 0 <= j < i ==> *#[trigger] r@[j].txn == *self && *r@[j].posting == self.postings@[j],
            decreases self.postings@.len() - i,
        {
            r.push(TxnPosting { txn: self, posting: &self.postings[i] });
            i = i + 1;
        }
        r
    }

    /// Whether the units of the postings balance, commodity by commodity, with the numbers
    /// that the sums need.
    fn units_balance(&self) -> (r: Option<bool>)
        requires
            can_infer(self.postings@),
        ensures
            ({
                let us = all_units(self.postings@);
                match r {
                    Some(b) => (forall|i: int| 0 <= i < us.len() ==> #[trigger] us[i] is Some) && (forall|c: Seq<char>|
                        #![trigger numbers_of(unwrap_units(us), c)]
                        sum_fits(numbers_of(unwrap_units(us), c))) && b == balanced(unwrap_units(us)),
                    None => (exists|i: int| 0 <= i < us.len() && #[trigger] us[i] is None) || (exists|k: int, c: Seq<char>|
                        0 <= k <= us.len() && !sum_fits(#[trigger] numbers_of(unwrap_units(us).take(k), c))),
                }
            }),
            r is Some,
    {
        let ghost ps = self.postings@;
        let ghost us = all_units(ps);
        let ghost fl = unwrap_units(us);
        let mut inventory = Inventory::new();
        let mut i: usize = 0;
        proof {
            assert(fl.take(0) =~= Seq::<(Seq<char>, Decimal)>::empty());
        }
        while i < self.postings.len()
            invariant
                ps == self.postings@,
                us == all_units(ps),
                fl == unwrap_units(us),
                can_infer(ps),
                i <= ps.len(),
                inventory.wf(),
                inventory.sums_of(fl.take(i as int)),
                forall|j: int| 0 <= j < i ==> #[trigger] us[j] is Some,
            decreases ps.len() - i,
        {
            let tp = TxnPosting { txn: self, posting: &self.postings[i] };
            proof {
                if ps[i as int].units is None {
                    assert(ps[i as int].units is None);
                }
            }
            let u = match tp.units() {
                Some(u) => u,
                None => {
                    proof {
                        assert(us[i as int] is None);
                    }
                    return None;
                },
            };
            let ghost pre = fl.take(i as int);
            let ghost c = u.currency@;
            let ghost t = inventory.total(c);
            proof {
                assert(us[i as int] == Some((u.currency@, u.number)));
                assert(fl[i as int] == (u.currency@, u.number));
                assert(fl.take(i + 1) =~= pre.push((c, u.number)));
                assert(pre.push((c, u.number)).drop_last() =~= pre);
                assert(numbers_of(fl.take(i + 1), c) == numbers_of(pre, c).push(u.number));
                crate::decimal::lemma_sum_push(numbers_of(pre, c), t, u.number);
            }
            let ghost before = inventory;
            let ok = inventory.add_amount(&u);
            if !ok {
                proof {
                    assert(!sum_fits(numbers_of(fl.take(i + 1), c)));
                }
                return None;
            }
            proof {
                let post = fl.take(i + 1);
                assert forall|x: Seq<char>|
                    #![trigger numbers_of(post, x)]
                    sum_fits(numbers_of(post, x)) && inventory.total(x).scl() == max_scale(numbers_of(post, x))
                        && inventory.total(x).mant() == sum_at(numbers_of(post, x), max_scale(numbers_of(post, x))) by {
                    assert(post.drop_last() =~= pre);
                    if x != c {
                        assert(numbers_of(post, x) == numbers_of(pre, x));
                        assert(inventory.total(x) == before.total(x));
                        assert(before.sums_of(pre));
                        assert(sum_fits(numbers_of(pre, x)));
                    }
                }
            }
            i = i + 1;
        }
        proof {
            assert(fl.take(ps.len() as int) =~= fl);
        }
        let z = inventory.is_zero();
        proof {
            assert forall|c: Seq<char>| #![trigger numbers_of(fl, c)] sum_fits(numbers_of(fl, c)) by {
                assert(inventory.sums_of(fl));
            }
            assert(z == balanced(fl)) by {
                if z {
                    assert forall|c: Seq<char>| #![trigger numbers_of(fl, c)] sum_at(numbers_of(fl, c), max_scale(numbers_of(fl, c))) == 0 by {
                        assert(inventory.total(c).mant() == 0);
                    }
                } else {
                    let c = choose|c: Seq<char>| #[trigger] inventory.total(c).mant() != 0;
                    assert(sum_at(numbers_of(fl, c), max_scale(numbers_of(fl, c))) != 0);
                }
            }
        }
        Some(z)
    }

    /// Whether the units of the postings balance, commodity by commodity: every posting has
    /// units (its own or inferred), and for every commodity they sum to zero.
    pub fn is_balance(&self) -> (r: bool)
        requires
            can_infer(self.postings@),
        ensures
            forall|i: int| 0 <= i < self.postings@.len() ==> #[trigger] all_units(self.postings@)[i] is Some,
            r == balanced(unwrap_units(all_units(self.postings@))),
    {
        match self.units_balance() {
            Some(b) => b,
            None => false,
        }
    }
}

} // verus!
