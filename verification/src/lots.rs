use vstd::prelude::*;

use crate::inventory::sum_fits_at;
use crate::decimal::{
    lemma_scale_bound, lemma_decimal_parts, lemma_from_parts, lemma_add_at, lemma_at_scale_shift, lemma_max_scale, lemma_pow10_positive, lemma_sum_at_shift,
    lemma_sum_at_update, max_scale, pow10, sum_at, Decimal,
};

verus! {

/// Which lots an amount goes into: a named lot (a commodity and a number), or the lots in
/// order (first in, first out) or in reverse order (first in, last out).
#[derive(Debug, Clone, PartialEq, Eq)]
pub enum LotInfo {
    Lot(String, Decimal),
    Fifo,
    Filo,
}

/// The holdings of one commodity, split into lots.
#[derive(Debug, Clone)]
pub struct CommodityInventory {
    currency: String,
    total: Decimal,
    keys: Vec<(String, Decimal)>,
    amounts: Vec<Decimal>,
}

pub open spec fn max_nat(a: nat, b: nat) -> nat {
    if a >= b {
        a
    } else {
        b
    }
}

/// `total` is the sum of `lots`, compared at the largest of their scales.
pub open spec fn sums_to(total: Decimal, lots: Seq<Decimal>) -> bool {
    let s = max_nat(total.scl(), max_scale(lots));
    total.at_scale(s) == sum_at(lots, s)
}

/// An equality of a total and a sum holds at every large enough scale.
pub proof fn lemma_sums_to_up(total: Decimal, lots: Seq<Decimal>, big: nat)
    requires
        sums_to(total, lots),
        total.scl() <= big,
        max_scale(lots) <= big,
    ensures
        total.at_scale(big) == sum_at(lots, big),
{
    let s = max_nat(total.scl(), max_scale(lots));
    lemma_at_scale_shift(total, s, big);
    lemma_sum_at_shift(lots, s, big);
}

/// An equality of a total and a sum at a large scale holds at the smallest one.
pub proof fn lemma_sums_to_down(total: Decimal, lots: Seq<Decimal>, big: nat)
    requires
        total.at_scale(big) == sum_at(lots, big),
        total.scl() <= big,
        max_scale(lots) <= big,
    ensures
        sums_to(total, lots),
{
    let s = max_nat(total.scl(), max_scale(lots));
    lemma_at_scale_shift(total, s, big);
    lemma_sum_at_shift(lots, s, big);
    lemma_pow10_positive((big - s) as nat);
    let p = pow10((big - s) as nat);
    let a = total.at_scale(s);
    let b = sum_at(lots, s);
    assert(a == b) by (nonlinear_arith)
        requires a * p == b * p, p >= 1;
}

/// The scale of a zero.
proof fn lemma_zero_at(z: Decimal, s: nat)
    requires
        z.mant() == 0,
        z.scl() == 0,
    ensures
        z.at_scale(s) == 0,
{
    let p = pow10(s);
    assert(0 * p == 0) by (nonlinear_arith);
}

/// Every number has at most `big` decimal places.
pub open spec fn bounded(ds: Seq<Decimal>, big: nat) -> bool {
    forall|i: int| 0 <= i < ds.len() ==> #[trigger] ds[i].scl() <= big
}

pub proof fn lemma_bounded_max(ds: Seq<Decimal>, big: nat)
    requires
        bounded(ds, big),
    ensures
        max_scale(ds) <= big,
    decreases ds.len(),
{
    if ds.len() > 0 {
        assert(bounded(ds.drop_last(), big)) by {
            assert forall|i: int| 0 <= i < ds.drop_last().len() implies #[trigger] ds.drop_last()[i].scl() <= big by {
                assert(ds.drop_last()[i] == ds[i]);
            }
        }
        lemma_bounded_max(ds.drop_last(), big);
        assert(ds.last() == ds[ds.len() - 1]);
    }
}

pub proof fn lemma_max_bounded(ds: Seq<Decimal>)
    ensures
        bounded(ds, max_scale(ds)),
{
    assert forall|i: int| 0 <= i < ds.len() implies #[trigger] ds[i].scl() <= max_scale(ds) by {
        lemma_max_scale(ds, i);
    }
}

/// The numbers scaled to `big` places.
pub open spec fn values_at(ds: Seq<Decimal>, big: nat) -> Seq<int> {
    ds.map_values(|d: Decimal| d.at_scale(big))
}

/// The lot that step `k` of a spread over `n` lots visits.
pub open spec fn step_index(n: int, k: int, forward: bool) -> int {
    if forward {
        k
    } else {
        n - 1 - k
    }
}

/// The lots and what is left after `k` steps of spreading `number` over the lots `a`: while
/// something is left, the next lot takes all of it unless that would make it negative, in
/// which case the lot is emptied into what is left.
pub open spec fn spread_steps(a: Seq<int>, number: int, forward: bool, k: nat) -> (Seq<int>, int)
    decreases k,
{
    if k == 0 {
        (a, number)
    } else {
        let prev = spread_steps(a, number, forward, (k - 1) as nat);
        if prev.1 == 0 {
            prev
        } else {
            let j = step_index(a.len() as int, k - 1, forward);
            let t = prev.0[j] + prev.1;
            if t < 0 {
                (prev.0.update(j, 0), t)
            } else {
                (prev.0.update(j, t), 0)
            }
        }
    }
}

/// The lot `a` plus `b`, at the larger of their scales (see `Decimal::checked_add`); always
/// there.
pub open spec fn dec_sum(a: Decimal, b: Decimal) -> Option<Decimal> {
    let s = if a.scl() >= b.scl() { a.scl() } else { b.scl() };
    if sum_fits_at(a, b, 1) {
        Some(Decimal::from_parts(a.at_scale(s) + b.at_scale(s), s))
    } else {
        None
    }
}

/// The lots and what is left after `k` steps of a spread, as the numbers are kept (see
/// `spread_steps` for their values).
pub open spec fn spread_dec(a: Seq<Decimal>, number: Decimal, forward: bool, k: nat) -> Option<(Seq<Decimal>, Decimal)>
    decreases k,
{
    if k == 0 {
        Some((a, number))
    } else {
        match spread_dec(a, number, forward, (k - 1) as nat) {
            None => None,
            Some((ls, rest)) => if rest.mant() == 0 {
                Some((ls, rest))
            } else {
                let j = step_index(a.len() as int, k - 1, forward);
                match dec_sum(ls[j], rest) {
                    None => None,
                    Some(t) => if t.mant() < 0 {
                        Some((ls.update(j, Decimal::from_parts(0, 0)), t))
                    } else {
                        Some((ls.update(j, t), Decimal::from_parts(0, 0)))
                    },
                }
            },
        }
    }
}

proof fn lemma_spread_dec_done(a: Seq<Decimal>, number: Decimal, forward: bool, k: nat, m: nat)
    requires
        k <= m,
        spread_dec(a, number, forward, k) matches Some(x) && x.1.mant() == 0,
    ensures
        spread_dec(a, number, forward, m) == spread_dec(a, number, forward, k),
    decreases m,
{
    if m > k {
        lemma_spread_dec_done(a, number, forward, k, (m - 1) as nat);
    }
}

proof fn lemma_spread_dec_none(a: Seq<Decimal>, number: Decimal, forward: bool, k: nat, m: nat)
    requires
        k <= m,
        spread_dec(a, number, forward, k) is None,
    ensures
        spread_dec(a, number, forward, m) is None,
    decreases m,
{
    if m > k {
        lemma_spread_dec_none(a, number, forward, k, (m - 1) as nat);
    }
}

proof fn lemma_spread_len(a: Seq<int>, number: int, forward: bool, k: nat)
    requires
        k <= a.len(),
    ensures
        spread_steps(a, number, forward, k).0.len() == a.len(),
    decreases k,
{
    if k > 0 {
        lemma_spread_len(a, number, forward, (k - 1) as nat);
    }
}

proof fn lemma_spread_done(a: Seq<int>, number: int, forward: bool, k: nat, m: nat)
    requires
        k <= m,
        spread_steps(a, number, forward, k).1 == 0,
    ensures
        spread_steps(a, number, forward, m) == spread_steps(a, number, forward, k),
    decreases m,
{
    if m > k {
        lemma_spread_done(a, number, forward, k, (m - 1) as nat);
    }
}

/// Spreads `number` over the lots, in order or in reverse order: a lot that the rest would
/// make negative is emptied into it, the first that it would not takes all of it. Gives the
/// new lots and what is left; always there.
fn spread(amounts: &Vec<Decimal>, number: &Decimal, forward: bool, Ghost(big): Ghost<nat>) -> (r: Option<
    (Vec<Decimal>, Decimal),
>)
    requires
        bounded(amounts@, big),
        number.scl() <= big,
    ensures
        r is Some <==> spread_dec(amounts@, *number, forward, amounts@.len()) is Some,
        r is Some ==> spread_dec(amounts@, *number, forward, amounts@.len()) == Some((r.unwrap().0@, r.unwrap().1)),
        r is Some ==> {
            let (na, rest) = r.unwrap();
            &&& na@.len() == amounts@.len()
            &&& bounded(na@, big)
            &&& rest.scl() <= big
            &&& sum_at(na@, big) + rest.at_scale(big) == sum_at(amounts@, big) + number.at_scale(big)
            &&& values_at(na@, big) == spread_steps(values_at(amounts@, big), number.at_scale(big), forward, amounts@.len()).0
            &&& rest.at_scale(big) == spread_steps(values_at(amounts@, big), number.at_scale(big), forward, amounts@.len()).1
        },
        r is Some,
{
    let n = amounts.len();
    let mut na: Vec<Decimal> = Vec::new();
    let mut i: usize = 0;
    while i < n
        invariant
            n == amounts@.len(),
            i <= n,
            na@ == amounts@.take(i as int),
        decreases n - i,
    {
        na.push(amounts[i].copy());
        proof {
            assert(amounts@.take(i + 1) =~= amounts@.take(i as int).push(amounts@[i as int]));
        }
        i = i + 1;
    }
    proof {
        assert(amounts@.take(n as int) =~= amounts@);
    }
    let mut rest = number.copy();
    let mut k: usize = 0;
    while k < n
        invariant
            n == amounts@.len(),
            na@.len() == n,
            k <= n,
            bounded(na@, big),
            rest.scl() <= big,
            sum_at(na@, big) + rest.at_scale(big) == sum_at(amounts@, big) + number.at_scale(big),
            values_at(na@, big) == spread_steps(values_at(amounts@, big), number.at_scale(big), forward, k as nat).0,
            rest.at_scale(big) == spread_steps(values_at(amounts@, big), number.at_scale(big), forward, k as nat).1,
            spread_dec(amounts@, *number, forward, k as nat) == Some((na@, rest)),
        ensures
            spread_dec(amounts@, *number, forward, n as nat) == Some((na@, rest)),
            na@.len() == n,
            bounded(na@, big),
            rest.scl() <= big,
            sum_at(na@, big) + rest.at_scale(big) == sum_at(amounts@, big) + number.at_scale(big),
            values_at(na@, big) == spread_steps(values_at(amounts@, big), number.at_scale(big), forward, n as nat).0,
            rest.at_scale(big) == spread_steps(values_at(amounts@, big), number.at_scale(big), forward, n as nat).1,
        decreases n - k,
    {
        proof {
            lemma_spread_len(values_at(amounts@, big), number.at_scale(big), forward, k as nat);
        }
        if rest.is_zero() {
            proof {
                assert(rest.mant() * pow10((big - rest.scl()) as nat) == 0) by (nonlinear_arith)
                    requires rest.mant() == 0;
                lemma_spread_done(values_at(amounts@, big), number.at_scale(big), forward, k as nat, n as nat);
                lemma_spread_dec_done(amounts@, *number, forward, k as nat, n as nat);
            }
            break;
        }
        let j = if forward { k } else { n - 1 - k };
        let lot = na[j].copy();
        let t = match lot.checked_add(&rest) {
            Some(t) => t,
            None => {
                proof {
                    assert(spread_dec(amounts@, *number, forward, (k + 1) as nat) is None);
                    lemma_spread_dec_none(amounts@, *number, forward, (k + 1) as nat, n as nat);
                }
                return None;
            },
        };
        proof {
            let s = if lot.scl() >= rest.scl() { lot.scl() } else { rest.scl() };
            lemma_scale_bound(t);
            lemma_from_parts(t.mant(), t.scl());
            lemma_decimal_parts(t, Decimal::from_parts(lot.at_scale(s) + rest.at_scale(s), s));
            lemma_from_parts(0, 0);
        }
        let ghost before = na@;
        proof {
            assert(lot.scl() <= big);
            lemma_add_at(lot, rest, t, big);
        }
        let ghost r0 = rest;
        proof {
            lemma_pow10_positive((big - t.scl()) as nat);
            lemma_pow10_positive((big - r0.scl()) as nat);
            let p = pow10((big - t.scl()) as nat);
            assert((t.mant() < 0) == (t.mant() * p < 0)) by (nonlinear_arith)
                requires p >= 1;
            assert(r0.mant() != 0 ==> r0.mant() * pow10((big - r0.scl()) as nat) != 0) by (nonlinear_arith)
                requires pow10((big - r0.scl()) as nat) >= 1;
            assert(values_at(before, big)[j as int] == lot.at_scale(big));
        }
        if t.is_negative() {
            let z = Decimal::zero();
            na.set(j, z);
            proof {
                lemma_decimal_parts(z, Decimal::from_parts(0, 0));
                lemma_zero_at(z, big);
                lemma_sum_at_update(before, j as int, z, big);
                assert(na@ == before.update(j as int, z));
                assert(values_at(na@, big) =~= values_at(before, big).update(j as int, 0));
            }
            rest = t;
        } else {
            na.set(j, t);
            proof {
                lemma_sum_at_update(before, j as int, t, big);
                assert(na@ == before.update(j as int, t));
                assert(values_at(na@, big) =~= values_at(before, big).update(j as int, t.at_scale(big)));
            }
            let z = Decimal::zero();
            proof {
                lemma_zero_at(z, big);
                lemma_decimal_parts(z, Decimal::from_parts(0, 0));
            }
            rest = z;
        }
        k = k + 1;
    }
    Some((na, rest))
}

/// The lots' commodities and numbers.
pub open spec fn key_views(keys: Seq<(String, Decimal)>) -> Seq<(Seq<char>, Decimal)> {
    keys.map_values(|k: (String, Decimal)| (k.0@, k.1))
}

/// Lot `i` is the first of the commodity `c` at the number `p`.
pub open spec fn is_first_lot(keys: Seq<(Seq<char>, Decimal)>, c: Seq<char>, p: Decimal, i: int) -> bool {
    &&& 0 <= i < keys.len()
    &&& keys[i].0 == c && keys[i].1.same_value(p)
    &&& forall|j: int| 0 <= j < i ==> !(#[trigger] keys[j].0 == c && keys[j].1.same_value(p))
}

/// Adding `delta` to the lot of `c` at `p`: the first such lot gains it, else that lot is
/// opened at the end with it.
pub open spec fn lot_added(
    keys: Seq<(Seq<char>, Decimal)>,
    vals: Seq<int>,
    c: Seq<char>,
    p: Decimal,
    delta: int,
    nk: Seq<(Seq<char>, Decimal)>,
    nv: Seq<int>,
) -> bool {
    if exists|i: int| is_first_lot(keys, c, p, i) {
        let i = choose|i: int| is_first_lot(keys, c, p, i);
        nk == keys && nv == vals.update(i, vals[i] + delta)
    } else {
        nk == keys.push((c, p)) && nv == vals.push(delta)
    }
}

/// Adding `delta` to the lot of `c` at `p` fits: the first such lot's amount and `delta`
/// have a sum that fits, or, with no such lot, `delta` alone does (always so).
pub open spec fn lot_add_fits(
    keys: Seq<(Seq<char>, Decimal)>,
    amounts: Seq<Decimal>,
    c: Seq<char>,
    p: Decimal,
    delta: Decimal,
) -> bool {
    if exists|i: int| is_first_lot(keys, c, p, i) {
        sum_fits_at(amounts[choose|i: int| is_first_lot(keys, c, p, i)], delta, 1)
    } else {
        sum_fits_at(Decimal::from_parts(0, 0), delta, 1)
    }
}

/// Adds `delta` to the lot `key`, or opens that lot at the end. Gives the new keys and
/// amounts; always there.
fn add_to_lot(keys: &Vec<(String, Decimal)>, amounts: &Vec<Decimal>, currency: &String, number: &Decimal, delta: &Decimal, Ghost(big): Ghost<nat>) -> (r: Option<
    (Vec<(String, Decimal)>, Vec<Decimal>),
>)
    requires
        keys@.len() == amounts@.len(),
        bounded(amounts@, big),
        delta.scl() <= big,
    ensures
        r is Some <==> lot_add_fits(key_views(keys@), amounts@, currency@, *number, *delta),
        r is Some ==> {
            let (nk, na) = r.unwrap();
            &&& nk@.len() == na@.len()
            &&& bounded(na@, big)
            &&& sum_at(na@, big) == sum_at(amounts@, big) + delta.at_scale(big)
            &&& lot_added(
                key_views(keys@),
                values_at(amounts@, big),
                currency@,
                *number,
                delta.at_scale(big),
                key_views(nk@),
                values_at(na@, big),
            )
        },
        r is Some,
{
    let ghost kv = key_views(keys@);
    let mut i: usize = 0;
    while i < keys.len()
        invariant
            keys@.len() == amounts@.len(),
            i <= keys@.len(),
            bounded(amounts@, big),
            delta.scl() <= big,
            kv == key_views(keys@),
            forall|j: int| 0 <= j < i ==> !(#[trigger] kv[j].0 == currency@ && kv[j].1.same_value(*number)),
        decreases keys@.len() - i,
    {
        if keys[i].0 == *currency && keys[i].1.eq_value(number) {
            proof {
                assert(is_first_lot(kv, currency@, *number, i as int));
                let ii = choose|q: int| is_first_lot(kv, currency@, *number, q);
                if ii < i {
                    assert(!(kv[ii].0 == currency@ && kv[ii].1.same_value(*number)));
                } else if ii > i {
                    assert(!(kv[i as int].0 == currency@ && kv[i as int].1.same_value(*number)));
                }
                assert(ii == i);
            }
            let t = match amounts[i].checked_add(delta) {
                Some(t) => t,
                None => return None,
            };
            let mut na: Vec<Decimal> = Vec::new();
            let mut nk: Vec<(String, Decimal)> = Vec::new();
            let mut j: usize = 0;
            while j < amounts.len()
                invariant
                    keys@.len() == amounts@.len(),
                    i < amounts@.len(),
                    j <= amounts@.len(),
                    na@.len() == j,
                    forall|q: int| 0 <= q < j ==> #[trigger] na@[q] == if q == i { t } else { amounts@[q] },
                    nk@ == keys@.take(j as int),
                decreases amounts@.len() - j,
            {
                if j == i {
                    na.push(t.copy());
                } else {
                    na.push(amounts[j].copy());
                }
                nk.push((keys[j].0.clone(), keys[j].1.copy()));
                proof {
                    assert(keys@.take(j + 1) =~= keys@.take(j as int).push(keys@[j as int]));
                }
                j = j + 1;
            }
            proof {
                assert(keys@.take(amounts@.len() as int) =~= keys@);
                assert(values_at(amounts@.update(i as int, t), big) =~= values_at(amounts@, big).update(
                    i as int,
                    values_at(amounts@, big)[i as int] + delta.at_scale(big),
                )) by {
                    assert(amounts@[i as int].scl() <= big);
                    lemma_add_at(amounts@[i as int], *delta, t, big);
                }
            }
            proof {
                assert(is_first_lot(kv, currency@, *number, i as int));
                let ii = choose|q: int| is_first_lot(kv, currency@, *number, q);
                if ii < i {
                    assert(!(kv[ii].0 == currency@ && kv[ii].1.same_value(*number)));
                } else if ii > i {
                    assert(!(kv[i as int].0 == currency@ && kv[i as int].1.same_value(*number)));
                }
                assert(key_views(nk@) =~= kv);
                assert(na@ =~= amounts@.update(i as int, t));
                assert forall|q: int| 0 <= q < na@.len() implies #[trigger] na@[q].scl() <= big by {
                    if q != i {
                        assert(na@[q] == amounts@[q]);
                    }
                }
                assert(amounts@[i as int].scl() <= big);
                lemma_add_at(amounts@[i as int], *delta, t, big);
                lemma_sum_at_update(amounts@, i as int, t, big);
            }
            return Some((nk, na));
        }
        i = i + 1;
    }
    let z = Decimal::zero();
    proof {
        lemma_from_parts(0, 0);
        lemma_decimal_parts(z, Decimal::from_parts(0, 0));
        assert(!exists|q: int| is_first_lot(kv, currency@, *number, q));
    }
    let t = match z.checked_add(delta) {
        Some(t) => t,
        None => return None,
    };
    let mut nk: Vec<(String, Decimal)> = Vec::new();
    let mut na: Vec<Decimal> = Vec::new();
    let mut j: usize = 0;
    while j < amounts.len()
        invariant
            keys@.len() == amounts@.len(),
            j <= amounts@.len(),
            na@ == amounts@.take(j as int),
            nk@ == keys@.take(j as int),
        decreases amounts@.len() - j,
    {
        na.push(amounts[j].copy());
        nk.push((keys[j].0.clone(), keys[j].1.copy()));
        proof {
            assert(amounts@.take(j + 1) =~= amounts@.take(j as int).push(amounts@[j as int]));
            assert(keys@.take(j + 1) =~= keys@.take(j as int).push(keys@[j as int]));
        }
        j = j + 1;
    }
    proof {
        assert(amounts@.take(amounts@.len() as int) =~= amounts@);
        assert(keys@.take(amounts@.len() as int) =~= keys@);
    }
    nk.push((currency.clone(), number.copy()));
    let ghost before = na@;
    na.push(t);
    proof {
        assert(!exists|q: int| is_first_lot(kv, currency@, *number, q));
        assert(key_views(nk@) =~= kv.push((currency@, *number)));
        lemma_zero_at(z, big);
        lemma_add_at(z, *delta, t, big);
        assert(values_at(na@, big) =~= values_at(amounts@, big).push(delta.at_scale(big)));
        lemma_zero_at(z, big);
        lemma_add_at(z, *delta, t, big);
        assert(na@.drop_last() =~= before);
        assert forall|q: int| 0 <= q < na@.len() implies #[trigger] na@[q].scl() <= big by {
            if q < before.len() {
                assert(na@[q] == before[q]);
            }
        }
    }
    Some((nk, na))
}

impl CommodityInventory {
    pub closed spec fn wf(&self) -> bool {
        &&& self.keys@.len() == self.amounts@.len()
        &&& sums_to(self.total, self.amounts@)
    }

    /// The commodity held.
    pub closed spec fn commodity(&self) -> Seq<char> {
        self.currency@
    }

    /// How much is held in all.
    pub closed spec fn spec_total(&self) -> Decimal {
        self.total
    }

    /// The lots, in order: each a commodity and a number.
    pub closed spec fn lot_keys(&self) -> Seq<(Seq<char>, Decimal)> {
        self.keys@.map_values(|k: (String, Decimal)| (k.0@, k.1))
    }

    /// How much is held in each lot.
    pub closed spec fn lot_amounts(&self) -> Seq<Decimal> {
        self.amounts@
    }

    /// The total is the sum of the lots.
    pub open spec fn consistent(&self) -> bool {
        sums_to(self.spec_total(), self.lot_amounts())
    }

    /// An empty inventory of a commodity, with its default lot: the commodity at one.
    pub fn new(currency: &str) -> (r: CommodityInventory)
        ensures
            r.wf(),
            r.commodity() == currency@,
            r.spec_total().mant() == 0,
            r.lot_keys().len() == 1,
            r.lot_keys()[0].0 == currency@,
            r.lot_keys()[0].1.mant() == 1 && r.lot_keys()[0].1.scl() == 0,
            r.lot_amounts().len() == 1,
            r.lot_amounts()[0].mant() == 0,
            r.consistent(),
            fresh_inventory(r, currency@),
    {
        let mut keys: Vec<(String, Decimal)> = Vec::new();
        keys.push((currency.to_owned(), Decimal::one()));
        let mut amounts: Vec<Decimal> = Vec::new();
        amounts.push(Decimal::zero());
        let r = CommodityInventory { currency: currency.to_owned(), total: Decimal::zero(), keys, amounts };
        proof {
            lemma_zero_at(r.total, 0);
            let ls = r.amounts@;
            assert(ls.drop_last() =~= Seq::<Decimal>::empty());
            assert(max_scale(ls.drop_last()) == 0);
            assert(ls.last() == ls[0]);
            assert(max_scale(ls) == 0);
            lemma_zero_at(ls[0], max_scale(ls));
            assert(sum_at(ls, max_scale(ls)) == sum_at(ls.drop_last(), max_scale(ls)) + ls[0].at_scale(max_scale(ls)));
        }
        r
    }

    /// The commodity held.
    pub fn currency(&self) -> (r: &String)
        ensures
            r@ == self.commodity(),
    {
        &self.currency
    }

    /// The total held.
    pub fn total(&self) -> (r: Decimal)
        ensures
            r == self.spec_total(),
    {
        self.total.copy()
    }

    fn find_lot(&self, currency: &String, number: &Decimal) -> (r: Option<usize>)
        requires
            self.wf(),
        ensures
            match r {
                Some(i) => i < self.keys@.len() && self.keys@[i as int].0@ == currency@
                    && self.keys@[i as int].1.same_value(*number),
                None => forall|i: int| 0 <= i < self.keys@.len() ==> !(#[trigger] self.keys@[i].0@ == currency@
                    && self.keys@[i].1.same_value(*number)),
            },
    {
        let mut i: usize = 0;
        while i < self.keys.len()
            invariant
                self.wf(),
                i <= self.keys@.len(),
                forall|j: int| 0 <= j < i ==> !(#[trigger] self.keys@[j].0@ == currency@ && self.keys@[j].1.same_value(
                    *number,
                )),
            decreases self.keys@.len() - i,
        {
            if self.keys[i].0 == *currency && self.keys[i].1.eq_value(number) {
                return Some(i);
            }
            i = i + 1;
        }
        None
    }
}

fn copy_keys(keys: &Vec<(String, Decimal)>) -> (r: Vec<(String, Decimal)>)
    ensures
        r@ == keys@,
{
    let mut r: Vec<(String, Decimal)> = Vec::new();
    let mut i: usize = 0;
    while i < keys.len()
        invariant
            i <= keys@.len(),
            r@ == keys@.take(i as int),
        decreases keys@.len() - i,
    {
        r.push((keys[i].0.clone(), keys[i].1.copy()));
        proof {
            assert(keys@.take(i + 1) =~= keys@.take(i as int).push(keys@[i as int]));
        }
        i = i + 1;
    }
    proof {
        assert(keys@.take(keys@.len() as int) =~= keys@);
    }
    r
}

/// Adding `number` to the holdings fits: the total and `number` have a sum that fits, and
/// so do the lot's amount (see `lot_add_fits`), or the sums of the spread and the rest that
/// goes to the default lot (always so: `CommodityInventory::insert` gives `true`).
pub open spec fn insert_fits(inv: CommodityInventory, number: Decimal, lot_info: LotInfo) -> bool {
    &&& sum_fits_at(inv.spec_total(), number, 1)
    &&& match lot_info {
        LotInfo::Lot(c, p) => lot_add_fits(inv.lot_keys(), inv.lot_amounts(), c@, p, number),
        _ => match spread_dec(inv.lot_amounts(), number, lot_info is Fifo, inv.lot_amounts().len()) {
            None => false,
            Some((ls, rest)) => rest.mant() == 0 || lot_add_fits(
                inv.lot_keys(),
                ls,
                inv.commodity(),
                Decimal::from_parts(1, 0),
                rest,
            ),
        },
    }
}

/// `inv` is the empty inventory of the commodity `c` with its default lot (see
/// `CommodityInventory::new`).
pub open spec fn fresh_inventory(inv: CommodityInventory, c: Seq<char>) -> bool {
    &&& inv.wf()
    &&& inv.commodity() == c
    &&& inv.spec_total().mant() == 0
    &&& inv.lot_keys().len() == 1
    &&& inv.lot_keys()[0].0 == c
    &&& inv.lot_keys()[0].1.mant() == 1 && inv.lot_keys()[0].1.scl() == 0
    &&& inv.lot_amounts().len() == 1
    &&& inv.lot_amounts()[0].mant() == 0
    &&& inv.consistent()
}

/// `after` is `inv` once `number` was added to it by `lot_info`, `ok` telling whether it fitted
/// (see `CommodityInventory::insert`).
pub open spec fn inserted(inv: CommodityInventory, number: Decimal, lot_info: LotInfo, after: CommodityInventory, ok: bool) -> bool {
    &&& after.wf()
    &&& after.commodity() == inv.commodity()
    &&& ok == insert_fits(inv, number, lot_info)
    &&& ok ==> ({
        let t = inv.spec_total();
        let s = max_nat(t.scl(), number.scl());
        &&& after.spec_total().scl() == s
        &&& after.spec_total().mant() == t.at_scale(s) + number.at_scale(s)
    })
    &&& ok && inv.consistent() ==> after.consistent()
    &&& ok ==> ({
        let b = max_nat(max_nat(inv.spec_total().scl(), max_scale(inv.lot_amounts())), number.scl());
        let vals = values_at(inv.lot_amounts(), b);
        let n = number.at_scale(b);
        let nv = values_at(after.lot_amounts(), b);
        &&& bounded(after.lot_amounts(), b)
        &&& match lot_info {
            LotInfo::Lot(c, p) => lot_added(inv.lot_keys(), vals, c@, p, n, after.lot_keys(), nv),
            _ => {
                let sp = spread_steps(vals, n, lot_info is Fifo, vals.len());
                if sp.1 == 0 {
                    after.lot_keys() == inv.lot_keys() && nv == sp.0
                } else {
                    lot_added(inv.lot_keys(), sp.0, inv.commodity(), Decimal::from_parts(1, 0), sp.1, after.lot_keys(), nv)
                }
            },
        }
    })
    &&& !ok ==> after.spec_total() == inv.spec_total() && after.lot_amounts() == inv.lot_amounts() && after.lot_keys()
        == inv.lot_keys()
}

/// Spreading never leaves a lot negative that was not.
proof fn lemma_spread_nonnegative(a: Seq<int>, number: int, forward: bool, k: nat)
    requires
        forall|i: int| 0 <= i < a.len() ==> #[trigger] a[i] >= 0,
        k <= a.len(),
    ensures
        spread_steps(a, number, forward, k).0.len() == a.len(),
        forall|i: int| 0 <= i < a.len() ==> #[trigger] spread_steps(a, number, forward, k).0[i] >= 0,
    decreases k,
{
    if k > 0 {
        lemma_spread_nonnegative(a, number, forward, (k - 1) as nat);
    }
}

/// Lot `i` comes before lot `j` in the order that a spread visits them: insertion order
/// forward, the reverse backward.
pub open spec fn visited_before(i: int, j: int, forward: bool) -> bool {
    if forward {
        i < j
    } else {
        i > j
    }
}

/// The first `k` steps of a spread over `n` lots reach lot `m`.
spec fn reached(n: int, m: int, k: int, forward: bool) -> bool {
    if forward {
        m < k
    } else {
        m >= n - k
    }
}

/// A spread only reaches a lot once every lot before it is empty: after any number of
/// steps, a lot that changed has every lot visited before it at zero, the lots not reached
/// are as they were, and while something is left every reached lot is empty.
proof fn lemma_spread_order(a: Seq<int>, number: int, forward: bool, k: nat)
    requires
        k <= a.len(),
    ensures
        spread_steps(a, number, forward, k).0.len() == a.len(),
        forall|m: int|
            0 <= m < a.len() && !reached(a.len() as int, m, k as int, forward) ==> #[trigger] spread_steps(
                a,
                number,
                forward,
                k,
            ).0[m] == a[m],
        spread_steps(a, number, forward, k).1 != 0 ==> forall|m: int|
            0 <= m < a.len() && reached(a.len() as int, m, k as int, forward) ==> #[trigger] spread_steps(
                a,
                number,
                forward,
                k,
            ).0[m] == 0,
        forall|i: int, j: int|
            0 <= i < a.len() && 0 <= j < a.len() && visited_before(i, j, forward) && #[trigger] spread_steps(
                a,
                number,
                forward,
                k,
            ).0[j] != a[j] ==> #[trigger] spread_steps(a, number, forward, k).0[i] == 0,
    decreases k,
{
    if k > 0 {
        lemma_spread_order(a, number, forward, (k - 1) as nat);
        let n = a.len() as int;
        let prev = spread_steps(a, number, forward, (k - 1) as nat);
        let cur = spread_steps(a, number, forward, k);
        if prev.1 != 0 {
            let j0 = step_index(n, k - 1, forward);
            assert(!reached(n, j0, k - 1, forward));
            assert(prev.0[j0] == a[j0]);
            assert forall|m: int| 0 <= m < n && !reached(n, m, k as int, forward) implies #[trigger] cur.0[m] == a[m] by {
                assert(m != j0);
                assert(!reached(n, m, k - 1, forward));
                assert(prev.0[m] == a[m]);
            }
            if cur.1 != 0 {
                assert forall|m: int| 0 <= m < n && reached(n, m, k as int, forward) implies #[trigger] cur.0[m] == 0 by {
                    if m != j0 {
                        assert(reached(n, m, k - 1, forward));
                        assert(prev.0[m] == 0);
                    }
                }
            }
            assert forall|i: int, j: int|
                0 <= i < n && 0 <= j < n && visited_before(i, j, forward) && #[trigger] cur.0[j] != a[j] implies #[trigger] cur.0[i]
                == 0 by {
                if j == j0 {
                    assert(i != j0);
                    assert(reached(n, i, k - 1, forward));
                    assert(prev.0[i] == 0);
                } else {
                    assert(cur.0[j] == prev.0[j]);
                    if reached(n, j, k - 1, forward) {
                        assert(prev.0[j] != a[j]);
                        if i != j0 {
                            assert(prev.0[i] == 0);
                        } else {
                            assert(!reached(n, i, k - 1, forward));
                            assert(false);
                        }
                    } else {
                        assert(prev.0[j] == a[j]);
                    }
                }
            }
        }
    }
}

/// When some lot has the commodity and number, a first one has.
proof fn lemma_first_lot_exists(keys: Seq<(Seq<char>, Decimal)>, c: Seq<char>, p: Decimal, i: int)
    requires
        0 <= i < keys.len(),
        keys[i].0 == c && keys[i].1.same_value(p),
    ensures
        exists|m: int| is_first_lot(keys, c, p, m),
    decreases i,
{
    if exists|j: int| 0 <= j < i && #[trigger] keys[j].0 == c && keys[j].1.same_value(p) {
        let j = choose|j: int| 0 <= j < i && #[trigger] keys[j].0 == c && keys[j].1.same_value(p);
        lemma_first_lot_exists(keys, c, p, j);
    } else {
        assert(is_first_lot(keys, c, p, i));
    }
}

/// A number scaled up is zero exactly when the number is.
proof fn lemma_scaled_zero(d: Decimal, big: nat)
    requires
        d.scl() <= big,
    ensures
        (d.at_scale(big) == 0) == (d.mant() == 0),
{
    lemma_pow10_positive((big - d.scl()) as nat);
    let p = pow10((big - d.scl()) as nat);
    assert((d.mant() * p == 0) == (d.mant() == 0)) by (nonlinear_arith)
        requires p >= 1;
}

/// Equal numbers at a common scale denote the same number.
proof fn lemma_same_at_scale(x: Decimal, y: Decimal, b: nat)
    requires
        x.scl() <= b,
        y.scl() <= b,
        x.at_scale(b) == y.at_scale(b),
    ensures
        x.same_value(y),
{
    let px = pow10((b - x.scl()) as nat);
    let py = pow10((b - y.scl()) as nat);
    let sx = pow10(x.scl());
    let sy = pow10(y.scl());
    crate::decimal::lemma_pow10_add((b - x.scl()) as nat, x.scl());
    crate::decimal::lemma_pow10_add((b - y.scl()) as nat, y.scl());
    assert(((b - x.scl()) as nat + x.scl()) as nat == b);
    assert(((b - y.scl()) as nat + y.scl()) as nat == b);
    let pb = pow10(b);
    lemma_pow10_positive(b);
    assert(pb == px * sx);
    assert(pb == py * sy);
    let xm = x.mant();
    let ym = y.mant();
    assert(xm * px == ym * py);
    assert(xm * sy * pb == ym * sx * pb) by (nonlinear_arith)
        requires xm * px == ym * py, pb == px * sx, pb == py * sy;
    assert(xm * sy == ym * sx) by (nonlinear_arith)
        requires xm * sy * pb == ym * sx * pb, pb >= 1;
}

/// A number and its value scaled up have the same sign.
proof fn lemma_scaled_sign(d: Decimal, big: nat)
    requires
        d.scl() <= big,
    ensures
        (d.at_scale(big) >= 0) == (d.mant() >= 0),
{
    lemma_pow10_positive((big - d.scl()) as nat);
    let p = pow10((big - d.scl()) as nat);
    assert((d.mant() * p >= 0) == (d.mant() >= 0)) by (nonlinear_arith)
        requires p >= 1;
}

impl CommodityInventory {
    /// The total is always the sum of the lots.
    pub proof fn law_total_is_sum_of_lots(&self)
        requires
            self.wf(),
        ensures
            self.consistent(),
    {
    }

    /// An amount added to a named lot goes to the first lot of that commodity and number,
    /// which gains exactly that amount while every other lot keeps its amount; with no such
    /// lot, a lot of that commodity and number is opened at the end holding the amount.
    #[verifier::rlimit(60)]
    pub proof fn law_named_lot_gains_the_amount(
        inv: CommodityInventory,
        number: Decimal,
        c: String,
        p: Decimal,
        after: CommodityInventory,
        ok: bool,
    )
        requires
            inv.wf(),
            inserted(inv, number, LotInfo::Lot(c, p), after, ok),
            ok,
        ensures
            forall|i: int|
                0 <= i < inv.lot_keys().len() && inv.lot_keys()[i].0 == c@ && inv.lot_keys()[i].1.same_value(p) && (forall|j: int|
                    0 <= j < i ==> !(#[trigger] inv.lot_keys()[j].0 == c@ && inv.lot_keys()[j].1.same_value(p)))
                    ==> after.lot_keys() == inv.lot_keys() && (exists|s: nat|
                    s >= inv.lot_amounts()[i].scl() && s >= number.scl() && s >= after.lot_amounts()[i].scl()
                        && #[trigger] after.lot_amounts()[i].at_scale(s) == inv.lot_amounts()[i].at_scale(s) + number.at_scale(s))
                    && forall|k: int|
                    0 <= k < inv.lot_amounts().len() && k != i ==> (#[trigger] after.lot_amounts()[k]).same_value(
                        inv.lot_amounts()[k],
                    ),
            !(exists|i: int| 0 <= i < inv.lot_keys().len() && #[trigger] inv.lot_keys()[i].0 == c@ && inv.lot_keys()[i].1.same_value(p))
                ==> after.lot_keys() == inv.lot_keys().push((c@, p)) && after.lot_amounts().len() == inv.lot_amounts().len() + 1
                && after.lot_amounts().last().same_value(number) && forall|k: int|
                0 <= k < inv.lot_amounts().len() ==> (#[trigger] after.lot_amounts()[k]).same_value(inv.lot_amounts()[k]),
    {
        let n = inv.lot_amounts().len() as int;
        assert(inv.lot_keys().len() == n);
        let b = max_nat(max_nat(inv.spec_total().scl(), max_scale(inv.lot_amounts())), number.scl());
        let vals = values_at(inv.lot_amounts(), b);
        let nv = values_at(after.lot_amounts(), b);
        assert(bounded(after.lot_amounts(), b));
        lemma_max_bounded(inv.lot_amounts());
        assert(lot_added(inv.lot_keys(), vals, c@, p, number.at_scale(b), after.lot_keys(), nv));
        assert(nv.len() >= n) by {
            if exists|i: int| is_first_lot(inv.lot_keys(), c@, p, i) {
                let q = choose|i: int| is_first_lot(inv.lot_keys(), c@, p, i);
                assert(nv == vals.update(q, vals[q] + number.at_scale(b)));
            } else {
                assert(nv == vals.push(number.at_scale(b)));
            }
        }
        assert(nv.len() == after.lot_amounts().len());
        assert forall|k: int| 0 <= k < n && nv[k] == vals[k] implies (#[trigger] after.lot_amounts()[k]).same_value(
            inv.lot_amounts()[k],
        ) by {
            assert(inv.lot_amounts()[k].scl() <= b);
            assert(after.lot_amounts()[k].scl() <= b);
            lemma_same_at_scale(after.lot_amounts()[k], inv.lot_amounts()[k], b);
        }
        if exists|i: int| is_first_lot(inv.lot_keys(), c@, p, i) {
            let q = choose|i: int| is_first_lot(inv.lot_keys(), c@, p, i);
            assert forall|i: int|
                0 <= i < inv.lot_keys().len() && inv.lot_keys()[i].0 == c@ && inv.lot_keys()[i].1.same_value(p) && (forall|j: int|
                    0 <= j < i ==> !(#[trigger] inv.lot_keys()[j].0 == c@ && inv.lot_keys()[j].1.same_value(p))) implies after.lot_keys()
                == inv.lot_keys() && (exists|s: nat|
                s >= inv.lot_amounts()[i].scl() && s >= number.scl() && s >= after.lot_amounts()[i].scl()
                    && #[trigger] after.lot_amounts()[i].at_scale(s) == inv.lot_amounts()[i].at_scale(s) + number.at_scale(s))
                && forall|k: int|
                0 <= k < inv.lot_amounts().len() && k != i ==> (#[trigger] after.lot_amounts()[k]).same_value(
                    inv.lot_amounts()[k],
                ) by {
                if i < q {
                    assert(!(inv.lot_keys()[i].0 == c@ && inv.lot_keys()[i].1.same_value(p)));
                } else if i > q {
                    assert(!(inv.lot_keys()[q].0 == c@ && inv.lot_keys()[q].1.same_value(p)));
                }
                assert(i == q);
                assert(nv.len() == vals.len());
                assert(after.lot_amounts()[i].scl() <= b);
                assert(nv[i] == vals[i] + number.at_scale(b));
                assert(inv.lot_amounts()[i].scl() <= b);
                assert(after.lot_amounts()[i].at_scale(b) == inv.lot_amounts()[i].at_scale(b) + number.at_scale(b));
                assert forall|k: int| 0 <= k < n && k != i implies (#[trigger] after.lot_amounts()[k]).same_value(
                    inv.lot_amounts()[k],
                ) by {
                    assert(nv[k] == vals[k]);
                }
            }
        } else {
            assert forall|i: int| !(0 <= i < inv.lot_keys().len() && #[trigger] inv.lot_keys()[i].0 == c@ && inv.lot_keys()[i].1.same_value(p)) by {
                if 0 <= i < inv.lot_keys().len() && inv.lot_keys()[i].0 == c@ && inv.lot_keys()[i].1.same_value(p) {
                    lemma_first_lot_exists(inv.lot_keys(), c@, p, i);
                }
            }
            assert(nv == vals.push(number.at_scale(b)));
            assert(nv.len() == after.lot_amounts().len());
            assert forall|k: int| 0 <= k < n implies (#[trigger] after.lot_amounts()[k]).same_value(inv.lot_amounts()[k]) by {
                assert(nv[k] == vals[k]);
            }
            let last = after.lot_amounts().last();
            assert(last == after.lot_amounts()[n]);
            assert(last.scl() <= b);
            assert(nv[n] == number.at_scale(b));
            lemma_same_at_scale(last, number, b);
        }
    }

    /// A reduction first in first out (`Fifo`) takes from the lots in the order they were
    /// opened, and first in last out (`Filo`) in the reverse order: when a lot changes, every
    /// lot that comes before it in that order is empty afterwards, but for the default lot of
    /// the commodity at one, which takes what is left.
    pub proof fn law_spread_takes_lots_in_order(
        inv: CommodityInventory,
        number: Decimal,
        lot_info: LotInfo,
        after: CommodityInventory,
        ok: bool,
    )
        requires
            inv.wf(),
            inserted(inv, number, lot_info, after, ok),
            !(lot_info is Lot),
        ensures
            forall|i: int, j: int|
                0 <= i < inv.lot_amounts().len() && 0 <= j < inv.lot_amounts().len() && (if lot_info is Fifo {
                    i < j
                } else {
                    j < i
                }) && !(#[trigger] after.lot_amounts()[j]).same_value(inv.lot_amounts()[j]) ==> (#[trigger] after.lot_amounts()[i]).mant()
                    == 0 || (inv.lot_keys()[i].0 == inv.commodity() && inv.lot_keys()[i].1.same_value(Decimal::from_parts(1, 0))),
    {
        let n = inv.lot_amounts().len() as int;
        assert(inv.lot_keys().len() == n);
        if !ok {
            assert forall|i: int, j: int|
                0 <= i < n && 0 <= j < n && visited_before(i, j, lot_info is Fifo) && !(#[trigger] after.lot_amounts()[j]).same_value(
                    inv.lot_amounts()[j],
                ) implies (#[trigger] after.lot_amounts()[i]).mant() == 0 || (inv.lot_keys()[i].0 == inv.commodity()
                && inv.lot_keys()[i].1.same_value(Decimal::from_parts(1, 0))) by {
                assert(after.lot_amounts()[j] == inv.lot_amounts()[j]);
            }
        } else {
            let b = max_nat(max_nat(inv.spec_total().scl(), max_scale(inv.lot_amounts())), number.scl());
            let vals = values_at(inv.lot_amounts(), b);
            let nv = values_at(after.lot_amounts(), b);
            let fw = lot_info is Fifo;
            assert(bounded(after.lot_amounts(), b));
            assert(nv.len() == after.lot_amounts().len());
            lemma_max_bounded(inv.lot_amounts());
            lemma_spread_order(vals, number.at_scale(b), fw, vals.len());
            let sp = spread_steps(vals, number.at_scale(b), fw, vals.len());
            let c = inv.commodity();
            let one = Decimal::from_parts(1, 0);
            assert forall|i: int, j: int|
                0 <= i < n && 0 <= j < n && visited_before(i, j, fw) && !(#[trigger] after.lot_amounts()[j]).same_value(
                    inv.lot_amounts()[j],
                ) implies (#[trigger] after.lot_amounts()[i]).mant() == 0 || (inv.lot_keys()[i].0 == c
                && inv.lot_keys()[i].1.same_value(one)) by {
                assert(inv.lot_amounts()[j].scl() <= b);
                assert(j < nv.len() && i < nv.len()) by {
                    assert(sp.0.len() == n);
                }
                assert(after.lot_amounts()[j].scl() <= b);
                assert(after.lot_amounts()[i].scl() <= b);
                assert(nv[j] == after.lot_amounts()[j].at_scale(b));
                assert(vals[j] == inv.lot_amounts()[j].at_scale(b));
                assert(nv[i] == after.lot_amounts()[i].at_scale(b));
                if nv[j] == vals[j] {
                    lemma_same_at_scale(after.lot_amounts()[j], inv.lot_amounts()[j], b);
                }
                assert(nv[j] != vals[j]);
                lemma_scaled_zero(after.lot_amounts()[i], b);
                if sp.1 == 0 {
                    assert(nv == sp.0);
                    assert(sp.0[i] == 0);
                } else {
                    if exists|q: int| is_first_lot(inv.lot_keys(), c, one, q) {
                        let q = choose|q: int| is_first_lot(inv.lot_keys(), c, one, q);
                        if i != q {
                            assert(nv[i] == sp.0[i]);
                            if j != q {
                                assert(nv[j] == sp.0[j]);
                                assert(sp.0[i] == 0);
                            } else {
                                assert(sp.0[i] == 0);
                            }
                        }
                    } else {
                        assert(nv[i] == sp.0[i]);
                        assert(nv[j] == sp.0[j]);
                        assert(sp.0[i] == 0);
                    }
                }
            }
        }
    }

    /// Spreading an amount first in first out (or first in last out) over lots that are all
    /// non-negative leaves every lot non-negative but the default lot of the commodity at one.
    pub proof fn law_spread_keeps_lots_nonnegative(
        inv: CommodityInventory,
        number: Decimal,
        lot_info: LotInfo,
        after: CommodityInventory,
        ok: bool,
    )
        requires
            inv.wf(),
            inserted(inv, number, lot_info, after, ok),
            !(lot_info is Lot),
            forall|i: int| 0 <= i < inv.lot_amounts().len() ==> (#[trigger] inv.lot_amounts()[i]).mant() >= 0,
        ensures
            forall|i: int|
                0 <= i < after.lot_amounts().len() && !(after.lot_keys()[i].0 == inv.commodity()
                    && after.lot_keys()[i].1.same_value(Decimal::from_parts(1, 0))) ==> (#[trigger] after.lot_amounts()[i]).mant()
                    >= 0,
    {
        if ok {
            let b = max_nat(max_nat(inv.spec_total().scl(), max_scale(inv.lot_amounts())), number.scl());
            let vals = values_at(inv.lot_amounts(), b);
            let nv = values_at(after.lot_amounts(), b);
            lemma_max_bounded(inv.lot_amounts());
            assert forall|i: int| 0 <= i < vals.len() implies #[trigger] vals[i] >= 0 by {
                lemma_scaled_sign(inv.lot_amounts()[i], b);
            }
            lemma_spread_nonnegative(vals, number.at_scale(b), lot_info is Fifo, vals.len());
            let sp = spread_steps(vals, number.at_scale(b), lot_info is Fifo, vals.len());
            assert forall|i: int|
                0 <= i < after.lot_amounts().len() && !(after.lot_keys()[i].0 == inv.commodity()
                    && after.lot_keys()[i].1.same_value(Decimal::from_parts(1, 0))) implies (#[trigger] after.lot_amounts()[i]).mant()
                    >= 0 by {
                lemma_scaled_sign(after.lot_amounts()[i], b);
                assert(nv[i] == after.lot_amounts()[i].at_scale(b));
                if sp.1 != 0 {
                    let c = inv.commodity();
                    let one = Decimal::from_parts(1, 0);
                    if exists|j: int| is_first_lot(inv.lot_keys(), c, one, j) {
                        let j = choose|j: int| is_first_lot(inv.lot_keys(), c, one, j);
                        if i != j {
                            assert(nv[i] == sp.0[i]);
                        }
                    } else {
                        if i < sp.0.len() {
                            assert(nv[i] == sp.0[i]);
                        } else {
                            assert(inv.lot_keys().len() == inv.lot_amounts().len());
                            assert(nv == sp.0.push(sp.1));
                            assert(nv.len() == after.lot_amounts().len());
                            assert(sp.0.len() == vals.len());
                            assert(i == inv.lot_keys().len());
                            assert(after.lot_keys()[i] == (c, one));
                            crate::decimal::lemma_from_parts(1, 0);
                        }
                    }
                }
            }
        }
    }
}

impl CommodityInventory {
    /// Adds `number` to the holdings: to the named lot (opened at the end when new), or
    /// spread over the lots in order (`Fifo`) or in reverse order (`Filo`), what is left going
    /// to the default lot. The total gains `number` as `Decimal::checked_add` adds. Gives
    /// `true`.
    pub fn insert(&mut self, number: &Decimal, lot_info: LotInfo) -> (ok: bool)
        requires
            old(self).wf(),
        ensures
            final(self).wf(),
            final(self).commodity() == old(self).commodity(),
            ok == insert_fits(*old(self), *number, lot_info),
            ok ==> ({
                let t = old(self).spec_total();
                let s = max_nat(t.scl(), number.scl());
                &&& final(self).spec_total().scl() == s
                &&& final(self).spec_total().mant() == t.at_scale(s) + number.at_scale(s)
            }),
            ok && old(self).consistent() ==> final(self).consistent(),
            ok ==> ({
                let b = max_nat(max_nat(old(self).spec_total().scl(), max_scale(old(self).lot_amounts())), number.scl());
                let vals = values_at(old(self).lot_amounts(), b);
                let n = number.at_scale(b);
                let nv = values_at(final(self).lot_amounts(), b);
                &&& bounded(final(self).lot_amounts(), b)
                &&& match lot_info {
                    LotInfo::Lot(c, p) => lot_added(old(self).lot_keys(), vals, c@, p, n, final(self).lot_keys(), nv),
                    _ => {
                        let sp = spread_steps(vals, n, lot_info is Fifo, vals.len());
                        if sp.1 == 0 {
                            final(self).lot_keys() == old(self).lot_keys() && nv == sp.0
                        } else {
                            lot_added(old(self).lot_keys(), sp.0, old(self).commodity(), Decimal::from_parts(1, 0), sp.1, final(self).lot_keys(), nv)
                        }
                    },
                }
            }),
            !ok ==> final(self).spec_total() == old(self).spec_total() && final(self).lot_amounts() == old(
                self,
            ).lot_amounts() && final(self).lot_keys() == old(self).lot_keys(),
            inserted(*old(self), *number, lot_info, *final(self), ok),
            ok,
    {
        let ghost big = max_nat(max_nat(self.total.scl(), max_scale(self.amounts@)), number.scl());
        proof {
            assert(self.lot_keys() =~= key_views(self.keys@));
            lemma_max_bounded(self.amounts@);
            assert forall|i: int| 0 <= i < self.amounts@.len() implies #[trigger] self.amounts@[i].scl() <= big by {
            }
        }
        let new_total = match self.total.checked_add(number) {
            Some(t) => t,
            None => return false,
        };
        let (nk, na) = match lot_info {
            LotInfo::Lot(c, p) => match add_to_lot(&self.keys, &self.amounts, &c, &p, number, Ghost(big)) {
                Some(x) => x,
                None => return false,
            },
            LotInfo::Fifo | LotInfo::Filo => {
                let forward = match lot_info {
                    LotInfo::Fifo => true,
                    _ => false,
                };
                let (na1, rest) = match spread(&self.amounts, number, forward, Ghost(big)) {
                    Some(x) => x,
                    None => return false,
                };
                proof {
                    lemma_pow10_positive((big - rest.scl()) as nat);
                    let p = pow10((big - rest.scl()) as nat);
                    assert((rest.mant() == 0) == (rest.mant() * p == 0)) by (nonlinear_arith)
                        requires p >= 1;
                }
                if rest.is_zero() {
                    proof {
                        let p = pow10((big - rest.scl()) as nat);
                        assert(0 * p == 0) by (nonlinear_arith);
                    }
                    (copy_keys(&self.keys), na1)
                } else {
                    let one = Decimal::one();
                    proof {
                        lemma_from_parts(1, 0);
                        lemma_decimal_parts(one, Decimal::from_parts(1, 0));
                    }
                    match add_to_lot(&self.keys, &na1, &self.currency, &one, &rest, Ghost(big)) {
                        Some(x) => x,
                        None => return false,
                    }
                }
            },
        };
        proof {
            lemma_add_at(self.total, *number, new_total, big);
            lemma_bounded_max(na@, big);
            if self.consistent() {
                lemma_sums_to_up(self.total, self.amounts@, big);
                lemma_sums_to_down(new_total, na@, big);
            }
        }
        self.total = new_total;
        self.keys = nk;
        self.amounts = na;
        proof {
            assert(self.lot_keys() =~= key_views(self.keys@));
            assert(big == max_nat(max_nat(old(self).spec_total().scl(), max_scale(old(self).lot_amounts())), number.scl()));
        }
        true
    }

    /// The lots in order: commodity, number and amount of each.
    pub fn lots(&self) -> (r: Vec<(String, Decimal, Decimal)>)
        requires
            self.wf(),
        ensures
            r@.len() == self.lot_keys().len(),
            forall|i: int| 0 <= i < r@.len() ==> (#[trigger] r@[i]).0@ == self.lot_keys()[i].0 && r@[i].1
                == self.lot_keys()[i].1 && r@[i].2 == self.lot_amounts()[i],
    {
        let mut r: Vec<(String, Decimal, Decimal)> = Vec::new();
        let mut i: usize = 0;
        while i < self.keys.len()
            invariant
                self.wf(),
                i <= self.keys@.len(),
                r@.len() == i,
                forall|j: int| 0 <= j < i ==> (#[trigger] r@[j]).0@ == self.lot_keys()[j].0 && r@[j].1
                    == self.lot_keys()[j].1 && r@[j].2 == self.lot_amounts()[j],
            decreases self.keys@.len() - i,
        {
            r.push((self.keys[i].0.clone(), self.keys[i].1.copy(), self.amounts[i].copy()));
            i = i + 1;
        }
        r
    }
}

} // verus!
