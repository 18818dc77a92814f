use vstd::prelude::*;

use crate::date::NaiveDateTime;
use crate::decimal::Decimal;
use crate::keys::OrdKey;
use crate::latest_map::{is_latest, LatestMap};

verus! {

/// The prices between commodities known at one moment.
#[derive(Debug, Clone)]
pub struct PriceGrip {
    entries: Vec<(String, String, Decimal)>,
}

/// The entry `i` is the first one for the pair.
pub open spec fn first_for(es: Seq<(Seq<char>, Seq<char>, Decimal)>, from: Seq<char>, to: Seq<char>, i: int) -> bool {
    &&& 0 <= i < es.len()
    &&& es[i].0 == from
    &&& es[i].1 == to
    &&& forall|j: int| 0 <= j < i ==> !(#[trigger] es[j].0 == from && es[j].1 == to)
}

/// The price of `from` in `to`: the first entry for the pair.
pub open spec fn price_in(es: Seq<(Seq<char>, Seq<char>, Decimal)>, from: Seq<char>, to: Seq<char>) -> Option<Decimal> {
    if exists|i: int| first_for(es, from, to, i) {
        Some(es[choose|i: int| first_for(es, from, to, i)].2)
    } else {
        None
    }
}

proof fn lemma_first_unique(es: Seq<(Seq<char>, Seq<char>, Decimal)>, from: Seq<char>, to: Seq<char>, i: int, j: int)
    requires
        first_for(es, from, to, i),
        first_for(es, from, to, j),
    ensures
        i == j,
{
    if i < j {
        assert(!(es[i].0 == from && es[i].1 == to));
    } else if j < i {
        assert(!(es[j].0 == from && es[j].1 == to));
    }
}

impl PriceGrip {
    pub closed spec fn entry_views(&self) -> Seq<(Seq<char>, Seq<char>, Decimal)> {
        self.entries@.map_values(|e: (String, String, Decimal)| (e.0@, e.1@, e.2))
    }

    /// The price of `from` in `to`, if known.
    pub open spec fn price(&self, from: Seq<char>, to: Seq<char>) -> Option<Decimal> {
        price_in(self.entry_views(), from, to)
    }

    /// No prices.
    pub fn new() -> (r: PriceGrip)
        ensures
            forall|a: Seq<char>, b: Seq<char>| #[trigger] r.price(a, b) is None,
    {
        let r = PriceGrip { entries: Vec::new() };
        proof {
            assert forall|a: Seq<char>, b: Seq<char>| #[trigger] r.price(a, b) is None by {
                assert(r.entry_views().len() == 0);
            }
        }
        r
    }

    /// Sets the price of `from` in `to`.
    pub fn insert(&mut self, from: String, to: String, amount: Decimal)
        ensures
            final(self).price(from@, to@) == Some(amount),
            forall|a: Seq<char>, b: Seq<char>| !(a == from@ && b == to@) ==> #[trigger] final(self).price(a, b) == old(
                self,
            ).price(a, b),
    {
        let ghost ev = self.entry_views();
        let ghost f = from@;
        let ghost t = to@;
        let mut i: usize = 0;
        while i < self.entries.len()
            invariant
                ev == self.entry_views(),
                self.entries@ == old(self).entries@,
                i <= self.entries@.len(),
                f == from@,
                t == to@,
                forall|j: int| 0 <= j < i ==> !(#[trigger] ev[j].0 == f && ev[j].1 == t),
            decreases self.entries@.len() - i,
        {
            if self.entries[i].0 == from && self.entries[i].1 == to {
                let ghost k = i as int;
                self.entries.set(i, (from, to, amount));
                proof {
                    let nv = self.entry_views();
                    assert(nv =~= ev.update(k, (f, t, amount)));
                    assert(first_for(ev, f, t, k));
                    assert(first_for(nv, f, t, k));
                    assert(exists|q: int| first_for(nv, f, t, q));
                    let q = choose|q: int| first_for(nv, f, t, q);
                    lemma_first_unique(nv, f, t, q, k);
                    assert forall|a: Seq<char>, b: Seq<char>| !(a == f && b == t) implies #[trigger] self.price(a, b)
                        == old(self).price(a, b) by {
                        assert forall|j: int| 0 <= j < nv.len() implies (#[trigger] nv[j].0 == a && nv[j].1 == b)
                            == (ev[j].0 == a && ev[j].1 == b) by {
                            if j == k {
                                assert(nv[j].0 == f && nv[j].1 == t);
                                assert(ev[j].0 == f && ev[j].1 == t);
                            } else {
                                assert(nv[j] == ev[j]);
                            }
                        }
                        assert forall|q: int| first_for(nv, a, b, q) <==> first_for(ev, a, b, q) by {
                            if first_for(nv, a, b, q) {
                                assert forall|j: int| 0 <= j < q implies !(#[trigger] ev[j].0 == a && ev[j].1 == b) by {
                                    assert(!(nv[j].0 == a && nv[j].1 == b));
                                }
                            }
                            if first_for(ev, a, b, q) {
                                assert forall|j: int| 0 <= j < q implies !(#[trigger] nv[j].0 == a && nv[j].1 == b) by {
                                    assert(!(ev[j].0 == a && ev[j].1 == b));
                                }
                            }
                        }
                        if exists|q: int| first_for(ev, a, b, q) {
                            let q1 = choose|q: int| first_for(ev, a, b, q);
                            let q2 = choose|q: int| first_for(nv, a, b, q);
                            lemma_first_unique(ev, a, b, q1, q2);
                            assert(nv[q1] == ev[q1]);
                        }
                    }
                }
                return;
            }
            i = i + 1;
        }
        self.entries.push((from, to, amount));
        proof {
            let nv = self.entry_views();
            let n = ev.len() as int;
            assert(nv =~= ev.push((f, t, amount)));
            assert(first_for(nv, f, t, n));
            let q = choose|q: int| first_for(nv, f, t, q);
            lemma_first_unique(nv, f, t, q, n);
            assert forall|a: Seq<char>, b: Seq<char>| !(a == f && b == t) implies #[trigger] self.price(a, b) == old(
                self,
            ).price(a, b) by {
                assert forall|q: int| first_for(nv, a, b, q) <==> first_for(ev, a, b, q) by {
                    if first_for(ev, a, b, q) {
                        assert forall|j: int| 0 <= j < q implies !(#[trigger] nv[j].0 == a && nv[j].1 == b) by {
                            assert(nv[j] == ev[j]);
                        }
                        assert(nv[q] == ev[q]);
                    }
                    if first_for(nv, a, b, q) {
                        assert(q != n);
                        assert(nv[q] == ev[q]);
                        assert forall|j: int| 0 <= j < q implies !(#[trigger] ev[j].0 == a && ev[j].1 == b) by {
                            assert(nv[j] == ev[j]);
                        }
                    }
                }
                if exists|q: int| first_for(ev, a, b, q) {
                    let q1 = choose|q: int| first_for(ev, a, b, q);
                    let q2 = choose|q: int| first_for(nv, a, b, q);
                    lemma_first_unique(ev, a, b, q1, q2);
                    assert(nv[q1] == ev[q1]);
                }
            }
        }
    }

    /// The price of `from` in `to`, if known.
    pub fn get(&self, from: &String, to: &String) -> (r: Option<Decimal>)
        ensures
            r == self.price(from@, to@),
    {
        let ghost ev = self.entry_views();
        let mut i: usize = 0;
        while i < self.entries.len()
            invariant
                ev == self.entry_views(),
                i <= self.entries@.len(),
                forall|j: int| 0 <= j < i ==> !(#[trigger] ev[j].0 == from@ && ev[j].1 == to@),
            decreases self.entries@.len() - i,
        {
            if self.entries[i].0 == *from && self.entries[i].1 == *to {
                proof {
                    assert(first_for(ev, from@, to@, i as int));
                    let q = choose|q: int| first_for(ev, from@, to@, q);
                    lemma_first_unique(ev, from@, to@, q, i as int);
                }
                return Some(self.entries[i].2.copy());
            }
            i = i + 1;
        }
        proof {
            assert(!exists|q: int| first_for(ev, from@, to@, q));
        }
        None
    }
}

impl Default for PriceGrip {
    fn default() -> (r: PriceGrip)
        ensures
            forall|a: Seq<char>, b: Seq<char>| #[trigger] r.price(a, b) is None,
    {
        PriceGrip::new()
    }
}

/// Prices as they were known at each moment.
#[derive(Debug, Clone)]
pub struct DatedPriceGrip {
    pub inner: LatestMap<NaiveDateTime, PriceGrip>,
}

/// The price of `from` in `to` at the latest moment not after `r` that has prices; `None`
/// when there is no such moment or it has no price for the pair.
pub open spec fn latest_price(m: Map<int, PriceGrip>, r: int, from: Seq<char>, to: Seq<char>) -> Option<Decimal> {
    if exists|x: int| is_latest(m, r, x) {
        m[choose|x: int| is_latest(m, r, x)].price(from, to)
    } else {
        None
    }
}

proof fn lemma_latest_unique<V>(m: Map<int, V>, r: int, x: int, y: int)
    requires
        is_latest(m, r, x),
        is_latest(m, r, y),
    ensures
        x == y,
{
}

impl DatedPriceGrip {
    pub closed spec fn wf(&self) -> bool {
        self.inner.wf()
    }

    /// The price grips by the rank of their moment.
    pub closed spec fn grips(&self) -> Map<int, PriceGrip> {
        self.inner@
    }

    /// No prices at any moment.
    pub fn new() -> (r: DatedPriceGrip)
        ensures
            r.wf(),
            r.grips() == Map::<int, PriceGrip>::empty(),
    {
        DatedPriceGrip { inner: LatestMap::new() }
    }

    /// Records the price of `from` in `to` at a moment.
    pub fn insert(&mut self, date: NaiveDateTime, from: String, to: String, amount: Decimal)
        requires
            old(self).wf(),
        ensures
            final(self).wf(),
            final(self).grips().dom() == old(self).grips().dom().insert(date.rank()),
            final(self).grips()[date.rank()].price(from@, to@) == Some(amount),
            forall|a: Seq<char>, b: Seq<char>| !(a == from@ && b == to@) ==> #[trigger] final(self).grips()[date.rank()].price(a, b)
                == if old(self).grips().dom().contains(date.rank()) {
                old(self).grips()[date.rank()].price(a, b)
            } else {
                None
            },
            forall|k: int| k != date.rank() ==> #[trigger] final(self).grips().dom().contains(k) == old(self).grips().dom().contains(k)
                && (old(self).grips().dom().contains(k) ==> final(self).grips()[k] == old(self).grips()[k]),
    {
        if !self.inner.contains_key(&date) {
            self.inner.insert(date, PriceGrip::new());
        }
        let ghost mid = self.inner@;
        match self.inner.get_mut(&date) {
            Some(grip) => {
                grip.insert(from, to, amount);
            },
            None => {},
        }
        proof {
            assert(mid.dom().contains(date.rank()));
            assert(self.inner@.dom() =~= old(self).inner@.dom().insert(date.rank()));
        }
    }

    /// `number` of `from` in `to` at a moment: the number itself when the commodities are the
    /// same, else the number times the latest known price (zero without one); `None` when the
    /// product's scale does not fit its field.
    pub fn calculate(&self, date: &NaiveDateTime, from: &String, to: &String, number: &Decimal) -> (r: Option<Decimal>)
        requires
            self.wf(),
        ensures
            from@ == to@ ==> r == Some(*number),
            from@ != to@ ==> ({
                let p = latest_price(self.grips(), date.rank(), from@, to@);
                let pm = if p is Some { p.unwrap().mant() } else { 0 };
                let ps = if p is Some { p.unwrap().scl() } else { 0 };
                match r {
                    Some(d) => d.mant() == number.mant() * pm && d.scl() == number.scl() + ps,
                    None => !(crate::decimal::fits_mantissa(number.mant() * pm) && number.scl() + ps <= u32::MAX),
                }
            }),
    {
        if *from == *to {
            return Some(number.copy());
        }
        let price = match self.inner.get_latest(date) {
            Some(grip) => {
                proof {
                    let x = choose|x: int| is_latest(self.inner@, date.rank(), x) && *grip == self.inner@[x];
                    let y = choose|x: int| is_latest(self.inner@, date.rank(), x);
                    lemma_latest_unique(self.inner@, date.rank(), x, y);
                }
                grip.get(from, to)
            },
            None => {
                proof {
                    if exists|x: int| is_latest(self.inner@, date.rank(), x) {
                        let x = choose|x: int| is_latest(self.inner@, date.rank(), x);
                        assert(self.inner@.dom().contains(x));
                    }
                }
                None
            },
        };
        let p = match price {
            Some(p) => p,
            None => Decimal::zero(),
        };
        number.checked_mul(&p)
    }
}

impl Default for DatedPriceGrip {
    fn default() -> (r: DatedPriceGrip)
        ensures
            r.wf(),
            r.grips() == Map::<int, PriceGrip>::empty(),
    {
        DatedPriceGrip::new()
    }
}

} // verus!
