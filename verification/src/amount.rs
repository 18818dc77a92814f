use vstd::prelude::*;

use crate::decimal::{decimal_text, Decimal, fits_mantissa};

verus! {

/// A number of units of a commodity.
#[derive(Debug, Clone, PartialEq, Eq)]
pub struct Amount {
    pub number: Decimal,
    pub currency: String,
}

/// How an amount is written: its number, a space, its commodity.
pub open spec fn amount_text(a: Amount) -> Seq<char> {
    decimal_text(a.number.mant(), a.number.scl()) + seq![' '] + a.currency@
}

impl Amount {
    pub fn new(number: Decimal, currency: &str) -> (r: Amount)
        ensures
            r.number == number,
            r.currency@ == currency@,
    {
        Amount { number, currency: currency.to_owned() }
    }

    /// An equal amount.
    pub fn copy(&self) -> (r: Amount)
        ensures
            r == *self,
    {
        Amount { number: self.number.copy(), currency: self.currency.clone() }
    }

    /// A whole number of units.
    pub fn new_with_i32(number: i32, currency: &str) -> (r: Amount)
        ensures
            r.number.mant() == number,
            r.number.scl() == 0,
            r.currency@ == currency@,
    {
        Amount { number: Decimal::from_i32(number), currency: currency.to_owned() }
    }

    /// No units of the commodity.
    pub fn zero(currency: &str) -> (r: Amount)
        ensures
            r.number.mant() == 0,
            r.number.scl() == 0,
            r.currency@ == currency@,
    {
        Amount { number: Decimal::zero(), currency: currency.to_owned() }
    }

    /// The zero amount of no commodity.
    pub fn none() -> (r: Amount)
        ensures
            r.number.mant() == 0,
            r.currency@ == Seq::<char>::empty(),
    {
        Amount { number: Decimal::zero(), currency: String::new() }
    }

    pub fn is_zero(&self) -> (r: bool)
        ensures
            r == (self.number.mant() == 0),
    {
        self.number.is_zero()
    }

    pub fn abs(&self) -> (r: Amount)
        ensures
            r.number.mant() == crate::decimal::abs_int(self.number.mant()),
            r.number.scl() == self.number.scl(),
            r.currency == self.currency,
    {
        Amount { number: self.number.abs(), currency: self.currency.clone() }
    }

    pub fn neg(&self) -> (r: Amount)
        ensures
            r.number.mant() == -self.number.mant(),
            r.number.scl() == self.number.scl(),
            r.currency == self.currency,
    {
        Amount { number: self.number.neg(), currency: self.currency.clone() }
    }

    /// The amount with `rhs` more units; always there.
    pub fn add(&self, rhs: &Decimal) -> (r: Option<Amount>)
        ensures
            match r {
                Some(a) => a.currency == self.currency && a.number.scl() == (if self.number.scl()
                    >= rhs.scl() { self.number.scl() } else { rhs.scl() }) && a.number.mant()
                    == self.number.at_scale(a.number.scl()) + rhs.at_scale(a.number.scl()),
                None => {
                    let s = if self.number.scl() >= rhs.scl() { self.number.scl() } else { rhs.scl() };
                    !(fits_mantissa(self.number.at_scale(s)) && fits_mantissa(rhs.at_scale(s))
                        && fits_mantissa(self.number.at_scale(s) + rhs.at_scale(s)))
                },
            },
            r is Some,
    {
        match self.number.checked_add(rhs) {
            Some(n) => Some(Amount { number: n, currency: self.currency.clone() }),
            None => None,
        }
    }

    /// The amount with `rhs` fewer units; always there.
    pub fn sub(&self, rhs: &Decimal) -> (r: Option<Amount>)
        ensures
            match r {
                Some(a) => a.currency == self.currency && a.number.scl() == (if self.number.scl()
                    >= rhs.scl() { self.number.scl() } else { rhs.scl() }) && a.number.mant()
                    == self.number.at_scale(a.number.scl()) - rhs.at_scale(a.number.scl()),
                None => {
                    let s = if self.number.scl() >= rhs.scl() { self.number.scl() } else { rhs.scl() };
                    !(fits_mantissa(self.number.at_scale(s)) && fits_mantissa(rhs.at_scale(s))
                        && fits_mantissa(self.number.at_scale(s) - rhs.at_scale(s)))
                },
            },
            r is Some,
    {
        match self.number.checked_sub(rhs) {
            Some(n) => Some(Amount { number: n, currency: self.currency.clone() }),
            None => None,
        }
    }

    /// The amount multiplied by `rhs`; `None` when the scale does not fit its field.
    pub fn mul(&self, rhs: &Decimal) -> (r: Option<Amount>)
        ensures
            match r {
                Some(a) => a.currency == self.currency && a.number.mant() == self.number.mant()
                    * rhs.mant() && a.number.scl() == self.number.scl() + rhs.scl(),
                None => !(fits_mantissa(self.number.mant() * rhs.mant()) && self.number.scl()
                    + rhs.scl() <= u32::MAX),
            },
    {
        match self.number.checked_mul(rhs) {
            Some(n) => Some(Amount { number: n, currency: self.currency.clone() }),
            None => None,
        }
    }

    /// Appends the written form of the amount.
    pub fn push_text(&self, out: &mut Vec<char>)
        ensures
            final(out)@ == old(out)@ + amount_text(*self),
    {
        let ghost start = out@;
        let ds = self.number.to_chars();
        out.append(&mut ds.clone());
        out.push(' ');
        crate::strings::push_string_chars(out, &self.currency);
        proof {
            assert(out@ =~= start + amount_text(*self));
        }
    }
}

} // verus!
