use vstd::prelude::*;
use vstd::arithmetic::div_mod::{lemma_div_denominator, lemma_div_pos_is_pos, lemma_fundamental_div_mod, lemma_div_is_ordered};
use vstd::arithmetic::mul::{lemma_mul_strictly_positive, lemma_mul_nonnegative, lemma_mul_inequality};

use crate::natural::{int_add, int_copy, int_from_u128, int_mul, int_neg, int_times_ten, int_val, lemma_int_injective, lemma_int_of, lemma_pos_positive, nat_divmod_ten, pos_divmod_ten, pos_from_u128, pos_to_u128, int_of, Int, Pos};

verus! {

/// `10` to the power `n`.
pub open spec fn pow10(n: nat) -> int
    decreases n,
{
    if n == 0 {
        1
    } else {
        10 * pow10((n - 1) as nat)
    }
}

pub open spec fn abs_int(x: int) -> int {
    if x < 0 {
        -x
    } else {
        x
    }
}

/// The integers that a mantissa can hold: every one, so that sums and products of
/// decimals are exact.
pub open spec fn fits_mantissa(x: int) -> bool {
    true
}

pub proof fn lemma_pow10_positive(n: nat)
    ensures
        pow10(n) >= 1,
    decreases n,
{
    if n > 0 {
        lemma_pow10_positive((n - 1) as nat);
    }
}

pub proof fn lemma_pow10_monotone(a: nat, b: nat)
    requires
        a <= b,
    ensures
        pow10(a) <= pow10(b),
    decreases b,
{
    if a < b {
        lemma_pow10_monotone(a, (b - 1) as nat);
        lemma_pow10_positive((b - 1) as nat);
    }
}

pub proof fn lemma_pow10_add(a: nat, b: nat)
    ensures
        pow10(a + b) == pow10(a) * pow10(b),
    decreases a,
{
    if a > 0 {
        lemma_pow10_add((a - 1) as nat, b);
        assert(pow10(a + b) == 10 * pow10((a - 1 + b) as nat));
        assert(10 * (pow10((a - 1) as nat) * pow10(b)) == (10 * pow10((a - 1) as nat)) * pow10(b)) by (nonlinear_arith);
    }
}

/// A decimal number: `mantissa / 10^scale`, with a mantissa of any size.
#[derive(Debug, PartialEq, Eq)]
pub struct Decimal {
    mantissa: Int,
    scale: u32,
}

impl Clone for Decimal {
    fn clone(&self) -> (r: Decimal)
        ensures
            r == *self,
    {
        self.copy()
    }
}

impl Decimal {
    /// The unscaled digits of the number, signed.
    pub closed spec fn mant(self) -> int {
        int_val(self.mantissa)
    }

    /// How many of the digits stand after the decimal point.
    pub closed spec fn scl(self) -> nat {
        self.scale as nat
    }

    /// The number scaled to `s` decimal places, for `s` not below its own scale.
    pub open spec fn at_scale(self, s: nat) -> int {
        self.mant() * pow10((s - self.scl()) as nat)
    }

    /// Whether two decimals denote the same number.
    pub open spec fn same_value(self, other: Decimal) -> bool {
        self.mant() * pow10(other.scl()) == other.mant() * pow10(self.scl())
    }

    /// An equal decimal.
    pub fn copy(&self) -> (r: Decimal)
        ensures
            r == *self,
    {
        Decimal { mantissa: int_copy(&self.mantissa), scale: self.scale }
    }

    fn of_int(mantissa: Int, scale: u32) -> (r: Decimal)
        ensures
            r.mant() == int_val(mantissa),
            r.scl() == scale,
    {
        Decimal { mantissa, scale }
    }

    /// The decimal `mantissa / 10^scale`.
    pub fn new(mantissa: i128, scale: u32) -> (r: Decimal)
        ensures
            r.mant() == mantissa,
            r.scl() == scale,
    {
        let m = if mantissa == 0 {
            Int::Zero
        } else if mantissa > 0 {
            Int::Plus(pos_from_u128(mantissa as u128))
        } else if mantissa == i128::MIN {
            let half = pos_from_u128(0x8000_0000_0000_0000_0000_0000_0000_0000u128 / 2);
            Int::Minus(Pos::Twice(Box::new(half)))
        } else {
            Int::Minus(pos_from_u128((-mantissa) as u128))
        };
        Decimal { mantissa: m, scale }
    }

    pub fn zero() -> (r: Decimal)
        ensures
            r.mant() == 0,
            r.scl() == 0,
    {
        Decimal { mantissa: Int::Zero, scale: 0 }
    }

    pub fn one() -> (r: Decimal)
        ensures
            r.mant() == 1,
            r.scl() == 0,
    {
        Decimal { mantissa: Int::Plus(Pos::One), scale: 0 }
    }

    pub fn from_i32(n: i32) -> (r: Decimal)
        ensures
            r.mant() == n,
            r.scl() == 0,
    {
        Decimal::new(n as i128, 0)
    }

    pub fn from_i64(n: i64) -> (r: Decimal)
        ensures
            r.mant() == n,
            r.scl() == 0,
    {
        Decimal::new(n as i128, 0)
    }

    /// The mantissa, when it fits an `i128`.
    pub fn mantissa(&self) -> (r: Option<i128>)
        ensures
            match r {
                Some(x) => x == self.mant(),
                None => !(i128::MIN < self.mant() <= i128::MAX),
            },
    {
        match &self.mantissa {
            Int::Zero => Some(0),
            Int::Plus(p) => match pos_to_u128(p) {
                Some(x) => if x <= i128::MAX as u128 {
                    Some(x as i128)
                } else {
                    None
                },
                None => None,
            },
            Int::Minus(p) => match pos_to_u128(p) {
                Some(x) => if x <= i128::MAX as u128 {
                    Some(-(x as i128))
                } else {
                    None
                },
                None => None,
            },
        }
    }

    pub fn scale(&self) -> (r: u32)
        ensures
            r == self.scl(),
    {
        self.scale
    }

    pub fn is_zero(&self) -> (r: bool)
        ensures
            r == (self.mant() == 0),
    {
        match &self.mantissa {
            Int::Zero => true,
            Int::Plus(p) => {
                proof {
                    lemma_pos_positive(*p);
                }
                false
            },
            Int::Minus(p) => {
                proof {
                    lemma_pos_positive(*p);
                }
                false
            },
        }
    }

    pub fn is_negative(&self) -> (r: bool)
        ensures
            r == (self.mant() < 0),
    {
        match &self.mantissa {
            Int::Minus(p) => {
                proof {
                    lemma_pos_positive(*p);
                }
                true
            },
            Int::Plus(p) => {
                proof {
                    lemma_pos_positive(*p);
                }
                false
            },
            Int::Zero => false,
        }
    }

    pub fn is_positive(&self) -> (r: bool)
        ensures
            r == (self.mant() > 0),
    {
        match &self.mantissa {
            Int::Plus(p) => {
                proof {
                    lemma_pos_positive(*p);
                }
                true
            },
            Int::Minus(p) => {
                proof {
                    lemma_pos_positive(*p);
                }
                false
            },
            Int::Zero => false,
        }
    }

    pub fn neg(&self) -> (r: Decimal)
        ensures
            r.mant() == -self.mant(),
            r.scl() == self.scl(),
    {
        Decimal { mantissa: int_neg(&self.mantissa), scale: self.scale }
    }

    pub fn abs(&self) -> (r: Decimal)
        ensures
            r.mant() == abs_int(self.mant()),
            r.scl() == self.scl(),
    {
        if self.is_negative() {
            self.neg()
        } else {
            self.copy()
        }
    }

    /// The mantissa of `self` brought to scale `s`.
    fn rescaled(&self, s: u32) -> (r: Int)
        requires
            s >= self.scl(),
        ensures
            int_val(r) == self.at_scale(s as nat),
    {
        let k = s - self.scale;
        let mut m = int_copy(&self.mantissa);
        let mut i: u32 = 0;
        while i < k
            invariant
                i <= k,
                k == s - self.scl(),
                int_val(m) == self.mant() * pow10(i as nat),
            decreases k - i,
        {
            m = int_times_ten(&m);
            proof {
                assert(10 * (self.mant() * pow10(i as nat)) == self.mant() * (10 * pow10(i as nat))) by (nonlinear_arith);
                assert(pow10((i + 1) as nat) == 10 * pow10(i as nat));
            }
            i = i + 1;
        }
        m
    }

    /// The sum, at the larger of the two scales. Always there: a mantissa holds any integer.
    pub fn checked_add(&self, other: &Decimal) -> (r: Option<Decimal>)
        ensures
            ({
                let s = if self.scl() >= other.scl() { self.scl() } else { other.scl() };
                let sum = self.at_scale(s) + other.at_scale(s);
                match r {
                    Some(d) => d.scl() == s && d.mant() == sum && fits_mantissa(self.at_scale(s))
                        && fits_mantissa(other.at_scale(s)) && fits_mantissa(sum),
                    None => !(fits_mantissa(self.at_scale(s)) && fits_mantissa(other.at_scale(s))
                        && fits_mantissa(sum)),
                }
            }),
            r is Some,
    {
        let s = if self.scale >= other.scale { self.scale } else { other.scale };
        let a = self.rescaled(s);
        let b = other.rescaled(s);
        Some(Decimal { mantissa: int_add(&a, &b), scale: s })
    }

    /// The difference, at the larger of the two scales. Always there.
    pub fn checked_sub(&self, other: &Decimal) -> (r: Option<Decimal>)
        ensures
            ({
                let s = if self.scl() >= other.scl() { self.scl() } else { other.scl() };
                let diff = self.at_scale(s) - other.at_scale(s);
                match r {
                    Some(d) => d.scl() == s && d.mant() == diff && fits_mantissa(self.at_scale(s)) && fits_mantissa(
                        other.at_scale(s),
                    ) && fits_mantissa(diff),
                    None => !(fits_mantissa(self.at_scale(s)) && fits_mantissa(other.at_scale(s))
                        && fits_mantissa(diff)),
                }
            }),
            r is Some,
    {
        let n = other.neg();
        proof {
            let s = if self.scl() >= other.scl() { self.scl() } else { other.scl() };
            assert(n.at_scale(s) == -other.at_scale(s)) by (nonlinear_arith)
                requires n.mant() == -other.mant(), n.scl() == other.scl();
        }
        self.checked_add(&n)
    }

    /// The product: mantissas multiply and scales add; `None` when the scale does not fit
    /// its field.
    pub fn checked_mul(&self, other: &Decimal) -> (r: Option<Decimal>)
        ensures
            match r {
                Some(d) => d.mant() == self.mant() * other.mant() && d.scl() == self.scl() + other.scl(),
                None => !(fits_mantissa(self.mant() * other.mant()) && self.scl() + other.scl() <= u32::MAX),
            },
    {
        let s = match self.scale.checked_add(other.scale) {
            Some(s) => s,
            None => return None,
        };
        Some(Decimal { mantissa: int_mul(&self.mantissa, &other.mantissa), scale: s })
    }

    /// Whether the two decimals denote the same number, whatever their scales.
    pub fn eq_value(&self, other: &Decimal) -> (r: bool)
        ensures
            r == self.same_value(*other),
    {
        proof {
            lemma_pow10_positive(self.scl());
            lemma_pow10_positive(other.scl());
        }
        if self.scale >= other.scale {
            let ghost k = (self.scl() - other.scl()) as nat;
            proof {
                lemma_pow10_add(other.scl(), k);
                lemma_cancel(self.mant(), other.mant(), pow10(other.scl()), pow10(k));
                assert(other.at_scale(self.scl()) == other.mant() * pow10(k));
            }
            let b = other.rescaled(self.scale);
            let d = Decimal { mantissa: int_add(&self.mantissa, &int_neg(&b)), scale: 0 };
            d.is_zero()
        } else {
            let ghost k = (other.scl() - self.scl()) as nat;
            proof {
                lemma_pow10_add(self.scl(), k);
                lemma_cancel(other.mant(), self.mant(), pow10(self.scl()), pow10(k));
                assert(self.at_scale(other.scl()) == self.mant() * pow10(k));
            }
            let a = self.rescaled(other.scale);
            let d = Decimal { mantissa: int_add(&a, &int_neg(&other.mantissa)), scale: 0 };
            d.is_zero()
        }
    }
}

/// A positive factor cancels.
proof fn lemma_cancel(a: int, b: int, p: int, k: int)
    requires
        p >= 1,
    ensures
        (a * p == b * (p * k)) == (a == b * k),
{
    assert(b * (p * k) == (b * k) * p) by (nonlinear_arith);
    assert((a * p == (b * k) * p) == (a == b * k)) by (nonlinear_arith)
        requires p >= 1;
}

/// The mantissa that rounding to `need` fewer decimal places yields: the dropped digits
/// are cut off, and, when rounding up, the kept part grows by one unit away from zero if
/// the first dropped digit is five or more.
pub open spec fn rounded_mantissa(m: int, need: nat, is_up: bool) -> int {
    let a = abs_int(m);
    let kept = a / pow10(need);
    let digit = (a / pow10((need - 1) as nat)) % 10;
    let bumped = if is_up && digit > 4 { kept + 1 } else { kept };
    if m < 0 {
        -bumped
    } else {
        bumped
    }
}

impl Decimal {
    /// Rounds to `round_digits` decimal places. A number with no more places is returned as it is.
    pub fn round_with(&self, round_digits: u32, is_up: bool) -> (r: Decimal)
        ensures
            self.scl() <= round_digits ==> r == *self,
            self.scl() > round_digits ==> r.scl() == round_digits && r.mant() == rounded_mantissa(
                self.mant(),
                (self.scl() - round_digits) as nat,
                is_up,
            ),
    {
        if self.scale <= round_digits {
            return self.copy();
        }
        let need = self.scale - round_digits;
        let neg = self.is_negative();
        let a = self.abs();
        let ghost av = abs_int(self.mant());
        let mut n = int_copy(&a.mantissa);
        let mut i: u32 = 0;
        while i < need - 1
            invariant
                i <= need - 1,
                0 <= av,
                int_val(n) == av / pow10(i as nat),
                0 <= int_val(n) <= av,
            decreases need - 1 - i,
        {
            proof {
                lemma_pow10_positive(i as nat);
                lemma_div_denominator(av, pow10(i as nat), 10);
                assert(pow10(i as nat) * 10 == pow10((i + 1) as nat));
                lemma_div_pos_is_pos(int_val(n), 10);
                assert(int_val(n) / 10 <= int_val(n)) by (nonlinear_arith) requires int_val(n) >= 0;
            }
            let (q, _) = nat_divmod_ten(&n);
            n = q;
            i = i + 1;
        }
        let (kept, digit) = nat_divmod_ten(&n);
        proof {
            lemma_pow10_positive((need - 1) as nat);
            lemma_div_denominator(av, pow10((need - 1) as nat), 10);
            assert(pow10((need - 1) as nat) * 10 == pow10(need as nat));
        }
        let bumped = if is_up && digit > 4 {
            int_add(&kept, &Int::Plus(Pos::One))
        } else {
            kept
        };
        let m = if neg { int_neg(&bumped) } else { bumped };
        Decimal { mantissa: m, scale: round_digits }
    }
}

} // verus!

verus! {

pub open spec fn is_digit(c: char) -> bool {
    '0' <= c <= '9'
}

pub open spec fn digit_char(d: int) -> char {
    (d + 48) as char
}

pub open spec fn char_digit(c: char) -> int {
    c as int - 48
}

/// The decimal digits of `n`, most significant first, without leading zeros ("0" for zero).
pub open spec fn nat_digits(n: nat) -> Seq<char>
    decreases n,
{
    if n < 10 {
        seq![digit_char(n as int)]
    } else {
        nat_digits(n / 10).push(digit_char((n % 10) as int))
    }
}

/// The number that a string of decimal digits spells.
pub open spec fn digits_value(s: Seq<char>) -> int
    decreases s.len(),
{
    if s.len() == 0 {
        0
    } else {
        digits_value(s.drop_last()) * 10 + char_digit(s.last())
    }
}

pub open spec fn all_digits(s: Seq<char>) -> bool {
    forall|i: int| 0 <= i < s.len() ==> is_digit(#[trigger] s[i])
}

/// How a decimal is written: an optional minus sign, the integer digits, and, when the
/// scale is positive, a point followed by exactly `scale` digits.
pub open spec fn decimal_text(m: int, s: nat) -> Seq<char> {
    let ds = nat_digits(abs_int(m) as nat);
    let padded = if ds.len() <= s {
        Seq::new((s + 1 - ds.len()) as nat, |i: int| '0') + ds
    } else {
        ds
    };
    let body = if s == 0 {
        padded
    } else {
        padded.take(padded.len() - s) + seq!['.'] + padded.skip(padded.len() - s)
    };
    if m < 0 {
        seq!['-'] + body
    } else {
        body
    }
}

pub proof fn lemma_nat_digits_len(n: nat)
    ensures
        nat_digits(n).len() >= 1,
    decreases n,
{
    if n >= 10 {
        lemma_nat_digits_len(n / 10);
    }
}

/// The digits of a non-negative integer, most significant first.
pub fn digits_of(n: i128) -> (r: Vec<char>)
    requires
        n >= 0,
    ensures
        r@ == nat_digits(n as nat),
{
    let mut rest: i128 = n;
    let mut acc: Vec<char> = Vec::new();
    while rest >= 10
        invariant
            rest >= 0,
            nat_digits(n as nat) == nat_digits(rest as nat) + acc@,
        decreases rest,
    {
        let d = rest % 10;
        let c = ((d as u8) + 48u8) as char;
        let ghost old_acc = acc@;
        acc.insert(0, c);
        proof {
            assert(nat_digits(rest as nat) == nat_digits((rest / 10) as nat).push(digit_char(d as int)));
            assert(nat_digits((rest / 10) as nat).push(digit_char(d as int)) + old_acc =~= nat_digits((rest / 10) as nat) + acc@);
        }
        rest = rest / 10;
    }
    let c = ((rest as u8) + 48u8) as char;
    acc.insert(0, c);
    proof {
        assert(nat_digits(rest as nat) == seq![digit_char(rest as int)]);
        assert(seq![digit_char(rest as int)] + acc@.drop_first() =~= acc@);
    }
    acc
}

/// The decimal digits of a non-negative integer, most significant first.
fn nat_digit_chars(z: &Int) -> (r: Vec<char>)
    requires
        int_val(*z) >= 0,
    ensures
        r@ == nat_digits(int_val(*z) as nat),
    decreases int_val(*z),
{
    let (q, d) = nat_divmod_ten(z);
    let c = (d + 48u8) as char;
    proof {
        assert(c == digit_char(d as int));
    }
    if q.is_zero_int() {
        proof {
            assert(int_val(*z) < 10);
        }
        let mut v: Vec<char> = Vec::new();
        v.push(c);
        proof {
            assert(v@ =~= seq![digit_char(int_val(*z))]);
        }
        v
    } else {
        let mut v = nat_digit_chars(&q);
        v.push(c);
        v
    }
}

impl Decimal {
    /// The characters of the written form of the number.
    #[verifier::rlimit(60)]
    #[verifier::spinoff_prover]
    pub fn to_chars(&self) -> (r: Vec<char>)
        ensures
            r@ == decimal_text(self.mant(), self.scl()),
    {
        let a = self.abs();
        let ds = nat_digit_chars(&a.mantissa);
        proof {
            lemma_nat_digits_len(abs_int(self.mant()) as nat);
        }
        let s = self.scale as usize;
        let mut padded: Vec<char> = Vec::new();
        if ds.len() <= s {
            let mut i: usize = 0;
            let cnt = s - ds.len() + 1;
            while i < cnt
                invariant
                    ds.len() <= s,
                    cnt == s + 1 - ds.len(),
                    i <= cnt,
                    padded@ == Seq::new(i as nat, |j: int| '0'),
                decreases cnt - i,
            {
                padded.push('0');
                proof {
                    assert(padded@ =~= Seq::new((i + 1) as nat, |j: int| '0'));
                }
                i = i + 1;
            }
        }
        let mut k: usize = 0;
        let ghost zeros = padded@;
        while k < ds.len()
            invariant
                k <= ds@.len(),
                padded@ == zeros + ds@.subrange(0, k as int),
            decreases ds@.len() - k,
        {
            padded.push(ds[k]);
            proof {
                assert(zeros + ds@.subrange(0, k as int).push(ds@[k as int]) =~= zeros + ds@.subrange(0, k + 1));
            }
            k = k + 1;
        }
        proof {
            assert(ds@.subrange(0, ds@.len() as int) =~= ds@);
            if ds@.len() > s {
                assert(zeros =~= Seq::<char>::empty());
                assert(padded@ =~= ds@);
            }
        }
        let mut out: Vec<char> = Vec::new();
        let neg = self.is_negative();
        if neg {
            out.push('-');
        }
        let ghost prefix = out@;
        let split = padded.len() - s;
        let mut j: usize = 0;
        while j < padded.len()
            invariant
                split == padded@.len() - s,
                j <= padded@.len(),
                s == 0 ==> out@ == prefix + padded@.subrange(0, j as int),
                s > 0 && j <= split ==> out@ == prefix + padded@.subrange(0, j as int),
                s > 0 && j > split ==> out@ == prefix + padded@.subrange(0, split as int) + seq!['.']
                    + padded@.subrange(split as int, j as int),
            decreases padded@.len() - j,
        {
            if s > 0 && j == split {
                out.push('.');
            }
            let ghost before = out@;
            out.push(padded[j]);
            proof {
                if s == 0 || j < split {
                    assert(prefix + padded@.subrange(0, j + 1) =~= before.push(padded@[j as int]));
                } else {
                    assert(prefix + padded@.subrange(0, split as int) + seq!['.'] + padded@.subrange(split as int, j + 1)
                        =~= before.push(padded@[j as int]));
                }
            }
            j = j + 1;
        }
        proof {
            let p = padded@;
            assert(p.subrange(0, p.len() as int) =~= p);
            if s > 0 {
                assert(p.subrange(0, split as int) =~= p.take(p.len() - s));
                assert(p.subrange(split as int, p.len() as int) =~= p.skip(p.len() - s));
            }
            if !neg {
                assert(prefix =~= Seq::<char>::empty());
                assert(out@ =~= decimal_text(self.mant(), self.scl()));
            } else {
                assert(out@ =~= decimal_text(self.mant(), self.scl()));
            }
        }
        out
    }

    /// The written form of the number.
    pub fn to_text(&self) -> (r: String)
        ensures
            r@ == decimal_text(self.mant(), self.scl()),
    {
        let cs = self.to_chars();
        crate::strings::string_from_chars(&cs)
    }
}

} // verus!

verus! {

/// Position of the first `c` in `s`, or `-1`.
pub open spec fn first_index_of(s: Seq<char>, c: char) -> int
    decreases s.len(),
{
    if s.len() == 0 {
        -1
    } else if s[0] == c {
        0
    } else {
        let r = first_index_of(s.drop_first(), c);
        if r < 0 {
            -1
        } else {
            r + 1
        }
    }
}

pub open spec fn number_negative(t: Seq<char>) -> bool {
    t.len() > 0 && t[0] == '-'
}

pub open spec fn number_body(t: Seq<char>) -> Seq<char> {
    if number_negative(t) {
        t.skip(1)
    } else {
        t
    }
}

pub open spec fn number_int_part(t: Seq<char>) -> Seq<char> {
    let b = number_body(t);
    let p = first_index_of(b, '.');
    if p < 0 {
        b
    } else {
        b.take(p)
    }
}

pub open spec fn number_frac_part(t: Seq<char>) -> Seq<char> {
    let b = number_body(t);
    let p = first_index_of(b, '.');
    if p < 0 {
        Seq::empty()
    } else {
        b.skip(p + 1)
    }
}

/// `t` is an optional minus sign, one or more digits, and optionally a point followed by
/// one or more digits.
pub open spec fn number_syntax(t: Seq<char>) -> bool {
    let b = number_body(t);
    &&& number_int_part(t).len() >= 1
    &&& all_digits(number_int_part(t))
    &&& first_index_of(b, '.') >= 0 ==> number_frac_part(t).len() >= 1
    &&& all_digits(number_frac_part(t))
}

/// The signed mantissa that a number's text denotes.
pub open spec fn number_mantissa(t: Seq<char>) -> int {
    let v = digits_value(number_int_part(t) + number_frac_part(t));
    if number_negative(t) {
        -v
    } else {
        v
    }
}

pub proof fn lemma_first_index_bounds(s: Seq<char>, c: char)
    ensures
        -1 <= first_index_of(s, c) < s.len(),
        first_index_of(s, c) >= 0 ==> s[first_index_of(s, c)] == c,
        forall|i: int| 0 <= i < s.len() && (first_index_of(s, c) < 0 || i < first_index_of(s, c))
            ==> s[i] != c,
    decreases s.len(),
{
    if s.len() > 0 && s[0] != c {
        lemma_first_index_bounds(s.drop_first(), c);
        assert forall|i: int| 0 <= i < s.len() && (first_index_of(s, c) < 0 || i < first_index_of(s, c))
            implies s[i] != c by {
            if i > 0 {
                assert(s[i] == s.drop_first()[i - 1]);
            }
        }
    }
}

proof fn lemma_digits_value_nonneg(s: Seq<char>)
    requires
        all_digits(s),
    ensures
        digits_value(s) >= 0,
    decreases s.len(),
{
    if s.len() > 0 {
        assert(all_digits(s.drop_last()));
        lemma_digits_value_nonneg(s.drop_last());
        assert(is_digit(s[s.len() - 1]));
    }
}

proof fn lemma_digits_value_prefix(s: Seq<char>, k: int)
    requires
        all_digits(s),
        0 <= k <= s.len(),
    ensures
        digits_value(s) >= digits_value(s.take(k)),
    decreases s.len(),
{
    if k < s.len() {
        assert(all_digits(s.drop_last()));
        lemma_digits_value_prefix(s.drop_last(), k);
        assert(s.drop_last().take(k) =~= s.take(k));
        lemma_digits_value_nonneg(s.drop_last());
        assert(is_digit(s[s.len() - 1]));
    } else {
        assert(s.take(k) =~= s);
    }
}

/// Position of the first `c` in `v`.
pub fn find_char(v: &Vec<char>, c: char) -> (r: Option<usize>)
    ensures
        match r {
            Some(i) => i as int == first_index_of(v@, c),
            None => first_index_of(v@, c) == -1,
        },
{
    proof {
        lemma_first_index_bounds(v@, c);
    }
    let mut i: usize = 0;
    while i < v.len()
        invariant
            i <= v@.len(),
            -1 <= first_index_of(v@, c) < v@.len(),
            first_index_of(v@, c) >= 0 ==> v@[first_index_of(v@, c)] == c,
            forall|j: int| 0 <= j < v@.len() && (first_index_of(v@, c) < 0 || j < first_index_of(v@, c))
                ==> v@[j] != c,
            forall|j: int| 0 <= j < i ==> v@[j] != c,
        decreases v@.len() - i,
    {
        if v[i] == c {
            return Some(i);
        }
        i = i + 1;
    }
    None
}

/// Whether every character is a decimal digit.
pub fn vec_all_digits(v: &Vec<char>) -> (r: bool)
    ensures
        r == all_digits(v@),
{
    let mut i: usize = 0;
    while i < v.len()
        invariant
            i <= v@.len(),
            forall|j: int| 0 <= j < i ==> is_digit(#[trigger] v@[j]),
        decreases v@.len() - i,
    {
        if !('0' <= v[i] && v[i] <= '9') {
            return false;
        }
        i = i + 1;
    }
    true
}

/// The value of a string of digits.
pub fn digits_value_int(v: &Vec<char>) -> (r: Int)
    requires
        all_digits(v@),
    ensures
        int_val(r) == digits_value(v@),
{
    let mut acc = Int::Zero;
    let mut i: usize = 0;
    while i < v.len()
        invariant
            i <= v@.len(),
            all_digits(v@),
            int_val(acc) == digits_value(v@.take(i as int)),
        decreases v@.len() - i,
    {
        let c = v[i];
        assert(is_digit(v@[i as int]));
        let d = (c as u32 - 48) as u128;
        proof {
            assert(v@.take(i + 1).drop_last() =~= v@.take(i as int));
        }
        acc = int_add(&int_times_ten(&acc), &int_from_u128(d));
        i = i + 1;
    }
    proof {
        assert(v@.take(v@.len() as int) =~= v@);
    }
    acc
}

pub fn sub_vec(v: &Vec<char>, lo: usize, hi: usize) -> (r: Vec<char>)
    requires
        lo <= hi <= v@.len(),
    ensures
        r@ == v@.subrange(lo as int, hi as int),
{
    let mut r: Vec<char> = Vec::new();
    let mut i = lo;
    while i < hi
        invariant
            lo <= i <= hi,
            hi <= v@.len(),
            r@ == v@.subrange(lo as int, i as int),
        decreases hi - i,
    {
        r.push(v[i]);
        proof {
            assert(v@.subrange(lo as int, i as int).push(v@[i as int]) =~= v@.subrange(lo as int, i + 1));
        }
        i = i + 1;
    }
    r
}

impl Decimal {
    /// Reads a number written as an optional minus sign, digits, and an optional point with
    /// more digits; the scale is the number of digits after the point.
    pub fn parse_chars(t: &Vec<char>) -> (r: Option<Decimal>)
        ensures
            match r {
                Some(d) => number_syntax(t@) && fits_mantissa(number_mantissa(t@)) && d.mant() == number_mantissa(t@)
                    && d.scl() == number_frac_part(t@).len() && number_frac_part(t@).len() <= u32::MAX,
                None => !(number_syntax(t@) && fits_mantissa(number_mantissa(t@))
                    && number_frac_part(t@).len() <= u32::MAX),
            },
    {
        let n = t.len();
        let neg = n > 0 && t[0] == '-';
        let start: usize = if neg { 1 } else { 0 };
        let body = sub_vec(t, start, n);
        proof {
            assert(body@ =~= number_body(t@));
            lemma_first_index_bounds(body@, '.');
        }
        let (ip, fp) = match find_char(&body, '.') {
            Some(p) => {
                let ip = sub_vec(&body, 0, p);
                let fp = sub_vec(&body, p + 1, body.len());
                proof {
                    assert(ip@ =~= number_int_part(t@));
                    assert(fp@ =~= number_frac_part(t@));
                }
                if fp.len() == 0 {
                    return None;
                }
                (ip, fp)
            },
            None => {
                let ip = sub_vec(&body, 0, body.len());
                proof {
                    assert(ip@ =~= number_int_part(t@));
                    assert(number_frac_part(t@) =~= Seq::<char>::empty());
                }
                (ip, Vec::new())
            },
        };
        if ip.len() == 0 || !vec_all_digits(&ip) || !vec_all_digits(&fp) {
            return None;
        }
        if fp.len() > u32::MAX as usize {
            return None;
        }
        let frac_len = fp.len() as u32;
        let mut all = ip;
        let mut fp2 = fp;
        let ghost fps = fp2@;
        all.append(&mut fp2);
        proof {
            assert(all_digits(all@)) by {
                assert forall|i: int| 0 <= i < all@.len() implies is_digit(#[trigger] all@[i]) by {
                    if i >= number_int_part(t@).len() {
                        assert(all@[i] == fps[i - number_int_part(t@).len()]);
                    }
                }
            }
        }
        let v = digits_value_int(&all);
        let m = if neg { int_neg(&v) } else { v };
        Some(Decimal { mantissa: m, scale: frac_len })
    }

    /// Reads a number from a string; see `parse_chars`.
    pub fn from_text(s: &str) -> (r: Option<Decimal>)
        ensures
            match r {
                Some(d) => number_syntax(s@) && fits_mantissa(number_mantissa(s@)) && d.mant() == number_mantissa(s@)
                    && d.scl() == number_frac_part(s@).len() && number_frac_part(s@).len() <= u32::MAX,
                None => !(number_syntax(s@) && fits_mantissa(number_mantissa(s@))
                    && number_frac_part(s@).len() <= u32::MAX),
            },
    {
        let cs = crate::strings::chars_of(s);
        Decimal::parse_chars(&cs)
    }
}

} // verus!

verus! {

impl Decimal {
    /// The decimal with the given digits and scale.
    pub closed spec fn from_parts(m: int, s: nat) -> Decimal {
        Decimal { mantissa: int_of(m), scale: s as u32 }
    }
}

/// A decimal is its digits and its scale.
pub proof fn lemma_decimal_parts(a: Decimal, b: Decimal)
    ensures
        (a.mant() == b.mant() && a.scl() == b.scl()) == (a == b),
{
    if a.mant() == b.mant() && a.scl() == b.scl() {
        lemma_int_injective(a.mantissa, b.mantissa);
    }
}

/// A scale fits its field.
pub proof fn lemma_scale_bound(d: Decimal)
    ensures
        d.scl() <= u32::MAX,
{
}

/// The decimal made of fitting parts has those parts.
pub proof fn lemma_from_parts(m: int, s: nat)
    requires
        fits_mantissa(m),
        s <= u32::MAX,
    ensures
        Decimal::from_parts(m, s).mant() == m,
        Decimal::from_parts(m, s).scl() == s,
{
    lemma_int_of(m);
}

/// The largest scale among the numbers; zero for none.
pub open spec fn max_scale(ds: Seq<Decimal>) -> nat
    decreases ds.len(),
{
    if ds.len() == 0 {
        0
    } else if ds.last().scl() > max_scale(ds.drop_last()) {
        ds.last().scl()
    } else {
        max_scale(ds.drop_last())
    }
}

/// The sum of the numbers, scaled to `s` places.
pub open spec fn sum_at(ds: Seq<Decimal>, s: nat) -> int
    decreases ds.len(),
{
    if ds.len() == 0 {
        0
    } else {
        sum_at(ds.drop_last(), s) + ds.last().at_scale(s)
    }
}

/// Adding the numbers one after the other, from zero, gives mantissas that a decimal holds
/// (always so: see `lemma_sum_fits`).
pub open spec fn sum_fits(ds: Seq<Decimal>) -> bool
    decreases ds.len(),
{
    if ds.len() == 0 {
        true
    } else {
        let s = max_scale(ds);
        &&& sum_fits(ds.drop_last())
        &&& fits_mantissa(sum_at(ds.drop_last(), s))
        &&& fits_mantissa(ds.last().at_scale(s))
        &&& fits_mantissa(sum_at(ds, s))
    }
}

/// Every sum fits: a mantissa holds any integer.
pub proof fn lemma_sum_fits(ds: Seq<Decimal>)
    ensures
        sum_fits(ds),
    decreases ds.len(),
{
    if ds.len() > 0 {
        lemma_sum_fits(ds.drop_last());
    }
}

/// Every scale is at most the largest.
pub proof fn lemma_max_scale(ds: Seq<Decimal>, i: int)
    requires
        0 <= i < ds.len(),
    ensures
        ds[i].scl() <= max_scale(ds),
        max_scale(ds.drop_last()) <= max_scale(ds),
    decreases ds.len(),
{
    if i < ds.len() - 1 {
        lemma_max_scale(ds.drop_last(), i);
        assert(ds.drop_last()[i] == ds[i]);
    }
}

/// Scaling a number further multiplies it by a power of ten.
pub proof fn lemma_at_scale_shift(d: Decimal, s1: nat, s2: nat)
    requires
        d.scl() <= s1 <= s2,
    ensures
        d.at_scale(s2) == d.at_scale(s1) * pow10((s2 - s1) as nat),
{
    lemma_pow10_add((s1 - d.scl()) as nat, (s2 - s1) as nat);
    assert((s1 - d.scl()) as nat + (s2 - s1) as nat == (s2 - d.scl()) as nat);
    let m = d.mant();
    let a = pow10((s1 - d.scl()) as nat);
    let b = pow10((s2 - s1) as nat);
    assert(m * (a * b) == (m * a) * b) by (nonlinear_arith);
}

/// Scaling a sum further multiplies it by a power of ten.
pub proof fn lemma_sum_at_shift(ds: Seq<Decimal>, s1: nat, s2: nat)
    requires
        max_scale(ds) <= s1 <= s2,
    ensures
        sum_at(ds, s2) == sum_at(ds, s1) * pow10((s2 - s1) as nat),
    decreases ds.len(),
{
    if ds.len() > 0 {
        lemma_max_scale(ds, ds.len() - 1);
        lemma_sum_at_shift(ds.drop_last(), s1, s2);
        lemma_at_scale_shift(ds.last(), s1, s2);
        let a = sum_at(ds.drop_last(), s1);
        let b = ds.last().at_scale(s1);
        let p = pow10((s2 - s1) as nat);
        assert((a + b) * p == a * p + b * p) by (nonlinear_arith);
    }
}

/// A sum is zero at one scale exactly when it is zero at any larger one.
pub proof fn lemma_sum_zero_shift(ds: Seq<Decimal>, s1: nat, s2: nat)
    requires
        max_scale(ds) <= s1 <= s2,
    ensures
        (sum_at(ds, s2) == 0) == (sum_at(ds, s1) == 0),
{
    lemma_sum_at_shift(ds, s1, s2);
    lemma_pow10_positive((s2 - s1) as nat);
    let a = sum_at(ds, s1);
    let p = pow10((s2 - s1) as nat);
    if a != 0 {
        assert(a * p != 0) by (nonlinear_arith)
            requires a != 0, p >= 1;
    }
}

/// Appending a number to a running sum: the sum at the larger scale gains the number.
pub proof fn lemma_sum_push(pre: Seq<Decimal>, acc: Decimal, d: Decimal)
    requires
        sum_fits(pre),
        acc.scl() == max_scale(pre),
        acc.mant() == sum_at(pre, max_scale(pre)),
    ensures
        ({
            let s = if acc.scl() >= d.scl() { acc.scl() } else { d.scl() };
            let sum = acc.at_scale(s) + d.at_scale(s);
            &&& max_scale(pre.push(d)) == s
            &&& sum_at(pre.push(d), s) == sum
            &&& sum_fits(pre.push(d)) == (fits_mantissa(acc.at_scale(s)) && fits_mantissa(d.at_scale(s))
                && fits_mantissa(sum))
        }),
{
    let cur = pre.push(d);
    assert(cur.drop_last() =~= pre);
    assert(cur.last() == d);
    let s = max_scale(cur);
    lemma_sum_at_shift(pre, max_scale(pre), s);
    lemma_at_scale_shift(acc, acc.scl(), s);
    assert(acc.at_scale(acc.scl()) == acc.mant() * pow10(0)) by {
        assert((acc.scl() - acc.scl()) as nat == 0);
    }
}

/// One step of a running sum: adds `d` to the sum `acc` of the numbers `pre`.
pub fn sum_step(acc: &Decimal, d: &Decimal, Ghost(pre): Ghost<Seq<Decimal>>) -> (r: Option<Decimal>)
    requires
        sum_fits(pre),
        acc.scl() == max_scale(pre),
        acc.mant() == sum_at(pre, max_scale(pre)),
    ensures
        match r {
            Some(n) => sum_fits(pre.push(*d)) && n.scl() == max_scale(pre.push(*d)) && n.mant() == sum_at(
                pre.push(*d),
                max_scale(pre.push(*d)),
            ),
            None => !sum_fits(pre.push(*d)),
        },
        r is Some,
{
    proof {
        lemma_sum_fits(pre.push(*d));
    }
    let ghost cur = pre.push(*d);
    proof {
        assert(cur.drop_last() =~= pre);
        assert(cur.last() == *d);
        lemma_max_scale(cur, cur.len() - 1);
        let s = max_scale(cur);
        lemma_sum_at_shift(pre, max_scale(pre), s);
        lemma_at_scale_shift(*acc, acc.scl(), s);
        assert(acc.at_scale(acc.scl()) == acc.mant() * pow10(0)) by {
            assert((acc.scl() - acc.scl()) as nat == 0);
        }
    }
    acc.checked_add(d)
}

/// The sum of the numbers, added one after the other from zero, at the largest of their
/// scales; always there.
pub fn checked_sum(ds: &Vec<Decimal>) -> (r: Option<Decimal>)
    ensures
        match r {
            Some(d) => sum_fits(ds@) && d.scl() == max_scale(ds@) && d.mant() == sum_at(ds@, max_scale(ds@)),
            None => !sum_fits(ds@),
        },
        r is Some,
{
    proof {
        lemma_sum_fits(ds@);
    }
    let mut acc = Decimal::zero();
    let mut i: usize = 0;
    proof {
        assert(ds@.take(0) =~= Seq::<Decimal>::empty());
    }
    while i < ds.len()
        invariant
            i <= ds@.len(),
            sum_fits(ds@.take(i as int)),
            acc.scl() == max_scale(ds@.take(i as int)),
            acc.mant() == sum_at(ds@.take(i as int), max_scale(ds@.take(i as int))),
        decreases ds@.len() - i,
    {
        proof {
            assert(ds@.take(i as int).push(ds@[i as int]) =~= ds@.take(i + 1));
        }
        match sum_step(&acc, &ds[i], Ghost(ds@.take(i as int))) {
            Some(n) => {
                acc = n;
            },
            None => {
                proof {
                    lemma_prefix_sum_fits(ds@, i + 1);
                }
                return None;
            },
        }
        i = i + 1;
    }
    proof {
        assert(ds@.take(ds@.len() as int) =~= ds@);
    }
    Some(acc)
}

/// A sum that fits has prefixes that fit.
pub proof fn lemma_prefix_sum_fits(ds: Seq<Decimal>, k: int)
    requires
        0 <= k <= ds.len(),
        !sum_fits(ds.take(k)),
    ensures
        !sum_fits(ds),
    decreases ds.len() - k,
{
    if k < ds.len() {
        let next = ds.take(k + 1);
        assert(next.drop_last() =~= ds.take(k));
        lemma_prefix_sum_fits(ds, k + 1);
    } else {
        assert(ds.take(k) =~= ds);
    }
}

} // verus!

verus! {

/// Changing one number of a sum changes the sum by the difference.
pub proof fn lemma_sum_at_update(ds: Seq<Decimal>, i: int, x: Decimal, s: nat)
    requires
        0 <= i < ds.len(),
    ensures
        sum_at(ds.update(i, x), s) == sum_at(ds, s) - ds[i].at_scale(s) + x.at_scale(s),
    decreases ds.len(),
{
    let u = ds.update(i, x);
    assert(u.drop_last() =~= if i == ds.len() - 1 {
        ds.drop_last()
    } else {
        ds.drop_last().update(i, x)
    });
    if i < ds.len() - 1 {
        lemma_sum_at_update(ds.drop_last(), i, x, s);
        assert(u.last() == ds.last());
    }
}

/// A sum computed at a scale `s` keeps its value at any larger scale.
pub proof fn lemma_add_at(a: Decimal, b: Decimal, n: Decimal, big: nat)
    requires
        n.scl() == (if a.scl() >= b.scl() { a.scl() } else { b.scl() }),
        n.mant() == a.at_scale(n.scl()) + b.at_scale(n.scl()),
        n.scl() <= big,
    ensures
        n.at_scale(big) == a.at_scale(big) + b.at_scale(big),
{
    let s = n.scl();
    lemma_at_scale_shift(a, s, big);
    lemma_at_scale_shift(b, s, big);
    lemma_at_scale_shift(n, s, big);
    assert(n.at_scale(s) == n.mant() * pow10(0)) by {
        assert((s - s) as nat == 0);
    }
    let p = pow10((big - s) as nat);
    assert((a.at_scale(s) + b.at_scale(s)) * p == a.at_scale(s) * p + b.at_scale(s) * p) by (nonlinear_arith);
}

} // verus!

verus! {

/// Adding to `a` the difference `b - a` gives a number equal to `b`.
pub proof fn lemma_add_difference(a: Decimal, b: Decimal, d: Decimal, r: Decimal)
    requires
        d.scl() == (if b.scl() >= a.scl() { b.scl() } else { a.scl() }),
        d.mant() == b.at_scale(d.scl()) - a.at_scale(d.scl()),
        r.scl() == (if a.scl() >= d.scl() { a.scl() } else { d.scl() }),
        r.mant() == a.at_scale(r.scl()) + d.at_scale(r.scl()),
    ensures
        r.same_value(b),
{
    let s = d.scl();
    assert(r.scl() == s);
    assert(d.at_scale(s) == d.mant() * pow10(0)) by {
        assert((s - s) as nat == 0);
    }
    assert(d.mant() * 1 == d.mant());
    assert(r.mant() == b.at_scale(s));
    lemma_pow10_add((s - b.scl()) as nat, b.scl());
    assert((s - b.scl()) as nat + b.scl() == s);
    let m = b.mant();
    let p = pow10((s - b.scl()) as nat);
    let q = pow10(b.scl());
    assert(m * p * q == m * (p * q)) by (nonlinear_arith);
}


pub proof fn lemma_nat_digits_all_digits(n: nat)
    ensures
        all_digits(nat_digits(n)),
        digits_value(nat_digits(n)) == n,
    decreases n,
{
    if n < 10 {
        let d = nat_digits(n);
        assert(d.drop_last() =~= Seq::<char>::empty());
        assert(char_digit(digit_char(n as int)) == n);
        assert(digits_value(d) == digits_value(d.drop_last()) * 10 + char_digit(d.last()));
    } else {
        lemma_nat_digits_all_digits(n / 10);
        let d = nat_digits(n);
        assert(d.drop_last() =~= nat_digits(n / 10));
        assert(char_digit(digit_char((n % 10) as int)) == n % 10);
        assert((n / 10) * 10 + n % 10 == n);
        assert forall|i: int| 0 <= i < d.len() implies is_digit(#[trigger] d[i]) by {
            if i < d.len() - 1 {
                assert(d[i] == nat_digits(n / 10)[i]);
            }
        }
    }
}

pub proof fn lemma_zeros_value(z: Seq<char>, x: Seq<char>)
    requires
        forall|i: int| 0 <= i < z.len() ==> #[trigger] z[i] == '0',
    ensures
        digits_value(z + x) == digits_value(x),
    decreases x.len(),
{
    if x.len() == 0 {
        assert(z + x =~= z);
        lemma_zeros_only(z);
    } else {
        assert((z + x).drop_last() =~= z + x.drop_last());
        assert((z + x).last() == x.last());
        lemma_zeros_value(z, x.drop_last());
    }
}

pub proof fn lemma_zeros_only(z: Seq<char>)
    requires
        forall|i: int| 0 <= i < z.len() ==> #[trigger] z[i] == '0',
    ensures
        digits_value(z) == 0,
    decreases z.len(),
{
    if z.len() > 0 {
        assert(z.last() == z[z.len() - 1]);
        lemma_zeros_only(z.drop_last());
    }
}

proof fn lemma_no_point(a: Seq<char>)
    requires
        all_digits(a),
    ensures
        first_index_of(a, '.') == -1,
    decreases a.len(),
{
    if a.len() > 0 {
        assert(is_digit(a[0]));
        assert(all_digits(a.drop_first())) by {
            assert forall|i: int| 0 <= i < a.drop_first().len() implies is_digit(#[trigger] a.drop_first()[i]) by {
                assert(a.drop_first()[i] == a[i + 1]);
            }
        }
        lemma_no_point(a.drop_first());
    }
}

proof fn lemma_point_at(a: Seq<char>, b: Seq<char>)
    requires
        all_digits(a),
    ensures
        first_index_of(a + seq!['.'] + b, '.') == a.len(),
    decreases a.len(),
{
    let t = a + seq!['.'] + b;
    if a.len() == 0 {
        assert(t[0] == '.');
    } else {
        assert(is_digit(a[0]));
        assert(t[0] == a[0]);
        assert(all_digits(a.drop_first())) by {
            assert forall|i: int| 0 <= i < a.drop_first().len() implies is_digit(#[trigger] a.drop_first()[i]) by {
                assert(a.drop_first()[i] == a[i + 1]);
            }
        }
        assert(t.drop_first() =~= a.drop_first() + seq!['.'] + b);
        lemma_point_at(a.drop_first(), b);
    }
}

/// Reading back how a number is written gives the number: the text is a number, with the
/// same mantissa and as many digits after the point as the scale.
pub proof fn law_decimal_text_round_trip(m: int, s: nat)
    ensures
        number_syntax(decimal_text(m, s)),
        number_mantissa(decimal_text(m, s)) == m,
        number_frac_part(decimal_text(m, s)).len() == s,
{
    let a = abs_int(m) as nat;
    let ds = nat_digits(a);
    lemma_nat_digits_all_digits(a);
    lemma_nat_digits_len(a);
    let padded = if ds.len() <= s {
        Seq::new((s + 1 - ds.len()) as nat, |i: int| '0') + ds
    } else {
        ds
    };
    assert(all_digits(padded) && digits_value(padded) == a && padded.len() > s) by {
        if ds.len() <= s {
            let z = Seq::new((s + 1 - ds.len()) as nat, |i: int| '0');
            lemma_zeros_value(z, ds);
            assert forall|i: int| 0 <= i < padded.len() implies is_digit(#[trigger] padded[i]) by {
                if i >= z.len() {
                    assert(padded[i] == ds[i - z.len()]);
                }
            }
        }
    }
    let body = if s == 0 {
        padded
    } else {
        padded.take(padded.len() - s) + seq!['.'] + padded.skip(padded.len() - s)
    };
    let t = decimal_text(m, s);
    assert(number_body(t) == body) by {
        if m < 0 {
            assert(t.skip(1) =~= body);
        } else {
            if body.len() > 0 {
                assert(body[0] == padded[0]);
                assert(is_digit(padded[0]));
            }
        }
    }
    if s == 0 {
        lemma_no_point(padded);
        assert(number_int_part(t) == padded);
        assert(number_frac_part(t) =~= Seq::<char>::empty());
        assert(padded + Seq::<char>::empty() =~= padded);
    } else {
        let k = padded.len() - s;
        let ip = padded.take(k);
        let fp = padded.skip(k);
        assert(all_digits(ip)) by {
            assert forall|i: int| 0 <= i < ip.len() implies is_digit(#[trigger] ip[i]) by {
                assert(ip[i] == padded[i]);
            }
        }
        assert(all_digits(fp)) by {
            assert forall|i: int| 0 <= i < fp.len() implies is_digit(#[trigger] fp[i]) by {
                assert(fp[i] == padded[i + k]);
            }
        }
        lemma_point_at(ip, fp);
        assert(body.take(k) =~= ip);
        assert(body.skip(k + 1) =~= fp);
        assert(number_int_part(t) == ip);
        assert(number_frac_part(t) == fp);
        assert(ip + fp =~= padded);
    }
}

/// Adding a number and then subtracting it again gives back the same value: with `sum` the
/// sum of `a` and `b` and `back` the difference of `sum` and `b`, as `checked_add` and
/// `checked_sub` compute them, `back` and `a` denote the same number.
pub proof fn law_add_then_sub(a: Decimal, b: Decimal, sum: Decimal, back: Decimal)
    requires
        sum.scl() == (if a.scl() >= b.scl() { a.scl() } else { b.scl() }),
        sum.mant() == a.at_scale(sum.scl()) + b.at_scale(sum.scl()),
        back.scl() == (if sum.scl() >= b.scl() { sum.scl() } else { b.scl() }),
        back.mant() == sum.at_scale(back.scl()) - b.at_scale(back.scl()),
    ensures
        back.same_value(a),
{
    let s = sum.scl();
    assert(back.scl() == s);
    assert(sum.at_scale(s) == sum.mant()) by {
        assert(pow10(0) == 1);
        assert(sum.mant() * 1 == sum.mant());
    }
    assert(back.mant() == a.at_scale(s));
    lemma_pow10_add((s - a.scl()) as nat, a.scl());
    assert(back.mant() * pow10(a.scl()) == a.mant() * pow10(s)) by (nonlinear_arith)
        requires
            back.mant() == a.mant() * pow10((s - a.scl()) as nat),
            pow10(((s - a.scl()) as nat + a.scl()) as nat) == pow10((s - a.scl()) as nat) * pow10(a.scl()),
            ((s - a.scl()) as nat + a.scl()) as nat == s,
    ;
}

} // verus!
