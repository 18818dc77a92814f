use vstd::prelude::*;

verus! {

/// A positive integer in binary: one, twice a positive integer, or twice a positive integer
/// plus one. Each positive integer has exactly one such form.
#[derive(Debug, PartialEq, Eq)]
pub enum Pos {
    One,
    Twice(Box<Pos>),
    TwicePlusOne(Box<Pos>),
}

/// An integer: zero, a positive one, or the negation of a positive one.
#[derive(Debug, PartialEq, Eq)]
pub enum Int {
    Zero,
    Plus(Pos),
    Minus(Pos),
}

/// The value of a positive integer.
pub open spec fn pos_val(p: Pos) -> int
    decreases p,
{
    match p {
        Pos::One => 1,
        Pos::Twice(q) => 2 * pos_val(*q),
        Pos::TwicePlusOne(q) => 2 * pos_val(*q) + 1,
    }
}

/// The value of an integer.
pub open spec fn int_val(z: Int) -> int {
    match z {
        Int::Zero => 0,
        Int::Plus(p) => pos_val(p),
        Int::Minus(p) => -pos_val(p),
    }
}

pub proof fn lemma_pos_positive(p: Pos)
    ensures
        pos_val(p) >= 1,
    decreases p,
{
    match p {
        Pos::One => {},
        Pos::Twice(q) => lemma_pos_positive(*q),
        Pos::TwicePlusOne(q) => lemma_pos_positive(*q),
    }
}

/// Positive integers of one value are one and the same.
pub proof fn lemma_pos_injective(a: Pos, b: Pos)
    requires
        pos_val(a) == pos_val(b),
    ensures
        a == b,
    decreases a,
{
    lemma_pos_positive(a);
    lemma_pos_positive(b);
    match a {
        Pos::One => {
            match b {
                Pos::One => {},
                Pos::Twice(q) => { lemma_pos_positive(*q); },
                Pos::TwicePlusOne(q) => { lemma_pos_positive(*q); },
            }
        },
        Pos::Twice(x) => {
            match b {
                Pos::One => { lemma_pos_positive(*x); },
                Pos::Twice(y) => { lemma_pos_injective(*x, *y); },
                Pos::TwicePlusOne(y) => { assert(false); },
            }
        },
        Pos::TwicePlusOne(x) => {
            match b {
                Pos::One => { lemma_pos_positive(*x); },
                Pos::Twice(y) => { assert(false); },
                Pos::TwicePlusOne(y) => { lemma_pos_injective(*x, *y); },
            }
        },
    }
}

/// Integers of one value are one and the same.
pub proof fn lemma_int_injective(a: Int, b: Int)
    requires
        int_val(a) == int_val(b),
    ensures
        a == b,
{
    match a {
        Int::Zero => match b {
            Int::Zero => {},
            Int::Plus(q) => { lemma_pos_positive(q); },
            Int::Minus(q) => { lemma_pos_positive(q); },
        },
        Int::Plus(p) => {
            lemma_pos_positive(p);
            match b {
                Int::Zero => {},
                Int::Plus(q) => { lemma_pos_injective(p, q); },
                Int::Minus(q) => { lemma_pos_positive(q); },
            }
        },
        Int::Minus(p) => {
            lemma_pos_positive(p);
            match b {
                Int::Zero => {},
                Int::Plus(q) => { lemma_pos_positive(q); },
                Int::Minus(q) => { lemma_pos_injective(p, q); },
            }
        },
    }
}

/// The positive integer of a value.
pub open spec fn pos_of(n: int) -> Pos
    decreases n,
{
    if n <= 1 {
        Pos::One
    } else if n % 2 == 0 {
        Pos::Twice(Box::new(pos_of(n / 2)))
    } else {
        Pos::TwicePlusOne(Box::new(pos_of(n / 2)))
    }
}

pub proof fn lemma_pos_of(n: int)
    requires
        n >= 1,
    ensures
        pos_val(pos_of(n)) == n,
    decreases n,
{
    if n > 1 {
        lemma_pos_of(n / 2);
    }
}

/// The integer of a value.
pub open spec fn int_of(n: int) -> Int {
    if n == 0 {
        Int::Zero
    } else if n > 0 {
        Int::Plus(pos_of(n))
    } else {
        Int::Minus(pos_of(-n))
    }
}

pub proof fn lemma_int_of(n: int)
    ensures
        int_val(int_of(n)) == n,
{
    if n > 0 {
        lemma_pos_of(n);
    } else if n < 0 {
        lemma_pos_of(-n);
    }
}

/// An equal positive integer.
pub fn pos_copy(p: &Pos) -> (r: Pos)
    ensures
        r == *p,
    decreases p,
{
    match p {
        Pos::One => Pos::One,
        Pos::Twice(q) => Pos::Twice(Box::new(pos_copy(q))),
        Pos::TwicePlusOne(q) => Pos::TwicePlusOne(Box::new(pos_copy(q))),
    }
}

/// An equal integer.
pub fn int_copy(z: &Int) -> (r: Int)
    ensures
        r == *z,
{
    match z {
        Int::Zero => Int::Zero,
        Int::Plus(p) => Int::Plus(pos_copy(p)),
        Int::Minus(p) => Int::Minus(pos_copy(p)),
    }
}

/// The positive integer `x`.
pub fn pos_from_u128(x: u128) -> (r: Pos)
    requires
        x >= 1,
    ensures
        pos_val(r) == x,
    decreases x,
{
    if x == 1 {
        Pos::One
    } else if x % 2 == 0 {
        Pos::Twice(Box::new(pos_from_u128(x / 2)))
    } else {
        Pos::TwicePlusOne(Box::new(pos_from_u128(x / 2)))
    }
}

/// `p + 1`.
pub fn pos_succ(p: &Pos) -> (r: Pos)
    ensures
        pos_val(r) == pos_val(*p) + 1,
    decreases p,
{
    match p {
        Pos::One => Pos::Twice(Box::new(Pos::One)),
        Pos::Twice(q) => Pos::TwicePlusOne(Box::new(pos_copy(q))),
        Pos::TwicePlusOne(q) => Pos::Twice(Box::new(pos_succ(q))),
    }
}

/// `a + b`, and `a + b + 1` when `carry`.
pub fn pos_add(a: &Pos, b: &Pos, carry: bool) -> (r: Pos)
    ensures
        pos_val(r) == pos_val(*a) + pos_val(*b) + if carry { 1int } else { 0int },
    decreases a,
{
    match (a, b) {
        (Pos::One, _) => {
            if carry {
                pos_succ(&pos_succ(b))
            } else {
                pos_succ(b)
            }
        },
        (_, Pos::One) => {
            if carry {
                pos_succ(&pos_succ(a))
            } else {
                pos_succ(a)
            }
        },
        (Pos::Twice(x), Pos::Twice(y)) => {
            if carry {
                Pos::TwicePlusOne(Box::new(pos_add(x, y, false)))
            } else {
                Pos::Twice(Box::new(pos_add(x, y, false)))
            }
        },
        (Pos::Twice(x), Pos::TwicePlusOne(y)) | (Pos::TwicePlusOne(x), Pos::Twice(y)) => {
            if carry {
                Pos::Twice(Box::new(pos_add(x, y, true)))
            } else {
                Pos::TwicePlusOne(Box::new(pos_add(x, y, false)))
            }
        },
        (Pos::TwicePlusOne(x), Pos::TwicePlusOne(y)) => {
            if carry {
                Pos::TwicePlusOne(Box::new(pos_add(x, y, true)))
            } else {
                Pos::Twice(Box::new(pos_add(x, y, true)))
            }
        },
    }
}

/// `2p - 1`.
pub fn pos_pred_double(p: &Pos) -> (r: Pos)
    ensures
        pos_val(r) == 2 * pos_val(*p) - 1,
    decreases p,
{
    proof {
        lemma_pos_positive(*p);
    }
    match p {
        Pos::One => {
            proof {
                assert(pos_val(Pos::One) == 1);
            }
            Pos::One
        },
        Pos::Twice(q) => {
            proof {
                lemma_pos_positive(**q);
            }
            let r = pos_pred_double(q);
            proof {
                assert(pos_val(Pos::TwicePlusOne(Box::new(r))) == 2 * pos_val(r) + 1);
            }
            Pos::TwicePlusOne(Box::new(r))
        },
        Pos::TwicePlusOne(q) => {
            let c = pos_copy(q);
            proof {
                assert(pos_val(Pos::Twice(Box::new(c))) == 2 * pos_val(c));
                assert(pos_val(Pos::TwicePlusOne(Box::new(Pos::Twice(Box::new(c))))) == 2 * pos_val(Pos::Twice(Box::new(c))) + 1);
            }
            Pos::TwicePlusOne(Box::new(Pos::Twice(Box::new(c))))
        },
    }
}

/// `2z`.
fn int_double(z: Int) -> (r: Int)
    ensures
        int_val(r) == 2 * int_val(z),
{
    match z {
        Int::Zero => Int::Zero,
        Int::Plus(p) => Int::Plus(Pos::Twice(Box::new(p))),
        Int::Minus(p) => Int::Minus(Pos::Twice(Box::new(p))),
    }
}

/// `2z + 1`.
fn int_succ_double(z: Int) -> (r: Int)
    ensures
        int_val(r) == 2 * int_val(z) + 1,
{
    match z {
        Int::Zero => Int::Plus(Pos::One),
        Int::Plus(p) => Int::Plus(Pos::TwicePlusOne(Box::new(p))),
        Int::Minus(p) => Int::Minus(pos_pred_double(&p)),
    }
}

/// `2z - 1`.
fn int_pred_double(z: Int) -> (r: Int)
    ensures
        int_val(r) == 2 * int_val(z) - 1,
{
    match z {
        Int::Zero => Int::Minus(Pos::One),
        Int::Plus(p) => Int::Plus(pos_pred_double(&p)),
        Int::Minus(p) => Int::Minus(Pos::TwicePlusOne(Box::new(p))),
    }
}

/// `a - b`.
pub fn pos_sub(a: &Pos, b: &Pos) -> (r: Int)
    ensures
        int_val(r) == pos_val(*a) - pos_val(*b),
    decreases a,
{
    match (a, b) {
        (Pos::TwicePlusOne(p), Pos::TwicePlusOne(q)) => int_double(pos_sub(p, q)),
        (Pos::TwicePlusOne(p), Pos::Twice(q)) => int_succ_double(pos_sub(p, q)),
        (Pos::TwicePlusOne(p), Pos::One) => Int::Plus(Pos::Twice(Box::new(pos_copy(p)))),
        (Pos::Twice(p), Pos::TwicePlusOne(q)) => int_pred_double(pos_sub(p, q)),
        (Pos::Twice(p), Pos::Twice(q)) => int_double(pos_sub(p, q)),
        (Pos::Twice(p), Pos::One) => Int::Plus(pos_pred_double(p)),
        (Pos::One, Pos::TwicePlusOne(q)) => Int::Minus(Pos::Twice(Box::new(pos_copy(q)))),
        (Pos::One, Pos::Twice(q)) => Int::Minus(pos_pred_double(q)),
        (Pos::One, Pos::One) => Int::Zero,
    }
}

/// `-z`.
pub fn int_neg(z: &Int) -> (r: Int)
    ensures
        int_val(r) == -int_val(*z),
{
    match z {
        Int::Zero => Int::Zero,
        Int::Plus(p) => Int::Minus(pos_copy(p)),
        Int::Minus(p) => Int::Plus(pos_copy(p)),
    }
}

/// `a + b`.
pub fn int_add(a: &Int, b: &Int) -> (r: Int)
    ensures
        int_val(r) == int_val(*a) + int_val(*b),
{
    match (a, b) {
        (Int::Zero, _) => int_copy(b),
        (_, Int::Zero) => int_copy(a),
        (Int::Plus(p), Int::Plus(q)) => Int::Plus(pos_add(p, q, false)),
        (Int::Minus(p), Int::Minus(q)) => Int::Minus(pos_add(p, q, false)),
        (Int::Plus(p), Int::Minus(q)) => pos_sub(p, q),
        (Int::Minus(p), Int::Plus(q)) => pos_sub(q, p),
    }
}

/// `a * b`.
pub fn pos_mul(a: &Pos, b: &Pos) -> (r: Pos)
    ensures
        pos_val(r) == pos_val(*a) * pos_val(*b),
    decreases a,
{
    match a {
        Pos::One => pos_copy(b),
        Pos::Twice(x) => {
            let m = pos_mul(x, b);
            proof {
                assert(2 * (pos_val(**x) * pos_val(*b)) == (2 * pos_val(**x)) * pos_val(*b)) by (nonlinear_arith);
            }
            Pos::Twice(Box::new(m))
        },
        Pos::TwicePlusOne(x) => {
            let m = pos_mul(x, b);
            proof {
                assert(2 * (pos_val(**x) * pos_val(*b)) + pos_val(*b) == (2 * pos_val(**x) + 1) * pos_val(*b)) by (nonlinear_arith);
            }
            pos_add(&Pos::Twice(Box::new(m)), b, false)
        },
    }
}

/// `a * b`.
pub fn int_mul(a: &Int, b: &Int) -> (r: Int)
    ensures
        int_val(r) == int_val(*a) * int_val(*b),
{
    match (a, b) {
        (Int::Zero, _) => Int::Zero,
        (_, Int::Zero) => Int::Zero,
        (Int::Plus(p), Int::Plus(q)) => Int::Plus(pos_mul(p, q)),
        (Int::Minus(p), Int::Minus(q)) => {
            proof {
                assert((-pos_val(*p)) * (-pos_val(*q)) == pos_val(*p) * pos_val(*q)) by (nonlinear_arith);
            }
            Int::Plus(pos_mul(p, q))
        },
        (Int::Plus(p), Int::Minus(q)) => {
            proof {
                assert(pos_val(*p) * (-pos_val(*q)) == -(pos_val(*p) * pos_val(*q))) by (nonlinear_arith);
            }
            Int::Minus(pos_mul(p, q))
        },
        (Int::Minus(p), Int::Plus(q)) => {
            proof {
                assert((-pos_val(*p)) * pos_val(*q) == -(pos_val(*p) * pos_val(*q))) by (nonlinear_arith);
            }
            Int::Minus(pos_mul(p, q))
        },
    }
}

/// `10 z`.
pub fn int_times_ten(z: &Int) -> (r: Int)
    ensures
        int_val(r) == 10 * int_val(*z),
{
    let ten = Int::Plus(Pos::Twice(Box::new(Pos::TwicePlusOne(Box::new(Pos::Twice(Box::new(Pos::One)))))));
    proof {
        reveal_with_fuel(pos_val, 5);
        assert(int_val(ten) == 10);
    }
    int_mul(&ten, z)
}

/// The quotient and remainder of `p` by ten.
pub fn pos_divmod_ten(p: &Pos) -> (r: (Int, u8))
    ensures
        int_val(r.0) == pos_val(*p) / 10,
        r.1 as int == pos_val(*p) % 10,
        r.1 < 10,
    decreases p,
{
    match p {
        Pos::One => (Int::Zero, 1),
        Pos::Twice(q) | Pos::TwicePlusOne(q) => {
            let b: u8 = match p {
                Pos::TwicePlusOne(_) => 1,
                _ => 0,
            };
            let (d, m) = pos_divmod_ten(q);
            let t: u8 = 2 * m + b;
            proof {
                lemma_pos_positive(**q);
                let v = pos_val(**q);
                assert(pos_val(*p) == 2 * v + b);
                assert(v == 10 * (v / 10) + v % 10);
            }
            if t >= 10 {
                let q2 = int_succ_double(d);
                proof {
                    let v = pos_val(**q);
                    assert(pos_val(*p) == 10 * (2 * (v / 10) + 1) + (t - 10)) by (nonlinear_arith)
                        requires pos_val(*p) == 2 * v + b, v == 10 * (v / 10) + v % 10, t == 2 * (v % 10) + b;
                    assert(pos_val(*p) / 10 == 2 * (v / 10) + 1) by (nonlinear_arith)
                        requires pos_val(*p) == 10 * (2 * (v / 10) + 1) + (t - 10), 0 <= t - 10 < 10;
                    assert(pos_val(*p) % 10 == t - 10) by (nonlinear_arith)
                        requires pos_val(*p) == 10 * (2 * (v / 10) + 1) + (t - 10), 0 <= t - 10 < 10;
                }
                (q2, t - 10)
            } else {
                let q2 = int_double(d);
                proof {
                    let v = pos_val(**q);
                    assert(pos_val(*p) == 10 * (2 * (v / 10)) + t) by (nonlinear_arith)
                        requires pos_val(*p) == 2 * v + b, v == 10 * (v / 10) + v % 10, t == 2 * (v % 10) + b;
                    assert(pos_val(*p) / 10 == 2 * (v / 10)) by (nonlinear_arith)
                        requires pos_val(*p) == 10 * (2 * (v / 10)) + t, 0 <= t < 10;
                    assert(pos_val(*p) % 10 == t) by (nonlinear_arith)
                        requires pos_val(*p) == 10 * (2 * (v / 10)) + t, 0 <= t < 10;
                }
                (q2, t)
            }
        },
    }
}

/// The value of `p`, when it fits a `u128`.
pub fn pos_to_u128(p: &Pos) -> (r: Option<u128>)
    ensures
        match r {
            Some(x) => x as int == pos_val(*p),
            None => pos_val(*p) > u128::MAX,
        },
    decreases p,
{
    match p {
        Pos::One => Some(1),
        Pos::Twice(q) | Pos::TwicePlusOne(q) => {
            let b: u128 = match p {
                Pos::TwicePlusOne(_) => 1,
                _ => 0,
            };
            match pos_to_u128(q) {
                Some(x) => {
                    if x > (u128::MAX - b) / 2 {
                        None
                    } else {
                        Some(2 * x + b)
                    }
                },
                None => None,
            }
        },
    }
}

/// The quotient and remainder of a non-negative `z` by ten.
pub fn nat_divmod_ten(z: &Int) -> (r: (Int, u8))
    requires
        int_val(*z) >= 0,
    ensures
        int_val(r.0) == int_val(*z) / 10,
        int_val(r.0) >= 0,
        r.1 as int == int_val(*z) % 10,
        r.1 < 10,
{
    match z {
        Int::Zero => (Int::Zero, 0),
        Int::Plus(p) => {
            proof {
                lemma_pos_positive(*p);
            }
            pos_divmod_ten(p)
        },
        Int::Minus(p) => {
            proof {
                lemma_pos_positive(*p);
            }
            (Int::Zero, 0)
        },
    }
}

/// The integer `x`, for a small non-negative `x`.
pub fn int_from_u128(x: u128) -> (r: Int)
    ensures
        int_val(r) == x,
{
    if x == 0 {
        Int::Zero
    } else {
        Int::Plus(pos_from_u128(x))
    }
}

impl Int {
    /// Whether the integer is zero.
    pub fn is_zero_int(&self) -> (r: bool)
        ensures
            r == (int_val(*self) == 0),
    {
        match self {
            Int::Zero => true,
            Int::Plus(p) => {
                proof {
                    lemma_pos_positive(*p);
                }
                false
            },
            Int::Minus(p) => {
                proof {
                    lemma_pos_positive(*p);
                }
                false
            },
        }
    }
}

} // verus!
