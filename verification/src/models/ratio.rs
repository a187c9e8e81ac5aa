//! Exact rational numbers.
use vstd::prelude::*;

verus! {

/// A rational number in the mathematical sense: any numerator over any
/// denominator. Contracts speak of these; the machine works with `Ratio`.
pub struct Rational {
    pub num: int,
    pub den: int,
}

impl Rational {
    /// The largest integer that is not above the number (for a positive
    /// denominator).
    pub open spec fn floor(self) -> int {
        self.num / self.den
    }

    /// The smallest integer that is not below the number (for a positive
    /// denominator).
    pub open spec fn ceil(self) -> int {
        -((-self.num) / self.den)
    }
}

/// An exact rational number: a 128-bit numerator over a positive 128-bit
/// denominator. The fraction is kept as it was made, not reduced.
#[derive(Debug, Clone, Copy)]
pub struct Ratio {
    num: i128,
    den: i128,
}

impl View for Ratio {
    type V = Rational;

    closed spec fn view(&self) -> Rational {
        Rational { num: self.num as int, den: self.den as int }
    }
}

impl Ratio {
    #[verifier::type_invariant]
    spec fn positive_denominator(self) -> bool {
        self.den > 0
    }

    /// The fraction `num / den`, where `den` is positive.
    pub fn new(num: i128, den: i128) -> (r: Option<Ratio>)
        ensures
            r.is_some() <==> den > 0,
            r matches Some(q) ==> q@ == (Rational { num: num as int, den: den as int }),
    {
        if den > 0 {
            Some(Ratio { num, den })
        } else {
            None
        }
    }

    /// The whole number `n`, as `n / 1`.
    pub fn from_int(n: i128) -> (r: Ratio)
        ensures
            r@ == (Rational { num: n as int, den: 1 }),
    {
        Ratio { num: n, den: 1 }
    }

    pub fn num(&self) -> (n: i128)
        ensures
            n == self@.num,
    {
        self.num
    }

    pub fn den(&self) -> (d: i128)
        ensures
            d == self@.den,
            d > 0,
    {
        proof {
            use_type_invariant(self);
        }
        self.den
    }

    /// The largest integer that is not above the number.
    pub fn floor(&self) -> (f: i128)
        ensures
            f == self@.floor(),
    {
        proof {
            use_type_invariant(self);
            lemma_quotient_bounds(self.num as int, self.den as int);
        }
        match self.num.checked_div_euclid(self.den) {
            Some(q) => q,
            None => 0,
        }
    }

    /// The smallest integer that is not below the number.
    pub fn ceil(&self) -> (c: i128)
        ensures
            c == self@.ceil(),
    {
        proof {
            use_type_invariant(self);
            lemma_quotient_bounds(self.num as int, self.den as int);
            lemma_quotient_bounds(-(self.num as int), self.den as int);
        }
        if self.num == i128::MIN {
            // -MIN is out of range, but MIN / den is its own ceiling or one below it
            let q: i128 = match self.num.checked_div_euclid(self.den) {
                Some(q) => q,
                None => 0,
            };
            let r: i128 = match self.num.checked_rem_euclid(self.den) {
                Some(r) => r,
                None => 0,
            };
            proof {
                lemma_ceil_from_floor(self.num as int, self.den as int);
            }
            if r == 0 {
                q
            } else {
                q + 1
            }
        } else {
            let neg: i128 = -self.num;
            match neg.checked_div_euclid(self.den) {
                Some(q) => -q,
                None => 0,
            }
        }
    }
}

/// A quotient by a positive number is no larger in size than the dividend.
pub proof fn lemma_quotient_bounds(n: int, d: int)
    requires
        d > 0,
    ensures
        n >= 0 ==> 0 <= n / d <= n,
        n < 0 ==> n <= n / d < 0,
{
    vstd::arithmetic::div_mod::lemma_fundamental_div_mod(n, d);
    vstd::arithmetic::div_mod::lemma_mod_bound(n, d);
    let q = n / d;
    let r = n % d;
    assert(n == d * q + r);
    if n >= 0 {
        assert(q >= 0) by (nonlinear_arith)
            requires n == d * q + r, 0 <= r < d, d > 0, n >= 0;
        assert(q <= n) by (nonlinear_arith)
            requires n == d * q + r, 0 <= r < d, d > 0, q >= 0;
    } else {
        assert(q < 0) by (nonlinear_arith)
            requires n == d * q + r, 0 <= r < d, d > 0, n < 0;
        assert(n <= q) by (nonlinear_arith)
            requires n == d * q + r, 0 <= r < d, d > 0, q < 0;
    }
}

/// The ceiling is the floor where the division is exact, and one more where
/// it is not.
pub proof fn lemma_ceil_from_floor(n: int, d: int)
    requires
        d > 0,
    ensures
        -((-n) / d) == (if n % d == 0 { n / d } else { n / d + 1 }),
{
    vstd::arithmetic::div_mod::lemma_fundamental_div_mod(n, d);
    vstd::arithmetic::div_mod::lemma_mod_bound(n, d);
    vstd::arithmetic::div_mod::lemma_fundamental_div_mod(-n, d);
    vstd::arithmetic::div_mod::lemma_mod_bound(-n, d);
    let q = n / d;
    let r = n % d;
    let q2 = (-n) / d;
    let r2 = (-n) % d;
    assert(n == d * q + r);
    assert(-n == d * q2 + r2);
    if r == 0 {
        assert(q2 == -q) by (nonlinear_arith)
            requires n == d * q, -n == d * q2 + r2, 0 <= r2 < d, d > 0;
    } else {
        assert(q2 == -q - 1) by (nonlinear_arith)
            requires n == d * q + r, -n == d * q2 + r2, 0 <= r2 < d, 0 < r < d, d > 0;
    }
}

} // verus!
