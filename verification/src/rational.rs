//! Exact rational numbers.
//!
//! An [`ExactNumber`] is a numerator/denominator pair of machine integers,
//! always stored in lowest terms with a positive denominator, so equal
//! values have equal representations and no precision is ever lost. The
//! specification-level model of a rational is a pair `(int, int)` with a
//! positive second component; two pairs denote the same value exactly when
//! their cross products agree.

use vstd::prelude::*;
use vstd::arithmetic::div_mod::{
    lemma_fundamental_div_mod, lemma_div_multiples_vanish, lemma_div_denominator,
};

verus! {

/// Absolute value of a mathematical integer.
pub open spec fn iabs(x: int) -> int {
    if x < 0 {
        -x
    } else {
        x
    }
}

/// `k` divides `n`.
pub open spec fn divides(k: int, n: int) -> bool {
    exists|m: int| n == #[trigger] (k * m)
}

/// No integer greater than one divides both `a` and `b`.
pub open spec fn coprime(a: int, b: int) -> bool {
    forall|k: int| #![trigger divides(k, a), divides(k, b)]
        k >= 2 && divides(k, a) && divides(k, b) ==> false
}

/// The pair denotes a rational: its denominator is positive.
pub open spec fn rat_wf(a: (int, int)) -> bool {
    a.1 > 0
}

/// The two pairs denote the same rational value.
pub open spec fn rat_eq(a: (int, int), b: (int, int)) -> bool {
    a.0 * b.1 == b.0 * a.1
}

/// `a` denotes a strictly smaller value than `b` (denominators positive).
pub open spec fn rat_lt(a: (int, int), b: (int, int)) -> bool {
    a.0 * b.1 < b.0 * a.1
}

pub open spec fn rat_from_int(n: int) -> (int, int) {
    (n, 1)
}

pub open spec fn rat_add(a: (int, int), b: (int, int)) -> (int, int) {
    (a.0 * b.1 + b.0 * a.1, a.1 * b.1)
}

pub open spec fn rat_sub(a: (int, int), b: (int, int)) -> (int, int) {
    (a.0 * b.1 - b.0 * a.1, a.1 * b.1)
}

pub open spec fn rat_mul(a: (int, int), b: (int, int)) -> (int, int) {
    (a.0 * b.0, a.1 * b.1)
}

/// Absolute value.
pub open spec fn rat_abs(a: (int, int)) -> (int, int) {
    (iabs(a.0), a.1)
}

/// Reciprocal, with the sign kept on the numerator.
pub open spec fn rat_recip(a: (int, int)) -> (int, int) {
    if a.0 >= 0 {
        (a.1, a.0)
    } else {
        (-a.1, -a.0)
    }
}

/// Division truncated toward zero, as machine division behaves.
pub open spec fn tdiv(n: int, d: int) -> int {
    if n >= 0 {
        n / d
    } else {
        -((-n) / d)
    }
}

/// Remainder of division truncated toward zero: it keeps the sign of `n`.
pub open spec fn tmod(n: int, d: int) -> int {
    n - d * tdiv(n, d)
}

/// Fractional part: the value minus its integer part truncated toward zero.
pub open spec fn rat_fract(a: (int, int)) -> (int, int) {
    (tmod(a.0, a.1), a.1)
}

/// An exact rational value: numerator and positive denominator in lowest
/// terms. All contracts speak of the view `(num as int, den as int)`.
#[derive(Clone, Copy)]
pub struct ExactNumber {
    pub num: i64,
    pub den: i64,
}

impl View for ExactNumber {
    type V = (int, int);

    open spec fn view(&self) -> (int, int) {
        (self.num as int, self.den as int)
    }
}

impl ExactNumber {
    /// The representation invariant: positive denominator, a numerator
    /// whose negation still fits, and lowest terms.
    pub open spec fn wf(self) -> bool {
        &&& self.den > 0
        &&& self.num > i64::MIN
        &&& coprime(self.num as int, self.den as int)
    }
}

proof fn lemma_divides_self_and_zero(a: int)
    ensures
        divides(a, a),
        divides(a, 0),
{
    assert(a == a * 1);
    assert(0 == a * 0);
}

proof fn lemma_divides_neg(k: int, n: int)
    requires
        divides(k, n),
    ensures
        divides(k, -n),
{
    let m = choose|m: int| n == #[trigger] (k * m);
    assert(-n == k * (-m)) by (nonlinear_arith)
        requires
            n == k * m,
    ;
}

/// A positive divisor of a positive number is no larger than it.
proof fn lemma_divides_pos_le(a: int, b: int)
    requires
        a > 0,
        b > 0,
        divides(a, b),
    ensures
        a <= b,
{
    let m = choose|m: int| b == #[trigger] (a * m);
    assert(a <= b) by (nonlinear_arith)
        requires
            b == a * m,
            a > 0,
            b > 0,
    ;
}

/// Common divisors are unchanged when the larger argument is replaced by
/// the remainder of Euclidean division.
proof fn lemma_common_divisors_mod(k: int, a: int, b: int)
    requires
        b > 0,
        a >= 0,
    ensures
        (divides(k, a) && divides(k, b)) <==> (divides(k, b) && divides(k, a % b)),
{
    lemma_fundamental_div_mod(a, b);
    let q = a / b;
    if divides(k, a) && divides(k, b) {
        let ma = choose|m: int| a == #[trigger] (k * m);
        let mb = choose|m: int| b == #[trigger] (k * m);
        assert(a % b == k * (ma - mb * q)) by (nonlinear_arith)
            requires
                a == k * ma,
                b == k * mb,
                a == b * q + (a % b),
        ;
    }
    if divides(k, b) && divides(k, a % b) {
        let mb = choose|m: int| b == #[trigger] (k * m);
        let mr = choose|m: int| a % b == #[trigger] (k * m);
        assert(a == k * (mb * q + mr)) by (nonlinear_arith)
            requires
                b == k * mb,
                a % b == k * mr,
                a == b * q + (a % b),
        ;
    }
}

/// Greatest common divisor by Euclid's algorithm. The result divides both
/// arguments and every common divisor divides it.
fn gcd64(a0: u64, b0: u64) -> (g: u64)
    requires
        a0 > 0 || b0 > 0,
    ensures
        g > 0,
        divides(g as int, a0 as int),
        divides(g as int, b0 as int),
        forall|k: int| #![trigger divides(k, a0 as int), divides(k, b0 as int)]
            k > 0 && divides(k, a0 as int) && divides(k, b0 as int) ==> divides(k, g as int),
{
    let mut a: u64 = a0;
    let mut b: u64 = b0;
    while b != 0
        invariant
            a > 0 || b > 0,
            forall|k: int| #![trigger divides(k, a as int)]
                (divides(k, a as int) && divides(k, b as int)) <==> (divides(k, a0 as int)
                    && divides(k, b0 as int)),
        decreases b,
    {
        let r: u64 = a % b;
        proof {
            assert forall|k: int|
                (divides(k, b as int) && divides(k, r as int)) <==> (divides(k, a0 as int)
                    && divides(k, b0 as int)) by {
                lemma_common_divisors_mod(k, a as int, b as int);
                assert((divides(k, a as int) && divides(k, b as int)) <==> (divides(
                    k,
                    a0 as int,
                ) && divides(k, b0 as int)));
            }
        }
        a = b;
        b = r;
    }
    proof {
        lemma_divides_self_and_zero(a as int);
        assert(divides(a as int, a as int) && divides(a as int, b as int));
    }
    a
}

/// Exact division: if `g` divides `n`, the machine quotient recovers the
/// cofactor.
proof fn lemma_exact_div(n: int, g: int)
    requires
        g > 0,
        divides(g, n),
        n >= 0,
    ensures
        n == g * (n / g),
{
    let m = choose|m: int| n == #[trigger] (g * m);
    lemma_div_multiples_vanish(m, g);
}

impl ExactNumber {
    /// Builds the exact rational `num / den`, reduced to lowest terms with
    /// a positive denominator.
    pub fn new(num: i64, den: i64) -> (r: Self)
        requires
            den != 0,
            num > i64::MIN,
            den > i64::MIN,
        ensures
            r.wf(),
            rat_eq(r@, (num as int, den as int)),
            iabs(r@.0) <= iabs(num as int),
            r@.1 <= iabs(den as int),
    {
        let (n, d): (i64, i64) = if den < 0 {
            (-num, -den)
        } else {
            (num, den)
        };
        let na: u64 = if n < 0 {
            (-n) as u64
        } else {
            n as u64
        };
        let da: u64 = d as u64;
        let g: u64 = gcd64(na, da);
        proof {
            lemma_exact_div(na as int, g as int);
            lemma_exact_div(da as int, g as int);
            assert((na / g) as int == na as int / g as int);
            assert((da / g) as int == da as int / g as int);
            assert(na as int / g as int <= na as int && da as int / g as int <= da as int)
                by (nonlinear_arith)
                requires
                    g >= 1,
                    na as int == g as int * (na as int / g as int),
                    da as int == g as int * (da as int / g as int),
                    na as int / g as int >= 0,
                    da as int / g as int >= 0,
            ;
        }
        let qn: u64 = na / g;
        let qd: u64 = da / g;
        let rnum: i64 = if n < 0 {
            -(qn as i64)
        } else {
            qn as i64
        };
        let rden: i64 = qd as i64;
        let r = ExactNumber { num: rnum, den: rden };
        proof {
            let gi = g as int;
            let mn = na as int / gi;
            let md = da as int / gi;
            // The reduced denominator is positive.
            assert(md > 0) by (nonlinear_arith)
                requires
                    da as int == gi * md,
                    da as int > 0,
                    gi > 0,
                    md >= 0,
            ;
            // Lowest terms: a common divisor k >= 2 of the quotients would
            // make k * g a common divisor of the inputs, hence a divisor of
            // g itself, which is impossible.
            assert(mn == iabs(r@.0));
            assert forall|k: int|
                k >= 2 && divides(k, r@.0) && divides(k, r@.1) implies false by {
                lemma_divides_neg(k, r@.0);
                let kn = if r@.0 >= 0 { choose|m: int| r@.0 == #[trigger] (k * m) }
                    else { choose|m: int| -r@.0 == #[trigger] (k * m) };
                let kd = choose|m: int| r@.1 == #[trigger] (k * m);
                assert(mn == k * kn) by (nonlinear_arith)
                    requires
                        mn == iabs(r@.0),
                        iabs(r@.0) == if r@.0 >= 0 { r@.0 } else { -r@.0 },
                        if r@.0 >= 0 { r@.0 == k * kn } else { -r@.0 == k * kn },
                ;
                assert(na as int == (k * gi) * kn && da as int == (k * gi) * kd)
                    by (nonlinear_arith)
                    requires
                        na as int == gi * mn,
                        da as int == gi * md,
                        mn == k * kn,
                        md == k * kd,
                ;
                assert(divides(k * gi, na as int));
                assert(divides(k * gi, da as int));
                assert(k * gi > 0) by (nonlinear_arith)
                    requires
                        k >= 2,
                        gi > 0,
                ;
                assert(divides(k * gi, gi));
                lemma_divides_pos_le(k * gi, gi);
                assert(false) by (nonlinear_arith)
                    requires
                        k >= 2,
                        gi > 0,
                        k * gi <= gi,
                ;
            }
            // The reduced pair denotes the same value as the input pair.
            assert(rat_eq(r@, (n as int, d as int))) by (nonlinear_arith)
                requires
                    na as int == gi * mn,
                    da as int == gi * md,
                    r@.0 == if n < 0 { -mn } else { mn },
                    r@.1 == md,
                    na as int == iabs(n as int),
                    da as int == d as int,
                    iabs(n as int) == if (n as int) < 0 { -(n as int) } else { n as int },
                    gi > 0,
            ;
            assert(rat_eq(r@, (num as int, den as int))) by (nonlinear_arith)
                requires
                    rat_eq(r@, (n as int, d as int)),
                    n as int == if den < 0 { -(num as int) } else { num as int },
                    d as int == if den < 0 { -(den as int) } else { den as int },
            ;
        }
        r
    }

    /// The exact rational equal to the integer `n`.
    pub fn from_int(n: i64) -> (r: Self)
        requires
            n > i64::MIN,
        ensures
            r.wf(),
            r@ == rat_from_int(n as int),
    {
        proof {
            assert forall|k: int| k >= 2 && divides(k, n as int) && divides(k, 1int)
                implies false by {
                let m = choose|m: int| 1int == #[trigger] (k * m);
                assert(false) by (nonlinear_arith)
                    requires
                        1int == k * m,
                        k >= 2,
                ;
            }
        }
        ExactNumber { num: n, den: 1 }
    }

    /// The sum of the two values fits the machine representation before
    /// reduction.
    pub open spec fn add_fits(a: (int, int), b: (int, int)) -> bool {
        &&& iabs(a.0 * b.1 + b.0 * a.1) <= i64::MAX
        &&& a.1 * b.1 <= i64::MAX
    }

    /// The difference of the two values fits the machine representation
    /// before reduction.
    pub open spec fn sub_fits(a: (int, int), b: (int, int)) -> bool {
        &&& iabs(a.0 * b.1 - b.0 * a.1) <= i64::MAX
        &&& a.1 * b.1 <= i64::MAX
    }

    /// The product of the two values fits the machine representation before
    /// reduction.
    pub open spec fn mul_fits(a: (int, int), b: (int, int)) -> bool {
        &&& iabs(a.0 * b.0) <= i64::MAX
        &&& a.1 * b.1 <= i64::MAX
    }

    /// Exact addition.
    pub fn add(&self, other: &ExactNumber) -> (r: Self)
        requires
            self.wf(),
            other.wf(),
            Self::add_fits(self@, other@),
        ensures
            r.wf(),
            rat_eq(r@, rat_add(self@, other@)),
            iabs(r@.0) <= iabs(rat_add(self@, other@).0),
            r@.1 <= rat_add(self@, other@).1,
    {
        proof {
            lemma_prod_bound(self.num as int, other.den as int);
            lemma_prod_bound(other.num as int, self.den as int);
            lemma_prod_bound(self.den as int, other.den as int);
        }
        let rn: i128 = (self.num as i128) * (other.den as i128) + (other.num as i128) * (
        self.den as i128);
        let rd: i128 = (self.den as i128) * (other.den as i128);
        proof {
            assert(rd > 0) by (nonlinear_arith)
                requires
                    rd == (self.den as int) * (other.den as int),
                    self.den > 0,
                    other.den > 0,
            ;
        }
        ExactNumber::new(rn as i64, rd as i64)
    }

    /// Exact subtraction.
    pub fn sub(&self, other: &ExactNumber) -> (r: Self)
        requires
            self.wf(),
            other.wf(),
            Self::sub_fits(self@, other@),
        ensures
            r.wf(),
            rat_eq(r@, rat_sub(self@, other@)),
            iabs(r@.0) <= iabs(rat_sub(self@, other@).0),
            r@.1 <= rat_sub(self@, other@).1,
    {
        proof {
            lemma_prod_bound(self.num as int, other.den as int);
            lemma_prod_bound(other.num as int, self.den as int);
            lemma_prod_bound(self.den as int, other.den as int);
        }
        let rn: i128 = (self.num as i128) * (other.den as i128) - (other.num as i128) * (
        self.den as i128);
        let rd: i128 = (self.den as i128) * (other.den as i128);
        proof {
            assert(rd > 0) by (nonlinear_arith)
                requires
                    rd == (self.den as int) * (other.den as int),
                    self.den > 0,
                    other.den > 0,
            ;
        }
        ExactNumber::new(rn as i64, rd as i64)
    }

    /// Exact multiplication.
    pub fn mul(&self, other: &ExactNumber) -> (r: Self)
        requires
            self.wf(),
            other.wf(),
            Self::mul_fits(self@, other@),
        ensures
            r.wf(),
            rat_eq(r@, rat_mul(self@, other@)),
            iabs(r@.0) <= iabs(rat_mul(self@, other@).0),
            r@.1 <= rat_mul(self@, other@).1,
    {
        proof {
            lemma_prod_bound(self.num as int, other.num as int);
            lemma_prod_bound(self.den as int, other.den as int);
        }
        let rn: i128 = (self.num as i128) * (other.num as i128);
        let rd: i128 = (self.den as i128) * (other.den as i128);
        proof {
            assert(rd > 0) by (nonlinear_arith)
                requires
                    rd == (self.den as int) * (other.den as int),
                    self.den > 0,
                    other.den > 0,
            ;
        }
        ExactNumber::new(rn as i64, rd as i64)
    }

    /// Exact reciprocal of a nonzero value. The result is again in lowest
    /// terms, so no reduction is needed.
    pub fn recip(&self) -> (r: Self)
        requires
            self.wf(),
            self@.0 != 0,
        ensures
            r.wf(),
            r@ == rat_recip(self@),
    {
        proof {
            lemma_coprime_sym_neg(self.num as int, self.den as int);
        }
        if self.num > 0 {
            ExactNumber { num: self.den, den: self.num }
        } else {
            ExactNumber { num: -self.den, den: -self.num }
        }
    }

    /// Exact absolute value.
    pub fn abs(&self) -> (r: Self)
        requires
            self.wf(),
        ensures
            r.wf(),
            r@ == rat_abs(self@),
    {
        proof {
            lemma_coprime_abs(self.num as int, self.den as int);
        }
        ExactNumber { num: if self.num < 0 { -self.num } else { self.num }, den: self.den }
    }

    /// Exact fractional part: the value minus its integer part truncated
    /// toward zero, so the result keeps the sign of the value.
    pub fn fract(&self) -> (r: Self)
        requires
            self.wf(),
        ensures
            r.wf(),
            rat_eq(r@, rat_fract(self@)),
            r@.1 <= self@.1,
    {
        let na: u64 = if self.num < 0 {
            (-self.num) as u64
        } else {
            self.num as u64
        };
        let m: u64 = na % (self.den as u64);
        let sm: i64 = if self.num < 0 {
            -(m as i64)
        } else {
            m as i64
        };
        proof {
            let ni = self.num as int;
            let di = self.den as int;
            let q = (na as int) / di;
            let rr = (na as int) % di;
            lemma_fundamental_div_mod(na as int, di);
            assert(na as int == di * q + rr);
            if self.num < 0 {
                assert(tdiv(ni, di) == -q);
                assert(ni - di * (-q) == -rr) by (nonlinear_arith)
                    requires
                        -ni == di * q + rr,
                ;
                assert(sm as int == tmod(ni, di));
            } else {
                assert(tdiv(ni, di) == q);
                assert(ni - di * q == rr);
                assert(sm as int == tmod(ni, di));
            }
        }
        ExactNumber::new(sm, self.den)
    }

    /// Exact strict comparison of the two values.
    pub fn lt(&self, other: &ExactNumber) -> (r: bool)
        requires
            self.wf(),
            other.wf(),
        ensures
            r == rat_lt(self@, other@),
    {
        proof {
            lemma_prod_bound(self.num as int, other.den as int);
            lemma_prod_bound(other.num as int, self.den as int);
        }
        (self.num as i128) * (other.den as i128) < (other.num as i128) * (self.den as i128)
    }

    /// The numerator of the stored lowest-terms representation.
    pub fn numer(&self) -> (r: i64)
        ensures
            r as int == self@.0,
    {
        self.num
    }

    /// The denominator of the stored lowest-terms representation.
    pub fn denom(&self) -> (r: i64)
        ensures
            r as int == self@.1,
    {
        self.den
    }
}

/// The decimal digit character for `d`.
pub open spec fn spec_digit_char(d: int) -> char {
    if d == 0 {
        '0'
    } else if d == 1 {
        '1'
    } else if d == 2 {
        '2'
    } else if d == 3 {
        '3'
    } else if d == 4 {
        '4'
    } else if d == 5 {
        '5'
    } else if d == 6 {
        '6'
    } else if d == 7 {
        '7'
    } else if d == 8 {
        '8'
    } else {
        '9'
    }
}

/// The decimal digits of `n`, most significant first, with no leading
/// zeros except for zero itself.
pub open spec fn spec_digits(n: nat) -> Seq<char>
    decreases n,
{
    if n < 10 {
        seq![spec_digit_char(n as int)]
    } else {
        spec_digits(n / 10).push(spec_digit_char((n % 10) as int))
    }
}

/// The canonical text of an integer: an optional minus sign, then the
/// decimal digits.
pub open spec fn spec_int_text(n: int) -> Seq<char> {
    if n < 0 {
        seq!['-'] + spec_digits((-n) as nat)
    } else {
        spec_digits(n as nat)
    }
}

/// The canonical text of a lowest-terms rational: the integer alone when
/// the denominator is one, else numerator, slash, denominator.
pub open spec fn spec_label(v: (int, int)) -> Seq<char> {
    if v.1 == 1 {
        spec_int_text(v.0)
    } else {
        spec_int_text(v.0) + seq!['/'] + spec_digits(v.1 as nat)
    }
}

/// The one-character string of a decimal digit.
fn digit_str(d: u64) -> (s: &'static str)
    requires
        d < 10,
    ensures
        s@ == seq![spec_digit_char(d as int)],
{
    proof {
        reveal_strlit("0");
        reveal_strlit("1");
        reveal_strlit("2");
        reveal_strlit("3");
        reveal_strlit("4");
        reveal_strlit("5");
        reveal_strlit("6");
        reveal_strlit("7");
        reveal_strlit("8");
        reveal_strlit("9");
    }
    let s: &'static str = match d {
        0 => "0",
        1 => "1",
        2 => "2",
        3 => "3",
        4 => "4",
        5 => "5",
        6 => "6",
        7 => "7",
        8 => "8",
        _ => "9",
    };
    proof {
        assert(s@ =~= seq![spec_digit_char(d as int)]);
    }
    s
}

/// The decimal digits of `n`, most significant first.
fn u64_digits(n: u64) -> (s: String)
    ensures
        s@ == spec_digits(n as nat),
{
    let mut acc: String = String::from_str(digit_str(n % 10));
    let mut v: u64 = n / 10;
    proof {
        if v > 0 {
            assert(spec_digits(n as nat) == spec_digits((n / 10) as nat).push(
                spec_digit_char((n % 10) as int),
            ));
            assert(spec_digits((n / 10) as nat) + acc@ =~= spec_digits(n as nat));
        } else {
            assert(n < 10);
            assert(spec_digits(n as nat) =~= acc@);
        }
    }
    while v > 0
        invariant
            spec_digits(n as nat) == if v == 0 {
                acc@
            } else {
                spec_digits(v as nat) + acc@
            },
        decreases v,
    {
        let ghost vpre = v as nat;
        let ghost apre = acc@;
        let d = v % 10;
        acc = String::from_str(digit_str(d)).concat(acc.as_str());
        v = v / 10;
        proof {
            if v > 0 {
                assert(spec_digits(vpre) == spec_digits((vpre / 10) as nat).push(
                    spec_digit_char((vpre % 10) as int),
                ));
                assert(spec_digits((vpre / 10) as nat) + acc@ =~= spec_digits(vpre) + apre);
            } else {
                assert(vpre < 10);
                assert(spec_digits(vpre) + apre =~= acc@);
            }
        }
    }
    acc
}

impl ExactNumber {
    /// Renders the value in canonical textual form: the reduced fraction,
    /// or the bare integer when the denominator is one.
    pub fn to_label(&self) -> (s: String)
        requires
            self.wf(),
        ensures
            s@ == spec_label(self@),
    {
        let na: u64 = if self.num < 0 {
            (-self.num) as u64
        } else {
            self.num as u64
        };
        let digits = u64_digits(na);
        let mut s: String;
        if self.num < 0 {
            proof {
                reveal_strlit("-");
            }
            s = String::from_str("-").concat(digits.as_str());
            proof {
                assert(s@ =~= spec_int_text(self@.0));
            }
        } else {
            s = digits;
        }
        if self.den != 1 {
            proof {
                reveal_strlit("/");
            }
            let ghost spre = s@;
            let tail = u64_digits(self.den as u64);
            s = s.concat("/").concat(tail.as_str());
            proof {
                assert(spre == spec_int_text(self@.0));
                assert(s@ =~= spec_int_text(self@.0) + seq!['/'] + spec_digits(self@.1 as nat));
            }
        }
        s
    }
}

/// Products of in-range machine integers stay well inside the wide
/// intermediate range.
proof fn lemma_prod_bound(x: int, y: int)
    requires
        -0x7fff_ffff_ffff_ffff <= x <= 0x7fff_ffff_ffff_ffff,
        -0x7fff_ffff_ffff_ffff <= y <= 0x7fff_ffff_ffff_ffff,
    ensures
        iabs(x * y) <= 0x3fff_ffff_ffff_ffff_0000_0000_0000_0001,
{
    assert(iabs(x * y) <= 0x3fff_ffff_ffff_ffff_0000_0000_0000_0001) by (nonlinear_arith)
        requires
            -0x7fff_ffff_ffff_ffff <= x <= 0x7fff_ffff_ffff_ffff,
            -0x7fff_ffff_ffff_ffff <= y <= 0x7fff_ffff_ffff_ffff,
    ;
}

proof fn lemma_coprime_sym_neg(a: int, b: int)
    requires
        coprime(a, b),
    ensures
        coprime(b, a),
        coprime(-b, -a),
{
    assert forall|k: int| k >= 2 && divides(k, b) && divides(k, a) implies false by {
        assert(k >= 2 && divides(k, a) && divides(k, b));
    }
    assert forall|k: int| #![trigger divides(k, -b), divides(k, -a)] k >= 2 && divides(k, -b) && divides(k, -a) implies false by {
        lemma_divides_neg(k, -b);
        lemma_divides_neg(k, -a);
        assert(divides(k, a) && divides(k, b));
    }
}

proof fn lemma_coprime_abs(a: int, b: int)
    requires
        coprime(a, b),
    ensures
        coprime(iabs(a), b),
{
    assert forall|k: int| k >= 2 && divides(k, iabs(a)) && divides(k, b) implies false by {
        if a < 0 {
            lemma_divides_neg(k, -a);
        }
        assert(divides(k, a) && divides(k, b));
    }
}

/// Equal values have numerators of equal sign.
pub proof fn lemma_rat_eq_sign(a: (int, int), b: (int, int))
    requires
        rat_wf(a),
        rat_wf(b),
        rat_eq(a, b),
    ensures
        (a.0 > 0) == (b.0 > 0),
        (a.0 == 0) == (b.0 == 0),
{
    assert((a.0 > 0) == (b.0 > 0) && (a.0 == 0) == (b.0 == 0)) by (nonlinear_arith)
        requires
            a.0 * b.1 == b.0 * a.1,
            a.1 > 0,
            b.1 > 0,
    ;
}

/// Denoting the same value is transitive.
pub proof fn lemma_rat_eq_trans(a: (int, int), b: (int, int), c: (int, int))
    requires
        rat_wf(a),
        rat_wf(b),
        rat_wf(c),
        rat_eq(a, b),
        rat_eq(b, c),
    ensures
        rat_eq(a, c),
{
    assert(a.0 * c.1 == c.0 * a.1) by (nonlinear_arith)
        requires
            a.0 * b.1 == b.0 * a.1,
            b.0 * c.1 == c.0 * b.1,
            a.1 > 0,
            b.1 > 0,
            c.1 > 0,
    ;
}

/// Strict order respects value equality on either side.
pub proof fn lemma_rat_eq_lt(a: (int, int), b: (int, int), c: (int, int))
    requires
        rat_wf(a),
        rat_wf(b),
        rat_wf(c),
        rat_eq(a, b),
    ensures
        rat_lt(a, c) == rat_lt(b, c),
        rat_lt(c, a) == rat_lt(c, b),
{
    assert((a.0 * c.1 < c.0 * a.1) == (b.0 * c.1 < c.0 * b.1) && (c.0 * a.1 < a.0 * c.1) == (c.0
        * b.1 < b.0 * c.1)) by (nonlinear_arith)
        requires
            a.0 * b.1 == b.0 * a.1,
            a.1 > 0,
            b.1 > 0,
            c.1 > 0,
    ;
}

/// Absolute value respects value equality.
pub proof fn lemma_rat_eq_abs(a: (int, int), b: (int, int))
    requires
        rat_wf(a),
        rat_wf(b),
        rat_eq(a, b),
    ensures
        rat_eq(rat_abs(a), rat_abs(b)),
{
    assert(iabs(a.0) * b.1 == iabs(b.0) * a.1) by (nonlinear_arith)
        requires
            a.0 * b.1 == b.0 * a.1,
            a.1 > 0,
            b.1 > 0,
            iabs(a.0) == if a.0 < 0 { -a.0 } else { a.0 },
            iabs(b.0) == if b.0 < 0 { -b.0 } else { b.0 },
    ;
}

/// Scaling numerator and denominator by a positive factor leaves the
/// quotient unchanged.
proof fn lemma_div_scale(n: int, d: int, c: int)
    requires
        n >= 0,
        d > 0,
        c > 0,
    ensures
        (n * c) / (d * c) == n / d,
{
    assert(n * c >= 0) by (nonlinear_arith)
        requires
            n >= 0,
            c > 0,
    ;
    lemma_div_denominator(n * c, c, d);
    assert(((n * c) / c) / d == (n * c) / (c * d));
    lemma_div_multiples_vanish(n, c);
    assert((c * n) / c == n);
    assert(n * c == c * n) by (nonlinear_arith);
    assert(d * c == c * d) by (nonlinear_arith);
}

/// Truncated division is a function of the denoted value alone.
pub proof fn lemma_tdiv_congruence(a: (int, int), b: (int, int))
    requires
        rat_wf(a),
        rat_wf(b),
        rat_eq(a, b),
    ensures
        tdiv(a.0, a.1) == tdiv(b.0, b.1),
{
    lemma_rat_eq_sign(a, b);
    if a.0 >= 0 {
        lemma_div_scale(a.0, a.1, b.1);
        lemma_div_scale(b.0, b.1, a.1);
        assert(a.0 * b.1 == b.0 * a.1);
        assert(a.1 * b.1 == b.1 * a.1) by (nonlinear_arith);
        assert(a.0 / a.1 == (a.0 * b.1) / (a.1 * b.1));
        assert(b.0 / b.1 == (b.0 * a.1) / (b.1 * a.1));
    } else {
        let an = -a.0;
        let bn = -b.0;
        assert(an * b.1 == bn * a.1) by (nonlinear_arith)
            requires
                an == -a.0,
                bn == -b.0,
                a.0 * b.1 == b.0 * a.1,
        ;
        lemma_div_scale(an, a.1, b.1);
        lemma_div_scale(bn, b.1, a.1);
        assert(an / a.1 == (an * b.1) / (a.1 * b.1));
        assert(bn / b.1 == (bn * a.1) / (b.1 * a.1));
        assert(a.1 * b.1 == b.1 * a.1) by (nonlinear_arith);
    }
}

/// The reciprocal respects value equality of nonzero values.
pub proof fn lemma_rat_eq_recip(a: (int, int), b: (int, int))
    requires
        rat_wf(a),
        rat_wf(b),
        rat_eq(a, b),
        a.0 != 0,
    ensures
        b.0 != 0,
        rat_eq(rat_recip(a), rat_recip(b)),
        rat_wf(rat_recip(a)),
        rat_wf(rat_recip(b)),
{
    lemma_rat_eq_sign(a, b);
    if a.0 > 0 {
        assert(a.1 * b.0 == b.1 * a.0) by (nonlinear_arith)
            requires
                a.0 * b.1 == b.0 * a.1,
        ;
    } else {
        assert((-a.1) * (-b.0) == (-b.1) * (-a.0)) by (nonlinear_arith)
            requires
                a.0 * b.1 == b.0 * a.1,
        ;
    }
}

/// The fractional part respects value equality.
pub proof fn lemma_rat_eq_fract(a: (int, int), b: (int, int))
    requires
        rat_wf(a),
        rat_wf(b),
        rat_eq(a, b),
    ensures
        rat_eq(rat_fract(a), rat_fract(b)),
{
    lemma_tdiv_congruence(a, b);
    let t = tdiv(a.0, a.1);
    assert((a.0 - a.1 * t) * b.1 == (b.0 - b.1 * t) * a.1) by (nonlinear_arith)
        requires
            a.0 * b.1 == b.0 * a.1,
    ;
}

/// Bound propagation for the spec-level operations: numerator and
/// denominator bounds of the operands bound the raw results.
pub proof fn lemma_rat_bounds(a: (int, int), b: (int, int), na: int, da: int, nb: int, db: int)
    requires
        rat_wf(a),
        rat_wf(b),
        iabs(a.0) <= na,
        a.1 <= da,
        iabs(b.0) <= nb,
        b.1 <= db,
    ensures
        iabs(rat_mul(a, b).0) <= na * nb,
        iabs(rat_add(a, b).0) <= na * db + nb * da,
        iabs(rat_sub(a, b).0) <= na * db + nb * da,
        rat_add(a, b).1 <= da * db,
        0 < rat_add(a, b).1,
        rat_wf(rat_add(a, b)),
        rat_wf(rat_sub(a, b)),
        rat_wf(rat_mul(a, b)),
        rat_sub(a, b).1 == rat_add(a, b).1,
        rat_mul(a, b).1 == rat_add(a, b).1,
{
    assert(iabs(a.0 * b.0) <= na * nb && iabs(a.0 * b.1 + b.0 * a.1) <= na * db + nb * da && iabs(
        a.0 * b.1 - b.0 * a.1,
    ) <= na * db + nb * da && 0 < a.1 * b.1 <= da * db) by (nonlinear_arith)
        requires
            a.1 > 0,
            b.1 > 0,
            iabs(a.0) <= na,
            a.1 <= da,
            iabs(b.0) <= nb,
            b.1 <= db,
            iabs(a.0) == if a.0 < 0 { -a.0 } else { a.0 },
            iabs(b.0) == if b.0 < 0 { -b.0 } else { b.0 },
            iabs(a.0 * b.0) == if a.0 * b.0 < 0 { -(a.0 * b.0) } else { a.0 * b.0 },
            iabs(a.0 * b.1 + b.0 * a.1) == if a.0 * b.1 + b.0 * a.1 < 0 { -(a.0 * b.1 + b.0 * a.1) } else { a.0 * b.1 + b.0 * a.1 },
            iabs(a.0 * b.1 - b.0 * a.1) == if a.0 * b.1 - b.0 * a.1 < 0 { -(a.0 * b.1 - b.0 * a.1) } else { a.0 * b.1 - b.0 * a.1 },
    ;
}

/// The spec-level operations keep denominators positive.
pub proof fn lemma_ops_wf(a: (int, int), b: (int, int))
    requires
        rat_wf(a),
        rat_wf(b),
    ensures
        rat_wf(rat_add(a, b)),
        rat_wf(rat_sub(a, b)),
        rat_wf(rat_mul(a, b)),
{
    assert(a.1 * b.1 > 0) by (nonlinear_arith)
        requires
            a.1 > 0,
            b.1 > 0,
    ;
}

/// The spec-level operations respect value equality of their operands.
pub proof fn lemma_op_congruence(a: (int, int), a2: (int, int), b: (int, int), b2: (int, int))
    requires
        rat_wf(a),
        rat_wf(a2),
        rat_wf(b),
        rat_wf(b2),
        rat_eq(a, a2),
        rat_eq(b, b2),
    ensures
        rat_eq(rat_add(a, b), rat_add(a2, b2)),
        rat_eq(rat_sub(a, b), rat_sub(a2, b2)),
        rat_eq(rat_mul(a, b), rat_mul(a2, b2)),
{
    let t = a2.1 * b2.1;
    let s = a.1 * b.1;
    assert(a.0 * b.1 * t == a2.0 * b2.1 * s) by (nonlinear_arith)
        requires
            a.0 * a2.1 == a2.0 * a.1,
            t == a2.1 * b2.1,
            s == a.1 * b.1,
    ;
    assert(b.0 * a.1 * t == b2.0 * a2.1 * s) by (nonlinear_arith)
        requires
            b.0 * b2.1 == b2.0 * b.1,
            t == a2.1 * b2.1,
            s == a.1 * b.1,
    ;
    assert(a.0 * b.0 * t == a2.0 * b2.0 * s) by (nonlinear_arith)
        requires
            a.0 * a2.1 == a2.0 * a.1,
            b.0 * b2.1 == b2.0 * b.1,
            t == a2.1 * b2.1,
            s == a.1 * b.1,
    ;
    assert((a.0 * b.1 + b.0 * a.1) * t == (a2.0 * b2.1 + b2.0 * a2.1) * s && (a.0 * b.1 - b.0
        * a.1) * t == (a2.0 * b2.1 - b2.0 * a2.1) * s) by (nonlinear_arith)
        requires
            a.0 * b.1 * t == a2.0 * b2.1 * s,
            b.0 * a.1 * t == b2.0 * a2.1 * s,
    ;
}

/// Any product of two machine integers fits the wide intermediate type.
proof fn lemma_prod_fits_wide(x: int, y: int)
    requires
        -0x8000_0000_0000_0000 <= x <= 0x7fff_ffff_ffff_ffff,
        -0x8000_0000_0000_0000 <= y <= 0x7fff_ffff_ffff_ffff,
    ensures
        iabs(x * y) <= 0x4000_0000_0000_0000_0000_0000_0000_0000,
{
    assert(iabs(x * y) <= 0x4000_0000_0000_0000_0000_0000_0000_0000) by (nonlinear_arith)
        requires
            -0x8000_0000_0000_0000 <= x <= 0x7fff_ffff_ffff_ffff,
            -0x8000_0000_0000_0000 <= y <= 0x7fff_ffff_ffff_ffff,
    ;
}

impl PartialEq for ExactNumber {
    /// Exact value equality by cross multiplication in a wide intermediate
    /// type, where no product of two machine integers can overflow.
    fn eq(&self, other: &ExactNumber) -> (r: bool) {
        proof {
            lemma_prod_fits_wide(self.num as int, other.den as int);
            lemma_prod_fits_wide(other.num as int, self.den as int);
        }
        (self.num as i128) * (other.den as i128) == (other.num as i128) * (self.den as i128)
    }
}

impl vstd::std_specs::cmp::PartialEqSpecImpl for ExactNumber {
    open spec fn obeys_eq_spec() -> bool {
        true
    }

    open spec fn eq_spec(&self, other: &ExactNumber) -> bool {
        rat_eq(self@, other@)
    }
}

} // verus!
