//! A binary relation between two ordered sets of exact rationals.
//!
//! The relation pairs a domain set and a codomain set with a predicate
//! capability: any value that can decide, for one element of each set,
//! whether they are related. The full cartesian product is enumerated in
//! row-major order, and the related pairs are that enumeration filtered by
//! the predicate, order preserved.

use vstd::prelude::*;
use vstd::arithmetic::div_mod::{
    lemma_fundamental_div_mod_converse, lemma_multiply_divide_lt,
    lemma_mod_division_less_than_divisor,
};
use crate::rational::{
    ExactNumber, rat_eq, rat_lt, rat_wf, rat_sub, rat_abs, rat_recip, rat_fract,
    lemma_rat_eq_fract, lemma_rat_eq_abs, lemma_rat_eq_lt, lemma_rat_eq_trans,
};
use crate::ordered_set::OrderedSet;

verus! {

/// A two-argument boolean capability over exact rationals, supplied at
/// construction time. `spec_holds` is the mathematical relation it
/// decides; `admissible` are the inputs on which it is total — the engine
/// requires every pair of domain and codomain elements to be admissible.
pub trait Predicate: Sized {
    /// The mathematical relation, over value pairs.
    spec fn spec_holds(&self, x: (int, int), y: (int, int)) -> bool;

    /// The inputs on which `decide` may be called.
    spec fn admissible(&self, x: ExactNumber, y: ExactNumber) -> bool;

    /// Decides the relation, exactly.
    fn decide(&self, x: &ExactNumber, y: &ExactNumber) -> (r: bool)
        requires
            x.wf(),
            y.wf(),
            self.admissible(*x, *y),
        ensures
            r == self.spec_holds(x@, y@),
    ;
}

/// The full cartesian product in row-major order: for each domain element
/// in ascending order, one pair per codomain element in ascending order.
pub open spec fn cartesian_spec(d: Seq<ExactNumber>, c: Seq<ExactNumber>) -> Seq<
    (ExactNumber, ExactNumber),
> {
    if c.len() == 0 {
        Seq::empty()
    } else {
        Seq::new(d.len() * c.len(), |k: int| (d[k / c.len() as int], c[k % c.len() as int]))
    }
}

/// Row-major placement: the pair of domain element `i` and codomain
/// element `j` sits at offset `i * |codomain| + j`.
pub proof fn lemma_cartesian_row_major(d: Seq<ExactNumber>, c: Seq<ExactNumber>, i: int, j: int)
    requires
        0 <= i < d.len(),
        0 <= j < c.len(),
    ensures
        0 <= i * c.len() + j < cartesian_spec(d, c).len(),
        cartesian_spec(d, c)[i * c.len() + j] == (d[i], c[j]),
{
    let n = c.len() as int;
    let k = i * n + j;
    assert(0 <= k && k < d.len() * n) by (nonlinear_arith)
        requires
            0 <= i < d.len(),
            0 <= j < n,
            k == i * n + j,
    ;
    lemma_fundamental_div_mod_converse(k, n, i, j);
    assert(k / n == i && k % n == j);
}

/// A domain set, a codomain set, and the predicate relating them.
pub struct Relation<P> {
    pub domain: OrderedSet,
    pub codomain: OrderedSet,
    pub p: P,
}

impl<P: Predicate> Relation<P> {
    /// Both sets are well formed and the predicate is total over their
    /// product.
    pub open spec fn wf(self) -> bool {
        &&& self.domain.wf()
        &&& self.codomain.wf()
        &&& forall|i: int, j: int|
            0 <= i < self.domain@.len() && 0 <= j < self.codomain@.len() ==> #[trigger] self.p.admissible(
                self.domain@[i],
                self.codomain@[j],
            )
    }

    /// The pair consists of one domain element and one codomain element.
    pub open spec fn pair_from_sets(self, q: (ExactNumber, ExactNumber)) -> bool {
        exists|i: int, j: int|
            0 <= i < self.domain@.len() && 0 <= j < self.codomain@.len() && q == (
                #[trigger] self.domain@[i],
                #[trigger] self.codomain@[j],
            )
    }

    /// The related pairs: the row-major cartesian product filtered by the
    /// predicate, order preserved.
    pub open spec fn related_spec(self) -> Seq<(ExactNumber, ExactNumber)> {
        cartesian_spec(self.domain@, self.codomain@).filter(
            |q: (ExactNumber, ExactNumber)| self.p.spec_holds(q.0@, q.1@),
        )
    }

    /// Enumerates all pairs of one domain and one codomain element, in
    /// row-major order. Pure: repeated calls give identical results.
    pub fn cartesian_product(&self) -> (r: Vec<(ExactNumber, ExactNumber)>)
        ensures
            r@ == cartesian_spec(self.domain@, self.codomain@),
            r@.len() == self.domain@.len() * self.codomain@.len(),
    {
        let m: usize = self.domain.elems.len();
        let n: usize = self.codomain.elems.len();
        let mut out: Vec<(ExactNumber, ExactNumber)> = Vec::new();
        let mut i: usize = 0;
        while i < m
            invariant
                m == self.domain@.len(),
                n == self.codomain@.len(),
                i <= m,
                out@.len() == i * n,
                forall|k: int|
                    0 <= k < out@.len() ==> #[trigger] out@[k] == (
                        self.domain@[k / (n as int)],
                        self.codomain@[k % (n as int)],
                    ),
            decreases m - i,
        {
            let mut j: usize = 0;
            while j < n
                invariant
                    m == self.domain@.len(),
                    n == self.codomain@.len(),
                    i < m,
                    j <= n,
                    out@.len() == i * n + j,
                    forall|k: int|
                        0 <= k < out@.len() ==> #[trigger] out@[k] == (
                            self.domain@[k / (n as int)],
                            self.codomain@[k % (n as int)],
                        ),
                decreases n - j,
            {
                out.push((self.domain.elems[i], self.codomain.elems[j]));
                proof {
                    let k0 = i * (n as int) + j;
                    lemma_fundamental_div_mod_converse(k0, n as int, i as int, j as int);
                    assert(k0 / (n as int) == i as int && k0 % (n as int) == j as int);
                }
                j += 1;
            }
            proof {
                assert(i * (n as int) + (n as int) == (i + 1) * (n as int)) by (nonlinear_arith);
            }
            i += 1;
        }
        proof {
            assert(out@ =~= cartesian_spec(self.domain@, self.codomain@));
        }
        out
    }

    /// The pairs for which the predicate holds, in the row-major order of
    /// the cartesian product.
    pub fn related_pairs(&self) -> (r: Vec<(ExactNumber, ExactNumber)>)
        requires
            self.wf(),
        ensures
            r@ == self.related_spec(),
            forall|k: int| 0 <= k < r@.len() ==> self.pair_from_sets(#[trigger] r@[k]),
    {
        let ghost pred = |q: (ExactNumber, ExactNumber)| self.p.spec_holds(q.0@, q.1@);
        let prod = self.cartesian_product();
        let ghost cart = cartesian_spec(self.domain@, self.codomain@);
        let mut out: Vec<(ExactNumber, ExactNumber)> = Vec::new();
        let mut k: usize = 0;
        proof {
            assert(cart.take(0) =~= Seq::<(ExactNumber, ExactNumber)>::empty());
            reveal(Seq::filter);
        }
        while k < prod.len()
            invariant
                self.wf(),
                prod@ == cart,
                cart == cartesian_spec(self.domain@, self.codomain@),
                pred == (|q: (ExactNumber, ExactNumber)| self.p.spec_holds(q.0@, q.1@)),
                k <= cart.len(),
                out@ == cart.take(k as int).filter(pred),
                forall|k2: int| 0 <= k2 < out@.len() ==> self.pair_from_sets(#[trigger] out@[k2]),
            decreases prod@.len() - k,
        {
            let pair = prod[k];
            proof {
                let n = self.codomain@.len() as int;
                let ki = k as int;
                assert(cart.len() == self.domain@.len() * n);
                assert(n > 0) by (nonlinear_arith)
                    requires
                        ki < self.domain@.len() * n,
                        ki >= 0,
                        n >= 0,
                ;
                assert(ki < n * self.domain@.len()) by (nonlinear_arith)
                    requires
                        ki < self.domain@.len() * n,
                ;
                lemma_multiply_divide_lt(ki, n, self.domain@.len() as int);
                lemma_mod_division_less_than_divisor(ki, n);
                assert(pair == (self.domain@[ki / n], self.codomain@[ki % n]));
                assert(self.p.admissible(self.domain@[ki / n], self.codomain@[ki % n]));
                assert(self.domain@[ki / n].wf());
                assert(self.codomain@[ki % n].wf());
            }
            let related = self.p.decide(&pair.0, &pair.1);
            if related {
                out.push(pair);
                proof {
                    let n = self.codomain@.len() as int;
                    let ki = k as int;
                    assert(pair == (self.domain@[ki / n], self.codomain@[ki % n]));
                    assert(self.pair_from_sets(pair));
                }
            }
            proof {
                let t = cart.take(k + 1);
                assert(t.drop_last() =~= cart.take(k as int));
                assert(t.last() == cart[k as int]);
                reveal(Seq::filter);
                assert(t.filter(pred) == if pred(cart[k as int]) {
                    cart.take(k as int).filter(pred).push(cart[k as int])
                } else {
                    cart.take(k as int).filter(pred)
                });
                assert(pred(cart[k as int]) == related);
            }
            k += 1;
        }
        proof {
            assert(cart.take(cart.len() as int) =~= cart);
        }
        out
    }
}

/// The reference predicate: the two values are related when their
/// reciprocals agree modulo one, within a fixed tolerance — the fractional
/// part of the difference of the reciprocals is, in absolute value,
/// strictly below the tolerance. All arithmetic up to the final threshold
/// comparison is exact.
pub struct ReciprocalPredicate {
    pub tolerance: ExactNumber,
}

impl Predicate for ReciprocalPredicate {
    open spec fn spec_holds(&self, x: (int, int), y: (int, int)) -> bool {
        rat_lt(rat_abs(rat_fract(rat_sub(rat_recip(x), rat_recip(y)))), self.tolerance@)
    }

    open spec fn admissible(&self, x: ExactNumber, y: ExactNumber) -> bool {
        &&& self.tolerance.wf()
        &&& x@.0 != 0
        &&& y@.0 != 0
        &&& ExactNumber::sub_fits(rat_recip(x@), rat_recip(y@))
    }

    fn decide(&self, x: &ExactNumber, y: &ExactNumber) -> (r: bool) {
        let rx = x.recip();
        let ry = y.recip();
        let d = rx.sub(&ry);
        let f = d.fract();
        let a = f.abs();
        proof {
            let s = rat_sub(rat_recip(x@), rat_recip(y@));
            assert(rx@ == rat_recip(x@) && ry@ == rat_recip(y@));
            assert(s.1 > 0) by (nonlinear_arith)
                requires
                    s.1 == rat_recip(x@).1 * rat_recip(y@).1,
                    rat_recip(x@).1 > 0,
                    rat_recip(y@).1 > 0,
            ;
            assert(rat_eq(d@, s));
            lemma_rat_eq_fract(d@, s);
            lemma_rat_eq_trans(f@, rat_fract(d@), rat_fract(s));
            lemma_rat_eq_abs(f@, rat_fract(s));
            assert(rat_eq(a@, rat_abs(rat_fract(s))));
            lemma_rat_eq_lt(a@, rat_abs(rat_fract(s)), self.tolerance@);
        }
        a.lt(&self.tolerance)
    }
}

/// Exactness of the reference predicate: whether two values are related
/// depends on the denoted rational values alone, never on how they are
/// represented — so no classification can drift with the construction
/// path, as floating-point evaluation could.
pub proof fn lemma_reciprocal_predicate_exact(
    p: ReciprocalPredicate,
    x: (int, int),
    x2: (int, int),
    y: (int, int),
    y2: (int, int),
)
    requires
        rat_wf(x),
        rat_wf(x2),
        rat_wf(y),
        rat_wf(y2),
        rat_eq(x, x2),
        rat_eq(y, y2),
        x.0 != 0,
        y.0 != 0,
        p.tolerance.wf(),
    ensures
        p.spec_holds(x, y) == p.spec_holds(x2, y2),
{
    crate::rational::lemma_rat_eq_recip(x, x2);
    crate::rational::lemma_rat_eq_recip(y, y2);
    let rx = rat_recip(x);
    let ry = rat_recip(y);
    let rx2 = rat_recip(x2);
    let ry2 = rat_recip(y2);
    crate::rational::lemma_op_congruence(rx, rx2, ry, ry2);
    crate::rational::lemma_ops_wf(rx, ry);
    crate::rational::lemma_ops_wf(rx2, ry2);
    let s = rat_sub(rx, ry);
    let s2 = rat_sub(rx2, ry2);
    lemma_rat_eq_fract(s, s2);
    lemma_rat_eq_abs(rat_fract(s), rat_fract(s2));
    lemma_rat_eq_lt(rat_abs(rat_fract(s)), rat_abs(rat_fract(s2)), p.tolerance@);
}

} // verus!
