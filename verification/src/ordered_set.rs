//! An ordered, duplicate-free collection of exact rationals.
//!
//! Elements are kept in strictly ascending value order, so iteration order
//! is the sort order and no two elements denote the same value, whatever
//! order the inputs arrived in.

use vstd::prelude::*;
use crate::rational::{ExactNumber, rat_eq, rat_lt, rat_wf, lemma_rat_eq_trans};

verus! {

/// The value of `x` occurs among `values`.
pub open spec fn value_among(x: ExactNumber, values: Seq<ExactNumber>) -> bool {
    exists|i: int| 0 <= i < values.len() && rat_eq(x@, (#[trigger] values[i])@)
}

/// The value of `x` occurs among the first `k` inputs.
pub open spec fn value_among_prefix(x: ExactNumber, values: Seq<ExactNumber>, k: int) -> bool {
    exists|i: int| 0 <= i < k && i < values.len() && rat_eq(x@, (#[trigger] values[i])@)
}

/// No earlier input denotes the same value as the input at position `i`.
#[verifier::opaque]
pub open spec fn first_occurrence(values: Seq<ExactNumber>, i: int) -> bool {
    forall|j: int| 0 <= j < i ==> !rat_eq((#[trigger] values[j])@, values[i]@)
}

/// Whether the next input's value is already held: exactly when some
/// earlier input denotes the same value.
proof fn lemma_next_input_membership(s: OrderedSet, values: Seq<ExactNumber>, ii: int)
    requires
        s.wf(),
        0 <= ii < values.len(),
        forall|i: int| 0 <= i < values.len() ==> (#[trigger] values[i]).wf(),
        forall|i: int| 0 <= i < ii ==> s.spec_contains((#[trigger] values[i])@),
        forall|j: int| 0 <= j < s@.len() ==> value_among_prefix(#[trigger] s@[j], values, ii),
    ensures
        s.spec_contains(values[ii]@) == !first_occurrence(values, ii),
{
    reveal(first_occurrence);
    if first_occurrence(values, ii) {
        assert forall|k: int| 0 <= k < s@.len() implies !rat_eq(
            (#[trigger] s@[k])@,
            values[ii]@,
        ) by {
            if rat_eq(s@[k]@, values[ii]@) {
                assert(value_among_prefix(s@[k], values, ii));
                let i2 = choose|i2: int|
                    0 <= i2 < ii && i2 < values.len() && rat_eq(
                        s@[k]@,
                        (#[trigger] values[i2])@,
                    );
                crate::rational::lemma_rat_eq_trans(values[i2]@, s@[k]@, values[ii]@);
                assert(!rat_eq(values[i2]@, values[ii]@));
                assert(false);
            }
        }
        assert(!s.spec_contains(values[ii]@));
    } else {
        let j = choose|j: int| 0 <= j < ii && rat_eq((#[trigger] values[j])@, values[ii]@);
        assert(s.spec_contains(values[j]@));
        let k = choose|k: int|
            0 <= k < s@.len() && rat_eq((#[trigger] s@[k])@, values[j]@);
        crate::rational::lemma_rat_eq_trans(s@[k]@, values[j]@, values[ii]@);
        assert(s.spec_contains(values[ii]@));
    }
}

/// A collection of unique exact rationals in ascending sorted order.
pub struct OrderedSet {
    pub elems: Vec<ExactNumber>,
}

impl View for OrderedSet {
    type V = Seq<ExactNumber>;

    open spec fn view(&self) -> Seq<ExactNumber> {
        self.elems@
    }
}

/// Strict order is transitive.
pub proof fn lemma_rat_lt_trans(a: (int, int), b: (int, int), c: (int, int))
    requires
        rat_wf(a),
        rat_wf(b),
        rat_wf(c),
        rat_lt(a, b),
        rat_lt(b, c),
    ensures
        rat_lt(a, c),
{
    assert(a.0 * c.1 < c.0 * a.1) by (nonlinear_arith)
        requires
            a.0 * b.1 < b.0 * a.1,
            b.0 * c.1 < c.0 * b.1,
            a.1 > 0,
            b.1 > 0,
            c.1 > 0,
    ;
}

impl OrderedSet {
    /// Every element is well formed and the sequence strictly ascends by
    /// value.
    pub open spec fn wf(self) -> bool {
        &&& forall|i: int| 0 <= i < self@.len() ==> (#[trigger] self@[i]).wf()
        &&& forall|i: int, j: int|
            0 <= i < j < self@.len() ==> rat_lt(self@[i]@, self@[j]@)
    }

    /// Some element denotes the value `v`.
    pub open spec fn spec_contains(self, v: (int, int)) -> bool {
        exists|i: int| 0 <= i < self@.len() && rat_eq((#[trigger] self@[i])@, v)
    }

    /// Every element denotes the value of one of the given inputs.
    pub open spec fn drawn_from(self, values: Seq<ExactNumber>) -> bool {
        forall|j: int| 0 <= j < self@.len() ==> value_among(#[trigger] self@[j], values)
    }

    /// The empty set.
    pub fn empty() -> (s: Self)
        ensures
            s.wf(),
            s@.len() == 0,
    {
        OrderedSet { elems: Vec::new() }
    }

    /// Number of distinct values held.
    pub fn len(&self) -> (n: usize)
        ensures
            n == self@.len(),
    {
        self.elems.len()
    }

    /// The element at sort position `i`.
    pub fn index(&self, i: usize) -> (r: ExactNumber)
        requires
            i < self@.len(),
        ensures
            r == self@[i as int],
    {
        self.elems[i]
    }

    /// Inserts a value, keeping order and uniqueness: a value already
    /// present is not added again.
    pub(crate) fn insert_value(&mut self, v: &ExactNumber)
        requires
            old(self).wf(),
            v.wf(),
        ensures
            final(self).wf(),
            final(self).spec_contains(v@),
            final(self)@.len() == old(self)@.len() + (if old(self).spec_contains(v@) {
                0int
            } else {
                1int
            }),
            forall|w: (int, int)| #[trigger]
                old(self).spec_contains(w) ==> final(self).spec_contains(w),
            forall|j: int|
                0 <= j < final(self)@.len() ==> final(self)@[j] == *v || old(self)@.contains(
                    #[trigger] final(self)@[j],
                ),
    {
        let ghost pre = *self;
        let mut pos: usize = 0;
        while pos < self.elems.len() && self.elems[pos].lt(v)
            invariant
                *self == pre,
                self.wf(),
                v.wf(),
                pos <= self@.len(),
                forall|k: int| 0 <= k < pos ==> rat_lt((#[trigger] self@[k])@, v@),
            decreases self@.len() - pos,
        {
            pos += 1;
        }
        if pos < self.elems.len() && self.elems[pos] == *v {
            proof {
                assert(rat_eq(self@[pos as int]@, v@));
                assert(self.spec_contains(v@));
                assert forall|j: int| 0 <= j < self@.len()
                    implies self@[j] == *v || old(self)@.contains(self@[j]) by {
                    assert(old(self)@.contains(old(self)@[j]));
                }
            }
        } else {
            proof {
                if pos < self@.len() {
                    // Neither below nor equal: the element at `pos` is
                    // strictly above `v`, by trichotomy of the shared
                    // cross products.
                    assert(!rat_lt(self@[pos as int]@, v@));
                    assert(!rat_eq(self@[pos as int]@, v@));
                    assert(rat_lt(v@, self@[pos as int]@));
                }
                // The value is absent: entries before `pos` lie strictly
                // below it, and entries from `pos` on lie strictly above.
                assert forall|k: int| 0 <= k < self@.len() implies !rat_eq(
                    (#[trigger] self@[k])@,
                    v@,
                ) by {
                    if k >= pos {
                        if rat_eq(self@[k]@, v@) {
                            if k > pos {
                                assert(rat_lt(self@[pos as int]@, self@[k]@));
                                crate::rational::lemma_rat_eq_lt(
                                    self@[k]@,
                                    v@,
                                    self@[pos as int]@,
                                );
                                assert(rat_lt(self@[pos as int]@, v@));
                                assert(false);
                            }
                        }
                    }
                }
                assert(!old(self).spec_contains(v@));
            }
            self.elems.insert(pos, *v);
            proof {
                let s = self@;
                let o = pre@;
                pre@.insert_ensures(pos as int, *v);
                assert(s == pre@.insert(pos as int, *v));
                assert forall|i: int, j: int| 0 <= i < j < s.len() implies rat_lt(
                    s[i]@,
                    s[j]@,
                ) by {
                    if i < pos && j == pos {
                        assert(s[i] == o[i]);
                        assert(rat_lt(o[i]@, v@));
                    } else if i == pos && j > pos {
                        assert(s[j] == o[j - 1]);
                        assert(j - 1 >= pos);
                        if j - 1 == pos {
                            assert(rat_lt(v@, o[pos as int]@));
                        } else {
                            assert(rat_lt(o[pos as int]@, o[j - 1]@));
                            lemma_rat_lt_trans(v@, o[pos as int]@, o[j - 1]@);
                        }
                    } else if i < pos && j > pos {
                        assert(s[i] == o[i] && s[j] == o[j - 1]);
                        if j - 1 == i {
                            assert(rat_lt(o[i]@, v@));
                            assert(false);
                        } else {
                            assert(rat_lt(o[i]@, o[j - 1]@));
                        }
                    } else if i > pos && j > pos {
                        assert(s[i] == o[i - 1] && s[j] == o[j - 1]);
                    } else if i < pos && j < pos {
                        assert(s[i] == o[i] && s[j] == o[j]);
                    }
                }
                assert(s[pos as int] == *v);
                assert(rat_eq(s[pos as int]@, v@));
                assert(self.spec_contains(v@));
                assert forall|w: (int, int)| old(self).spec_contains(w)
                    implies self.spec_contains(w) by {
                    let i = choose|i: int| 0 <= i < o.len() && rat_eq((#[trigger] o[i])@, w);
                    if i < pos {
                        assert(s[i] == o[i]);
                        assert(rat_eq(s[i]@, w));
                    } else {
                        assert(s[i + 1] == o[i]);
                        assert(rat_eq(s[i + 1]@, w));
                    }
                }
                assert forall|j: int| 0 <= j < s.len()
                    implies s[j] == *v || o.contains(s[j]) by {
                    if j < pos {
                        assert(s[j] == o[j]);
                        assert(o.contains(o[j]));
                    } else if j > pos {
                        assert(s[j] == o[j - 1]);
                        assert(o.contains(o[j - 1]));
                    }
                }
            }
        }
    }

    /// Builds the set holding exactly the distinct values among the inputs,
    /// in ascending order; the input order does not matter.
    #[verifier::rlimit(60)]
    pub fn build(values: &Vec<ExactNumber>) -> (s: Self)
        requires
            forall|i: int| 0 <= i < values@.len() ==> (#[trigger] values@[i]).wf(),
        ensures
            s.wf(),
            forall|i: int|
                0 <= i < values@.len() ==> s.spec_contains((#[trigger] values@[i])@),
            s.drawn_from(values@),
    {
        let mut s = OrderedSet { elems: Vec::new() };
        let mut idx: usize = 0;
        while idx < values.len()
            invariant
                s.wf(),
                idx <= values@.len(),
                forall|i: int| 0 <= i < values@.len() ==> (#[trigger] values@[i]).wf(),
                forall|i: int| 0 <= i < idx ==> s.spec_contains((#[trigger] values@[i])@),
                forall|j: int|
                    0 <= j < s@.len() ==> value_among_prefix(
                        #[trigger] s@[j],
                        values@,
                        idx as int,
                    ),
            decreases values@.len() - idx,
        {
            let ghost before = s;
            let ghost ii = idx as int;
            proof {
                lemma_next_input_membership(before, values@, ii);
            }
            s.insert_value(&values[idx]);
            proof {
                assert forall|j: int| 0 <= j < s@.len() implies value_among_prefix(
                    #[trigger] s@[j],
                    values@,
                    ii + 1,
                ) by {
                    if s@[j] == values@[ii] {
                        assert(rat_eq(s@[j]@, values@[ii]@));
                    } else {
                        assert(before@.contains(s@[j]));
                        let k = choose|k: int| 0 <= k < before@.len() && before@[k] == s@[j];
                        assert(value_among_prefix(before@[k], values@, ii));
                        let i2 = choose|i2: int|
                            0 <= i2 < ii && i2 < values@.len() && rat_eq(
                                before@[k]@,
                                (#[trigger] values@[i2])@,
                            );
                        assert(rat_eq(s@[j]@, values@[i2]@));
                    }
                }
            }
            idx += 1;
        }
        proof {
            assert forall|j: int| 0 <= j < s@.len() implies value_among(
                #[trigger] s@[j],
                values@,
            ) by {
                assert(value_among_prefix(s@[j], values@, values@.len() as int));
                let i2 = choose|i2: int|
                    0 <= i2 < values@.len() as int && i2 < values@.len() && rat_eq(
                        s@[j]@,
                        (#[trigger] values@[i2])@,
                    );
                assert(rat_eq(s@[j]@, values@[i2]@));
            }
        }
        s
    }

    /// Whether some element denotes the same value as `v`.
    pub fn contains_value(&self, v: &ExactNumber) -> (r: bool)
        requires
            self.wf(),
            v.wf(),
        ensures
            r == self.spec_contains(v@),
    {
        let mut i: usize = 0;
        while i < self.elems.len()
            invariant
                self.wf(),
                v.wf(),
                i <= self@.len(),
                forall|k: int| 0 <= k < i ==> !rat_eq((#[trigger] self@[k])@, v@),
            decreases self@.len() - i,
        {
            if self.elems[i] == *v {
                return true;
            }
            i += 1;
        }
        false
    }
}

/// Uniqueness and order: in a well-formed set the elements strictly ascend
/// by value, so no two elements denote the same value — the set's size is
/// the number of distinct values it holds.
pub proof fn lemma_uniqueness_and_order(s: OrderedSet)
    requires
        s.wf(),
    ensures
        forall|i: int, j: int| 0 <= i < j < s@.len() ==> rat_lt(s@[i]@, s@[j]@),
        forall|i: int, j: int|
            0 <= i < j < s@.len() ==> !rat_eq((#[trigger] s@[i])@, (#[trigger] s@[j])@),
{
    assert forall|i: int, j: int| 0 <= i < j < s@.len() implies !rat_eq(
        (#[trigger] s@[i])@,
        (#[trigger] s@[j])@,
    ) by {
        assert(rat_lt(s@[i]@, s@[j]@));
    }
}

} // verus!
