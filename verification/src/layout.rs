//! The diagram layout engine.
//!
//! Given an ordered set and an anchor position, computes a containing
//! ellipse and evenly spaced point positions inside it, together with a
//! lookup from each element to its rendered coordinate; given two such
//! lookups and the related pairs of a relation, computes the connector
//! segments, trimmed at the codomain end so the arrowhead stops short of
//! the target's marker and label. Every coordinate is an exact rational in
//! abstract length units.

use vstd::prelude::*;
use crate::rational::{
    ExactNumber, iabs, rat_eq, rat_lt, rat_wf, rat_add, rat_sub, rat_mul,
    lemma_rat_bounds, lemma_op_congruence, lemma_rat_eq_trans, lemma_rat_eq_lt,
};
use crate::ordered_set::OrderedSet;
use crate::relation::{Relation, Predicate};

verus! {

/// Vertical distance between adjacent point centers: 7/10 of a length
/// unit.
pub open spec fn spec_spacing() -> (int, int) {
    (7, 10)
}

/// Offset between a point and its label, and between the ellipse rim and
/// the outermost content: 1/5 of a length unit.
pub open spec fn spec_margin() -> (int, int) {
    (1, 5)
}

/// Vertical center of a set's container: half of spacing times the set
/// size, below the anchor.
pub open spec fn spec_center_y(n: int, ay: (int, int)) -> (int, int) {
    rat_add(rat_mul(rat_mul(spec_spacing(), (n, 1)), (1, 2)), ay)
}

/// Vertical radius of the container ellipse, adapted to the set size.
pub open spec fn spec_ellipse_ry(n: int, ay: (int, int)) -> (int, int) {
    rat_sub(spec_center_y(n, ay), spec_margin())
}

/// Vertical position of the element with sort index `i` in a set of size
/// `n`: elements are centered symmetrically around the vertical center,
/// and with an odd count the middle element sits exactly on it.
pub open spec fn spec_pos_y(i: int, n: int, ay: (int, int)) -> (int, int) {
    rat_add(rat_mul(rat_sub((i, 1), (n - 1, 2)), spec_spacing()), spec_center_y(n, ay))
}

/// Vertical position of the label of the element with sort index `i`.
pub open spec fn spec_label_y(i: int, n: int, ay: (int, int)) -> (int, int) {
    rat_sub(spec_pos_y(i, n, ay), spec_margin())
}

/// Midpoint of two coordinates.
pub open spec fn spec_midpoint(a: (int, int), b: (int, int)) -> (int, int) {
    rat_mul(rat_add(a, b), (1, 2))
}

/// A connector's codomain-side coordinate, pulled 22/100 of the way from
/// the codomain point toward the segment midpoint.
pub open spec fn spec_trim(a: (int, int), b: (int, int)) -> (int, int) {
    rat_add(rat_mul(b, (39, 50)), rat_mul(spec_midpoint(a, b), (11, 50)))
}

/// Anchors small enough that every derived coordinate fits the machine
/// representation.
pub open spec fn anchor_ok(a: (int, int)) -> bool {
    &&& iabs(a.0) <= 1000
    &&& a.1 <= 1000
}

/// Bounds that every coordinate computed by the layout obeys, and that
/// keep connector trimming within machine range.
pub open spec fn coord_ok(c: (int, int)) -> bool {
    &&& iabs(c.0) <= 3_000_000_000
    &&& c.1 <= 2_000_000
}

/// The denominators of the layout formulas are positive multiples of the
/// anchor's denominator.
pub proof fn lemma_spec_formula_wf(i: int, n: int, ay: (int, int))
    requires
        rat_wf(ay),
    ensures
        rat_wf(spec_center_y(n, ay)),
        rat_wf(spec_ellipse_ry(n, ay)),
        rat_wf(rat_sub((i, 1int), (n - 1, 2int))),
        rat_wf(rat_mul(rat_sub((i, 1int), (n - 1, 2int)), spec_spacing())),
        rat_wf(spec_pos_y(i, n, ay)),
        rat_wf(spec_label_y(i, n, ay)),
{
    assert(spec_center_y(n, ay).1 == 20 * ay.1);
    assert(spec_ellipse_ry(n, ay).1 == (20 * ay.1) * 5);
    assert(spec_pos_y(i, n, ay).1 == 20 * (20 * ay.1));
    assert(spec_label_y(i, n, ay).1 == (20 * (20 * ay.1)) * 5);
}

/// Symmetry of the layout: for a set of size `n`, the positions of the
/// elements with sort indices `i` and `n - 1 - i` sum to twice the
/// vertical center of the container, so the set of positions is symmetric
/// about that center whatever the parity of `n`.
pub proof fn lemma_layout_symmetry(i: int, n: int, ay: (int, int))
    requires
        0 <= i < n,
        rat_wf(ay),
    ensures
        rat_eq(
            rat_add(spec_pos_y(i, n, ay), spec_pos_y(n - 1 - i, n, ay)),
            rat_mul((2int, 1int), spec_center_y(n, ay)),
        ),
{
    let c = spec_center_y(n, ay);
    let ti = rat_mul(rat_sub((i, 1int), (n - 1, 2int)), spec_spacing());
    let tj = rat_mul(rat_sub((n - 1 - i, 1int), (n - 1, 2int)), spec_spacing());
    let pi = spec_pos_y(i, n, ay);
    let pj = spec_pos_y(n - 1 - i, n, ay);
    let lhs = rat_add(pi, pj);
    let rhs = rat_mul((2int, 1int), c);
    assert(c.1 == 20 * ay.1);
    assert(lhs.0 * rhs.1 == rhs.0 * lhs.1) by (nonlinear_arith)
        requires
            pi.0 == ti.0 * c.1 + c.0 * ti.1,
            pi.1 == ti.1 * c.1,
            pj.0 == tj.0 * c.1 + c.0 * tj.1,
            pj.1 == tj.1 * c.1,
            ti.1 == 20,
            tj.1 == 20,
            tj.0 == -ti.0,
            lhs.0 == pi.0 * pj.1 + pj.0 * pi.1,
            lhs.1 == pi.1 * pj.1,
            rhs.0 == 2 * c.0,
            rhs.1 == 1 * c.1,
            c.1 > 0,
    ;
}

/// Points never overlap: positions strictly increase with the sort index,
/// since the spacing is positive.
pub proof fn lemma_positions_ascend(i: int, j: int, n: int, ay: (int, int))
    requires
        0 <= i < j < n,
        rat_wf(ay),
    ensures
        rat_lt(spec_pos_y(i, n, ay), spec_pos_y(j, n, ay)),
{
    let c = spec_center_y(n, ay);
    let ti = rat_mul(rat_sub((i, 1int), (n - 1, 2int)), spec_spacing());
    let tj = rat_mul(rat_sub((j, 1int), (n - 1, 2int)), spec_spacing());
    let pi = spec_pos_y(i, n, ay);
    let pj = spec_pos_y(j, n, ay);
    assert(c.1 == 20 * ay.1);
    assert(ti.0 == (i * 2 - (n - 1) * 1) * 7);
    assert(tj.0 == (j * 2 - (n - 1) * 1) * 7);
    assert(pi.0 * pj.1 < pj.0 * pi.1) by (nonlinear_arith)
        requires
            pi.0 == ti.0 * c.1 + c.0 * ti.1,
            pi.1 == ti.1 * c.1,
            pj.0 == tj.0 * c.1 + c.0 * tj.1,
            pj.1 == tj.1 * c.1,
            ti.1 == 20,
            tj.1 == 20,
            ti.0 < tj.0,
            c.1 > 0,
    ;
}

/// A rendered 2D position in abstract length units.
#[derive(Clone, Copy)]
pub struct Position {
    pub x: ExactNumber,
    pub y: ExactNumber,
}

impl Position {
    pub open spec fn wf(self) -> bool {
        self.x.wf() && self.y.wf()
    }

    pub open spec fn bounded(self) -> bool {
        coord_ok(self.x@) && coord_ok(self.y@)
    }
}

/// A fully resolved drawable primitive: only geometric attributes and, for
/// a label, the exact value it shows. Produced once, never mutated, and
/// handed to the rendering collaborator in draw order.
pub enum Drawable {
    /// The container ellipse of one set.
    ContainerEllipse { cx: ExactNumber, cy: ExactNumber, rx: ExactNumber, ry: ExactNumber },
    /// The filled dot marking one element.
    PointMarker { cx: ExactNumber, cy: ExactNumber, radius: ExactNumber },
    /// The text of one element: its exact value rendered in canonical
    /// (reduced-fraction or integer) form, centered on the anchor column
    /// just above the point.
    LabelText { x: ExactNumber, y: ExactNumber, text: String },
    /// A directed connector between a related pair, referencing the shared
    /// arrowhead marker.
    Connector { x1: ExactNumber, y1: ExactNumber, x2: ExactNumber, y2: ExactNumber },
    /// The shared arrowhead marker definition, emitted exactly once.
    ArrowheadMarker,
}

/// A lookup from each set element to its rendered position. Keys are
/// exactly the elements of the set it was built from, in the same
/// ascending order.
pub struct CoordinateMap {
    pub entries: Vec<(ExactNumber, Position)>,
}

impl View for CoordinateMap {
    type V = Seq<(ExactNumber, Position)>;

    open spec fn view(&self) -> Seq<(ExactNumber, Position)> {
        self.entries@
    }
}

impl CoordinateMap {
    /// Keys are well formed and strictly ascending; positions are well
    /// formed.
    pub open spec fn wf(self) -> bool {
        &&& forall|i: int|
            0 <= i < self@.len() ==> (#[trigger] self@[i]).0.wf() && self@[i].1.wf()
        &&& forall|i: int, j: int|
            0 <= i < j < self@.len() ==> rat_lt(self@[i].0@, self@[j].0@)
    }

    /// Every stored position obeys the layout's coordinate bounds.
    pub open spec fn bounded(self) -> bool {
        forall|i: int| 0 <= i < self@.len() ==> (#[trigger] self@[i]).1.bounded()
    }

    /// Some key denotes the value `v`.
    pub open spec fn contains_key(self, v: (int, int)) -> bool {
        exists|i: int| 0 <= i < self@.len() && rat_eq((#[trigger] self@[i]).0@, v)
    }

    /// Number of entries.
    pub fn len(&self) -> (n: usize)
        ensures
            n == self@.len(),
    {
        self.entries.len()
    }

    /// The position of the key denoting the same value as `key`. Keys are
    /// unique by value, so the match is unambiguous.
    pub fn get_position(&self, key: &ExactNumber) -> (p: Position)
        requires
            self.wf(),
            key.wf(),
            self.contains_key(key@),
        ensures
            forall|j: int|
                0 <= j < self@.len() && rat_eq((#[trigger] self@[j]).0@, key@) ==> p == self@[j].1,
    {
        let mut i: usize = 0;
        while i < self.entries.len()
            invariant
                self.wf(),
                key.wf(),
                self.contains_key(key@),
                i <= self@.len(),
                forall|k: int| 0 <= k < i ==> !rat_eq((#[trigger] self@[k]).0@, key@),
            decreases self@.len() - i,
        {
            if self.entries[i].0 == *key {
                proof {
                    assert forall|j: int|
                        0 <= j < self@.len() && rat_eq((#[trigger] self@[j]).0@, key@)
                        implies self@[i as int].1 == self@[j].1 by {
                        if j < i {
                            assert(!rat_eq(self@[j].0@, key@));
                        } else if j > i {
                            assert(rat_lt(self@[i as int].0@, self@[j].0@));
                            lemma_rat_eq_lt(self@[i as int].0@, key@, self@[j].0@);
                            lemma_rat_eq_lt(self@[j].0@, key@, self@[i as int].0@);
                        }
                    }
                }
                return self.entries[i].1;
            }
            i += 1;
        }
        proof {
            // Unreachable: some key denotes the value, so the scan above
            // cannot run off the end.
            assert(forall|k: int|
                0 <= k < self@.len() ==> !rat_eq((#[trigger] self@[k]).0@, key@));
            assert(false);
        }
        Position { x: *key, y: *key }
    }

    /// The position stored for the value of `key`, if any: `Some` exactly
    /// when a key of equal value is present.
    pub fn lookup(&self, key: &ExactNumber) -> (r: Option<Position>)
        requires
            self.wf(),
            key.wf(),
        ensures
            r is Some <==> self.contains_key(key@),
            r matches Some(p) ==> forall|j: int|
                0 <= j < self@.len() && rat_eq((#[trigger] self@[j]).0@, key@) ==> p == self@[j].1,
    {
        let mut i: usize = 0;
        while i < self.entries.len()
            invariant
                self.wf(),
                key.wf(),
                i <= self@.len(),
                forall|k: int| 0 <= k < i ==> !rat_eq((#[trigger] self@[k]).0@, key@),
            decreases self@.len() - i,
        {
            if self.entries[i].0 == *key {
                return Some(self.get_position(key));
            }
            i += 1;
        }
        None
    }
}

/// The ellipse drawable of one laid-out set.
pub open spec fn ellipse_matches(dr: Drawable, ax: ExactNumber, n: int, ay: (int, int)) -> bool {
    &&& dr matches Drawable::ContainerEllipse { cx, cy, rx, ry }
        && cx == ax
        && cy.wf() && rat_eq(cy@, spec_center_y(n, ay))
        && rx.wf() && rat_eq(rx@, (1int, 1int))
        && ry.wf() && rat_eq(ry@, spec_ellipse_ry(n, ay))
}

/// The point-marker drawable of the element with sort index `i`.
pub open spec fn point_matches(dr: Drawable, ax: ExactNumber, i: int, n: int, ay: (int, int)) -> bool {
    &&& dr matches Drawable::PointMarker { cx, cy, radius }
        && cx == ax
        && cy.wf() && rat_eq(cy@, spec_pos_y(i, n, ay))
        && radius.wf() && rat_eq(radius@, (1int, 10int))
}

/// The label drawable of the element with sort index `i`.
pub open spec fn label_matches(
    dr: Drawable,
    ax: ExactNumber,
    element: ExactNumber,
    i: int,
    n: int,
    ay: (int, int),
) -> bool {
    &&& dr matches Drawable::LabelText { x, y, text }
        && x == ax
        && text@ == crate::rational::spec_label(element@)
        && y.wf() && rat_eq(y@, spec_label_y(i, n, ay))
}

/// The drawables of one laid-out set: the container ellipse first, then
/// for each element, in ascending order, its point marker and its label.
pub open spec fn set_drawables_ok(
    d: Seq<Drawable>,
    set: OrderedSet,
    ax: ExactNumber,
    ay: (int, int),
) -> bool {
    &&& d.len() == 1 + 2 * set@.len()
    &&& ellipse_matches(d[0], ax, set@.len() as int, ay)
    &&& forall|k: int|
        1 <= k < d.len() ==> (if k % 2 == 1 {
            point_matches(#[trigger] d[k], ax, (k - 1) / 2, set@.len() as int, ay)
        } else {
            label_matches(d[k], ax, set@[k / 2 - 1], k / 2 - 1, set@.len() as int, ay)
        })
}

/// Lays out a set at an anchor: computes the container ellipse and one
/// point and label per element, and returns the drawables together with
/// the coordinate lookup, which covers every element — no more, no fewer.
pub fn layout_set(set: &OrderedSet, ax: &ExactNumber, ay: &ExactNumber) -> (out: (
    Vec<Drawable>,
    CoordinateMap,
))
    requires
        set.wf(),
        ax.wf(),
        ay.wf(),
        anchor_ok(ax@),
        anchor_ok(ay@),
        set@.len() <= 1000,
    ensures
        out.1.wf(),
        out.1.bounded(),
        out.1@.len() == set@.len(),
        forall|i: int| 0 <= i < set@.len() ==> (#[trigger] out.1@[i]).0 == set@[i],
        forall|i: int| 0 <= i < set@.len() ==> out.1.contains_key((#[trigger] set@[i])@),
        forall|i: int| 0 <= i < set@.len() ==> (#[trigger] out.1@[i]).1.x == *ax,
        forall|i: int|
            0 <= i < set@.len() ==> rat_eq(
                (#[trigger] out.1@[i]).1.y@,
                spec_pos_y(i, set@.len() as int, ay@),
            ),
        set_drawables_ok(out.0@, *set, *ax, ay@),
{
    let n: usize = set.elems.len();
    let ghost ni = n as int;
    let spacing = ExactNumber::new(7, 10);
    let half = ExactNumber::new(1, 2);
    let fifth = ExactNumber::new(1, 5);
    let one = ExactNumber::new(1, 1);
    let tenth = ExactNumber::new(1, 10);
    let count = ExactNumber::from_int(n as i64);
    proof {
        lemma_rat_bounds(spacing@, count@, 7, 10, 1000, 1);
        assert(ExactNumber::mul_fits(spacing@, count@));
    }
    let c1 = spacing.mul(&count);
    proof {
        let v1 = rat_mul(spec_spacing(), (ni, 1));
        lemma_rat_bounds(spacing@, count@, 7, 10, 1000, 1);
        lemma_op_congruence(spacing@, spec_spacing(), count@, count@);
        lemma_rat_eq_trans(c1@, rat_mul(spacing@, count@), v1);
        lemma_rat_bounds(c1@, half@, 7000, 10, 1, 2);
        assert(ExactNumber::mul_fits(c1@, half@));
    }
    let c2 = c1.mul(&half);
    proof {
        let v1 = rat_mul(spec_spacing(), (ni, 1));
        let v2 = rat_mul(v1, (1int, 2int));
        lemma_rat_bounds(c1@, half@, 7000, 10, 1, 2);
        lemma_op_congruence(c1@, v1, half@, (1int, 2int));
        lemma_rat_eq_trans(c2@, rat_mul(c1@, half@), v2);
        lemma_rat_bounds(c2@, ay@, 7000, 20, 1000, 1000);
        assert(ExactNumber::add_fits(c2@, ay@));
    }
    let center_y = c2.add(ay);
    proof {
        lemma_spec_formula_wf(0, ni, ay@);
        let v2 = rat_mul(rat_mul(spec_spacing(), (ni, 1)), (1int, 2int));
        lemma_rat_bounds(c2@, ay@, 7000, 20, 1000, 1000);
        lemma_op_congruence(c2@, v2, ay@, ay@);
        lemma_rat_eq_trans(center_y@, rat_add(c2@, ay@), spec_center_y(ni, ay@));
        assert(iabs(center_y@.0) <= 7_020_000 && center_y@.1 <= 20_000);
        lemma_rat_bounds(center_y@, fifth@, 7_020_000, 20_000, 1, 5);
        assert(ExactNumber::sub_fits(center_y@, fifth@));
    }
    let ry = center_y.sub(&fifth);
    proof {
        lemma_spec_formula_wf(0, ni, ay@);
        lemma_rat_bounds(center_y@, fifth@, 7_020_000, 20_000, 1, 5);
        lemma_op_congruence(center_y@, spec_center_y(ni, ay@), fifth@, spec_margin());
        lemma_rat_eq_trans(ry@, rat_sub(center_y@, fifth@), spec_ellipse_ry(ni, ay@));
    }
    let center_idx = ExactNumber::new(n as i64 - 1, 2);
    let mut drawables: Vec<Drawable> = Vec::new();
    let mut map = CoordinateMap { entries: Vec::new() };
    drawables.push(
        Drawable::ContainerEllipse { cx: *ax, cy: center_y, rx: one, ry },
    );
    proof {
        assert(ellipse_matches(drawables@[0], *ax, ni, ay@));
    }
    let mut i: usize = 0;
    while i < n
        invariant
            set.wf(),
            ax.wf(),
            ay.wf(),
            anchor_ok(ax@),
            anchor_ok(ay@),
            n == set@.len(),
            ni == n as int,
            n <= 1000,
            i <= n,
            spacing.wf() && rat_eq(spacing@, spec_spacing()) && iabs(spacing@.0) <= 7
                && spacing@.1 <= 10,
            fifth.wf() && rat_eq(fifth@, spec_margin()) && iabs(fifth@.0) <= 1 && fifth@.1 <= 5,
            tenth.wf() && rat_eq(tenth@, (1int, 10int)),
            center_idx.wf() && rat_eq(center_idx@, (ni - 1, 2)) && iabs(center_idx@.0) <= 1000
                && center_idx@.1 <= 2,
            center_y.wf() && rat_eq(center_y@, spec_center_y(ni, ay@)) && iabs(center_y@.0)
                <= 7_020_000 && center_y@.1 <= 20_000,
            map.wf(),
            map.bounded(),
            map@.len() == i,
            forall|k: int| 0 <= k < i ==> (#[trigger] map@[k]).0 == set@[k],
            forall|k: int| 0 <= k < i ==> (#[trigger] map@[k]).1.x == *ax,
            forall|k: int|
                0 <= k < i ==> rat_eq((#[trigger] map@[k]).1.y@, spec_pos_y(k, ni, ay@)),
            drawables@.len() == 1 + 2 * i,
            ellipse_matches(drawables@[0], *ax, ni, ay@),
            forall|k: int|
                1 <= k < drawables@.len() ==> (if k % 2 == 1 {
                    point_matches(#[trigger] drawables@[k], *ax, (k - 1) / 2, ni, ay@)
                } else {
                    label_matches(drawables@[k], *ax, set@[k / 2 - 1], k / 2 - 1, ni, ay@)
                }),
        decreases n - i,
    {
        let element = set.elems[i];
        let iv = ExactNumber::from_int(i as i64);
        proof {
            lemma_rat_bounds(iv@, center_idx@, 1000, 1, 1000, 2);
            assert(ExactNumber::sub_fits(iv@, center_idx@));
        }
        let off = iv.sub(&center_idx);
        proof {
            lemma_spec_formula_wf(i as int, ni, ay@);
            lemma_rat_bounds(iv@, center_idx@, 1000, 1, 1000, 2);
            lemma_op_congruence(iv@, (i as int, 1int), center_idx@, (ni - 1, 2));
            lemma_rat_eq_trans(off@, rat_sub(iv@, center_idx@), rat_sub((i as int, 1), (ni - 1, 2)));
            lemma_rat_bounds(off@, spacing@, 3000, 2, 7, 10);
            assert(ExactNumber::mul_fits(off@, spacing@));
        }
        let term = off.mul(&spacing);
        proof {
            lemma_spec_formula_wf(i as int, ni, ay@);
            let vo = rat_sub((i as int, 1int), (ni - 1, 2));
            lemma_rat_bounds(off@, spacing@, 3000, 2, 7, 10);
            lemma_op_congruence(off@, vo, spacing@, spec_spacing());
            lemma_rat_eq_trans(term@, rat_mul(off@, spacing@), rat_mul(vo, spec_spacing()));
            lemma_rat_bounds(term@, center_y@, 21_000, 20, 7_020_000, 20_000);
            assert(ExactNumber::add_fits(term@, center_y@));
        }
        let pos_y = term.add(&center_y);
        proof {
            lemma_spec_formula_wf(i as int, ni, ay@);
            let vo = rat_sub((i as int, 1int), (ni - 1, 2));
            let vt = rat_mul(vo, spec_spacing());
            lemma_rat_bounds(term@, center_y@, 21_000, 20, 7_020_000, 20_000);
            lemma_op_congruence(term@, vt, center_y@, spec_center_y(ni, ay@));
            lemma_rat_eq_trans(
                pos_y@,
                rat_add(term@, center_y@),
                spec_pos_y(i as int, ni, ay@),
            );
            assert(iabs(pos_y@.0) <= 560_400_000 && pos_y@.1 <= 400_000);
            assert(coord_ok(pos_y@));
            lemma_rat_bounds(pos_y@, fifth@, 560_400_000, 400_000, 1, 5);
            assert(ExactNumber::sub_fits(pos_y@, fifth@));
        }
        let label_y = pos_y.sub(&fifth);
        proof {
            lemma_spec_formula_wf(i as int, ni, ay@);
            lemma_rat_bounds(pos_y@, fifth@, 560_400_000, 400_000, 1, 5);
            lemma_op_congruence(pos_y@, spec_pos_y(i as int, ni, ay@), fifth@, spec_margin());
            lemma_rat_eq_trans(
                label_y@,
                rat_sub(pos_y@, fifth@),
                spec_label_y(i as int, ni, ay@),
            );
        }
        let ghost dpre = drawables@;
        drawables.push(Drawable::PointMarker { cx: *ax, cy: pos_y, radius: tenth });
        let text = element.to_label();
        drawables.push(Drawable::LabelText { x: *ax, y: label_y, text });
        map.entries.push((element, Position { x: *ax, y: pos_y }));
        proof {
            let d = drawables@;
            assert(d.len() == 1 + 2 * (i + 1));
            assert((2 * (i as int) + 1) % 2 == 1 && ((2 * (i as int) + 1) - 1) / 2 == i as int);
            assert((2 * (i as int) + 2) % 2 == 0 && (2 * (i as int) + 2) / 2 - 1 == i as int);
            assert(point_matches(d[2 * (i as int) + 1], *ax, i as int, ni, ay@));
            assert(label_matches(d[2 * (i as int) + 2], *ax, set@[i as int], i as int, ni, ay@));
            assert forall|k: int| 1 <= k < d.len() implies (if k % 2 == 1 {
                point_matches(#[trigger] d[k], *ax, (k - 1) / 2, ni, ay@)
            } else {
                label_matches(d[k], *ax, set@[k / 2 - 1], k / 2 - 1, ni, ay@)
            }) by {
                if k < dpre.len() {
                    assert(d[k] == dpre[k]);
                }
            }
            // The new key extends the strictly ascending key order.
            assert forall|a: int, b: int| 0 <= a < b < map@.len() implies rat_lt(
                map@[a].0@,
                map@[b].0@,
            ) by {
                assert(map@[a].0 == set@[a] && map@[b].0 == set@[b]);
            }
        }
        i += 1;
    }
    proof {
        assert forall|i: int| 0 <= i < set@.len() implies map.contains_key(
            (#[trigger] set@[i])@,
        ) by {
            assert(map@[i].0 == set@[i]);
            assert(rat_eq(map@[i].0@, set@[i]@));
        }
    }
    (drawables, map)
}

/// Trimming is a function of the denoted coordinate values alone.
pub proof fn lemma_trim_congruence(a: (int, int), a2: (int, int), b: (int, int), b2: (int, int))
    requires
        rat_wf(a),
        rat_wf(a2),
        rat_wf(b),
        rat_wf(b2),
        rat_eq(a, a2),
        rat_eq(b, b2),
    ensures
        rat_eq(spec_trim(a, b), spec_trim(a2, b2)),
        rat_wf(spec_trim(a, b)),
        rat_wf(spec_trim(a2, b2)),
{
    crate::rational::lemma_ops_wf(a, b);
    crate::rational::lemma_ops_wf(a2, b2);
    lemma_op_congruence(a, a2, b, b2);
    crate::rational::lemma_ops_wf(rat_add(a, b), (1int, 2int));
    crate::rational::lemma_ops_wf(rat_add(a2, b2), (1int, 2int));
    lemma_op_congruence(rat_add(a, b), rat_add(a2, b2), (1int, 2int), (1int, 2int));
    assert(rat_eq(spec_midpoint(a, b), spec_midpoint(a2, b2)));
    crate::rational::lemma_ops_wf(b, (39int, 50int));
    crate::rational::lemma_ops_wf(b2, (39int, 50int));
    lemma_op_congruence(b, b2, (39int, 50int), (39int, 50int));
    crate::rational::lemma_ops_wf(spec_midpoint(a, b), (11int, 50int));
    crate::rational::lemma_ops_wf(spec_midpoint(a2, b2), (11int, 50int));
    lemma_op_congruence(spec_midpoint(a, b), spec_midpoint(a2, b2), (11int, 50int), (11int, 50int));
    crate::rational::lemma_ops_wf(rat_mul(b, (39int, 50int)), rat_mul(spec_midpoint(a, b), (11int, 50int)));
    crate::rational::lemma_ops_wf(
        rat_mul(b2, (39int, 50int)),
        rat_mul(spec_midpoint(a2, b2), (11int, 50int)),
    );
    lemma_op_congruence(
        rat_mul(b, (39int, 50int)),
        rat_mul(b2, (39int, 50int)),
        rat_mul(spec_midpoint(a, b), (11int, 50int)),
        rat_mul(spec_midpoint(a2, b2), (11int, 50int)),
    );
}

/// Computes the trimmed codomain-side coordinate of a connector: from the
/// codomain coordinate `b`, 22/100 of the way toward the midpoint of `a`
/// and `b`.
fn trim_coordinate(a: &ExactNumber, b: &ExactNumber) -> (r: ExactNumber)
    requires
        a.wf(),
        b.wf(),
        coord_ok(a@),
        coord_ok(b@),
    ensures
        r.wf(),
        rat_eq(r@, spec_trim(a@, b@)),
{
    proof {
        assert(-3_000_000_000 <= a@.0 <= 3_000_000_000);
        assert(-3_000_000_000 <= b@.0 <= 3_000_000_000);
        assert(-33_000_000_000 <= 11 * a@.0 <= 33_000_000_000
            && -66_000_000_000_000_000 <= 11 * a@.0 * b@.1 <= 66_000_000_000_000_000
            && -267_000_000_000 <= 89 * b@.0 <= 267_000_000_000
            && -534_000_000_000_000_000 <= 89 * b@.0 * a@.1 <= 534_000_000_000_000_000
            && -600_000_000_000_000_000 <= 11 * a@.0 * b@.1 + 89 * b@.0 * a@.1
                <= 600_000_000_000_000_000
            && 0 < 100 * a@.1 <= 200_000_000
            && 0 < 100 * a@.1 * b@.1 <= 400_000_000_000_000) by (nonlinear_arith)
            requires
                -3_000_000_000 <= a@.0 <= 3_000_000_000,
                0 < a@.1 <= 2_000_000,
                -3_000_000_000 <= b@.0 <= 3_000_000_000,
                0 < b@.1 <= 2_000_000,
        ;
    }
    let rn: i128 = 11 * (a.num as i128) * (b.den as i128) + 89 * (b.num as i128) * (a.den as i128);
    let rd: i128 = 100 * (a.den as i128) * (b.den as i128);
    let r = ExactNumber::new(rn as i64, rd as i64);
    proof {
        let a0 = a@.0;
        let a1 = a@.1;
        let b0 = b@.0;
        let b1 = b@.1;
        let t = spec_trim(a@, b@);
        assert(t.0 == (b0 * 39) * (((a1 * b1) * 2) * 50) + (((a0 * b1 + b0 * a1) * 1) * 11) * (b1
            * 50));
        assert(t.1 == (b1 * 50) * (((a1 * b1) * 2) * 50));
        assert(rat_eq((rn as int, rd as int), t) && t.1 > 0) by (nonlinear_arith)
            requires
                rn as int == 11 * a0 * b1 + 89 * b0 * a1,
                rd as int == 100 * a1 * b1,
                t.0 == (b0 * 39) * (((a1 * b1) * 2) * 50) + (((a0 * b1 + b0 * a1) * 1) * 11) * (
                b1 * 50),
                t.1 == (b1 * 50) * (((a1 * b1) * 2) * 50),
                a1 > 0,
                b1 > 0,
        ;
        crate::rational::lemma_rat_eq_trans(r@, (rn as int, rd as int), t);
    }
    r
}

/// Trimming never reaches the codomain point: along either coordinate,
/// the trimmed point lies strictly between the codomain point and the
/// midpoint whenever the two points differ, and coincides with them when
/// they are equal.
pub proof fn lemma_trim_strictly_between(a: (int, int), b: (int, int))
    requires
        rat_wf(a),
        rat_wf(b),
    ensures
        rat_lt(b, a) ==> rat_lt(b, spec_trim(a, b)) && rat_lt(spec_trim(a, b), spec_midpoint(a, b)),
        rat_lt(a, b) ==> rat_lt(spec_midpoint(a, b), spec_trim(a, b)) && rat_lt(spec_trim(a, b), b),
        rat_eq(a, b) ==> rat_eq(spec_trim(a, b), b),
{
    let m = spec_midpoint(a, b);
    let x = rat_mul(b, (39int, 50int));
    let y = rat_mul(m, (11int, 50int));
    let t = spec_trim(a, b);
    if rat_lt(b, a) {
        assert(b.0 * t.1 < t.0 * b.1 && t.0 * m.1 < m.0 * t.1) by (nonlinear_arith)
            requires
                t.0 == x.0 * y.1 + y.0 * x.1,
                t.1 == x.1 * y.1,
                x.0 == b.0 * 39,
                x.1 == b.1 * 50,
                y.0 == m.0 * 11,
                y.1 == m.1 * 50,
                m.0 == (a.0 * b.1 + b.0 * a.1) * 1,
                m.1 == (a.1 * b.1) * 2,
                b.0 * a.1 < a.0 * b.1,
                a.1 > 0,
                b.1 > 0,
        ;
    }
    if rat_lt(a, b) {
        assert(m.0 * t.1 < t.0 * m.1 && t.0 * b.1 < b.0 * t.1) by (nonlinear_arith)
            requires
                t.0 == x.0 * y.1 + y.0 * x.1,
                t.1 == x.1 * y.1,
                x.0 == b.0 * 39,
                x.1 == b.1 * 50,
                y.0 == m.0 * 11,
                y.1 == m.1 * 50,
                m.0 == (a.0 * b.1 + b.0 * a.1) * 1,
                m.1 == (a.1 * b.1) * 2,
                a.0 * b.1 < b.0 * a.1,
                a.1 > 0,
                b.1 > 0,
        ;
    }
    if rat_eq(a, b) {
        assert(t.0 * b.1 == b.0 * t.1) by (nonlinear_arith)
            requires
                t.0 == x.0 * y.1 + y.0 * x.1,
                t.1 == x.1 * y.1,
                x.0 == b.0 * 39,
                x.1 == b.1 * 50,
                y.0 == m.0 * 11,
                y.1 == m.1 * 50,
                m.0 == (a.0 * b.1 + b.0 * a.1) * 1,
                m.1 == (a.1 * b.1) * 2,
                a.0 * b.1 == b.0 * a.1,
                a.1 > 0,
                b.1 > 0,
        ;
    }
}

/// One connector drawable: it starts exactly at the domain position and
/// ends at the codomain position trimmed toward the midpoint.
pub open spec fn connector_matches(dr: Drawable, a: Position, b: Position) -> bool {
    &&& dr matches Drawable::Connector { x1, y1, x2, y2 }
        && x1 == a.x
        && y1 == a.y
        && x2.wf() && rat_eq(x2@, spec_trim(a.x@, b.x@))
        && y2.wf() && rat_eq(y2@, spec_trim(a.y@, b.y@))
}

/// The drawable is the connector of the pair, with both ends read from
/// the two lookups.
pub open spec fn connector_linked(
    dr: Drawable,
    pr: (ExactNumber, ExactNumber),
    dmap: CoordinateMap,
    cmap: CoordinateMap,
) -> bool {
    exists|i: int, j: int|
        0 <= i < dmap@.len() && 0 <= j < cmap@.len() && rat_eq((#[trigger] dmap@[i]).0@, pr.0@)
            && rat_eq((#[trigger] cmap@[j]).0@, pr.1@) && connector_matches(
            dr,
            dmap@[i].1,
            cmap@[j].1,
        )
}

/// Computes the connector drawables for the related pairs: one shared
/// arrowhead marker definition first, then one trimmed segment per pair,
/// in the given (row-major) order. Every pair's ends must be present in
/// the respective lookup.
pub fn layout_connectors(
    pairs: &Vec<(ExactNumber, ExactNumber)>,
    dmap: &CoordinateMap,
    cmap: &CoordinateMap,
) -> (r: Vec<Drawable>)
    requires
        dmap.wf(),
        cmap.wf(),
        dmap.bounded(),
        cmap.bounded(),
        forall|k: int|
            0 <= k < pairs@.len() ==> (#[trigger] pairs@[k]).0.wf() && pairs@[k].1.wf(),
        forall|k: int|
            0 <= k < pairs@.len() ==> dmap.contains_key((#[trigger] pairs@[k]).0@)
                && cmap.contains_key(pairs@[k].1@),
    ensures
        r@.len() == 1 + pairs@.len(),
        r@[0] == Drawable::ArrowheadMarker,
        forall|k: int|
            0 <= k < pairs@.len() ==> connector_linked(r@[k + 1], #[trigger] pairs@[k], *dmap, *cmap),
{
    let mut out: Vec<Drawable> = Vec::new();
    out.push(Drawable::ArrowheadMarker);
    let mut k: usize = 0;
    while k < pairs.len()
        invariant
            dmap.wf(),
            cmap.wf(),
            dmap.bounded(),
            cmap.bounded(),
            forall|k2: int|
                0 <= k2 < pairs@.len() ==> (#[trigger] pairs@[k2]).0.wf() && pairs@[k2].1.wf(),
            forall|k2: int|
                0 <= k2 < pairs@.len() ==> dmap.contains_key((#[trigger] pairs@[k2]).0@)
                    && cmap.contains_key(pairs@[k2].1@),
            k <= pairs@.len(),
            out@.len() == 1 + k,
            out@[0] == Drawable::ArrowheadMarker,
            forall|k2: int|
                0 <= k2 < k ==> connector_linked(
                    out@[k2 + 1],
                    #[trigger] pairs@[k2],
                    *dmap,
                    *cmap,
                ),
        decreases pairs@.len() - k,
    {
        let dpos = dmap.get_position(&pairs[k].0);
        let cpos = cmap.get_position(&pairs[k].1);
        proof {
            let i0 = choose|i: int|
                0 <= i < dmap@.len() && rat_eq((#[trigger] dmap@[i]).0@, pairs@[k as int].0@);
            let j0 = choose|j: int|
                0 <= j < cmap@.len() && rat_eq((#[trigger] cmap@[j]).0@, pairs@[k as int].1@);
            assert(dpos == dmap@[i0].1);
            assert(cpos == cmap@[j0].1);
            assert(dmap@[i0].1.bounded());
            assert(cmap@[j0].1.bounded());
        }
        let x2 = trim_coordinate(&dpos.x, &cpos.x);
        let y2 = trim_coordinate(&dpos.y, &cpos.y);
        let ghost opre = out@;
        out.push(Drawable::Connector { x1: dpos.x, y1: dpos.y, x2, y2 });
        proof {
            let i0 = choose|i: int|
                0 <= i < dmap@.len() && rat_eq((#[trigger] dmap@[i]).0@, pairs@[k as int].0@);
            let j0 = choose|j: int|
                0 <= j < cmap@.len() && rat_eq((#[trigger] cmap@[j]).0@, pairs@[k as int].1@);
            assert(connector_matches(out@[k + 1], dmap@[i0].1, cmap@[j0].1));
            assert(connector_linked(out@[k as int + 1], pairs@[k as int], *dmap, *cmap));
            assert forall|k2: int| 0 <= k2 < k + 1 implies connector_linked(
                out@[k2 + 1],
                #[trigger] pairs@[k2],
                *dmap,
                *cmap,
            ) by {
                if k2 < k {
                    assert(out@[k2 + 1] == opre[k2 + 1]);
                }
            }
        }
        k += 1;
    }
    out
}

/// The drawable is the connector of the related pair `pr`: it starts
/// exactly at the domain element's laid-out position and ends at the
/// codomain element's position trimmed toward the midpoint.
pub open spec fn diagram_connector_ok<P: Predicate>(
    dr: Drawable,
    pr: (ExactNumber, ExactNumber),
    relation: Relation<P>,
    dom_ax: ExactNumber,
    dom_ay: (int, int),
    cod_ax: ExactNumber,
    cod_ay: (int, int),
) -> bool {
    exists|i: int, j: int|
        0 <= i < relation.domain@.len() && 0 <= j < relation.codomain@.len() && pr == (
            #[trigger] relation.domain@[i],
            #[trigger] relation.codomain@[j],
        ) && (dr matches Drawable::Connector { x1, y1, x2, y2 }
            && x1 == dom_ax
            && y1.wf() && rat_eq(y1@, spec_pos_y(i, relation.domain@.len() as int, dom_ay))
            && x2.wf() && rat_eq(x2@, spec_trim(dom_ax@, cod_ax@))
            && y2.wf() && rat_eq(
            y2@,
            spec_trim(
                spec_pos_y(i, relation.domain@.len() as int, dom_ay),
                spec_pos_y(j, relation.codomain@.len() as int, cod_ay),
            ),
        ))
}

/// Builds the whole diagram: the domain set laid out at its anchor, the
/// codomain set at its anchor, then the shared arrowhead marker and one
/// trimmed connector per related pair, in row-major order — later
/// primitives visually overlay earlier ones.
#[verifier::rlimit(60)]
pub fn build_diagram<P: Predicate>(
    relation: &Relation<P>,
    dom_ax: &ExactNumber,
    dom_ay: &ExactNumber,
    cod_ax: &ExactNumber,
    cod_ay: &ExactNumber,
) -> (r: Vec<Drawable>)
    requires
        relation.wf(),
        dom_ax.wf(),
        dom_ay.wf(),
        cod_ax.wf(),
        cod_ay.wf(),
        anchor_ok(dom_ax@),
        anchor_ok(dom_ay@),
        anchor_ok(cod_ax@),
        anchor_ok(cod_ay@),
        relation.domain@.len() <= 1000,
        relation.codomain@.len() <= 1000,
    ensures
        r@.len() == (1 + 2 * relation.domain@.len()) + (1 + 2 * relation.codomain@.len()) + 1
            + relation.related_spec().len(),
        set_drawables_ok(
            r@.subrange(0, 1 + 2 * relation.domain@.len() as int),
            relation.domain,
            *dom_ax,
            dom_ay@,
        ),
        set_drawables_ok(
            r@.subrange(
                1 + 2 * relation.domain@.len() as int,
                2 + 2 * relation.domain@.len() as int + 2 * relation.codomain@.len() as int,
            ),
            relation.codomain,
            *cod_ax,
            cod_ay@,
        ),
        r@[2 + 2 * relation.domain@.len() as int + 2 * relation.codomain@.len() as int]
            == Drawable::ArrowheadMarker,
        forall|k: int|
            0 <= k < relation.related_spec().len() ==> diagram_connector_ok(
                r@[3 + 2 * relation.domain@.len() as int + 2 * relation.codomain@.len() as int + k],
                #[trigger] relation.related_spec()[k],
                *relation,
                *dom_ax,
                dom_ay@,
                *cod_ax,
                cod_ay@,
            ),
{
    let ghost dn = relation.domain@.len() as int;
    let ghost cn = relation.codomain@.len() as int;
    let (ddraw, dmap) = layout_set(&relation.domain, dom_ax, dom_ay);
    let (cdraw, cmap) = layout_set(&relation.codomain, cod_ax, cod_ay);
    let rel = relation.related_pairs();
    proof {
        assert forall|k: int| 0 <= k < rel@.len() implies (#[trigger] rel@[k]).0.wf()
            && rel@[k].1.wf() && dmap.contains_key(rel@[k].0@) && cmap.contains_key(
            rel@[k].1@,
        ) by {
            let (i, j) = choose|i: int, j: int|
                0 <= i < relation.domain@.len() && 0 <= j < relation.codomain@.len() && rel@[k]
                    == ((#[trigger] relation.domain@[i]), #[trigger] relation.codomain@[j]);
            assert(dmap@[i].0 == relation.domain@[i]);
            assert(rat_eq(dmap@[i].0@, rel@[k].0@));
            assert(cmap@[j].0 == relation.codomain@[j]);
            assert(rat_eq(cmap@[j].0@, rel@[k].1@));
        }
    }
    let conn = layout_connectors(&rel, &dmap, &cmap);
    let ghost dd0 = ddraw@;
    let ghost cd0 = cdraw@;
    let ghost cc0 = conn@;
    let mut out = ddraw;
    let mut tail = cdraw;
    out.append(&mut tail);
    let mut tail2 = conn;
    out.append(&mut tail2);
    proof {
        assert(out@ == dd0 + cd0 + cc0);
        assert(out@.subrange(0, 1 + 2 * dn) =~= dd0);
        assert(out@.subrange(1 + 2 * dn, 2 + 2 * dn + 2 * cn) =~= cd0);
        assert(out@[2 + 2 * dn + 2 * cn] == cc0[0]);
        let rels = relation.related_spec();
        assert forall|k: int| 0 <= k < rels.len() implies diagram_connector_ok(
            out@[3 + 2 * dn + 2 * cn + k],
            #[trigger] rels[k],
            *relation,
            *dom_ax,
            dom_ay@,
            *cod_ax,
            cod_ay@,
        ) by {
            let dr = out@[3 + 2 * dn + 2 * cn + k];
            assert(dr == cc0[k + 1]);
            assert(connector_linked(cc0[k + 1], rels[k], dmap, cmap));
            lemma_linked_connector_is_diagram_connector(
                dr,
                rels[k],
                *relation,
                dmap,
                cmap,
                *dom_ax,
                dom_ay@,
                *cod_ax,
                cod_ay@,
            );
        }
    }
    out
}

/// A connector linked through the two coordinate lookups of a relation's
/// laid-out sets is the diagram connector of its pair: the lookups' keys
/// are exactly the set elements, and matching key indices are unique
/// because keys strictly ascend.
proof fn lemma_linked_connector_is_diagram_connector<P: Predicate>(
    dr: Drawable,
    pr: (ExactNumber, ExactNumber),
    relation: Relation<P>,
    dmap: CoordinateMap,
    cmap: CoordinateMap,
    dom_ax: ExactNumber,
    dom_ay: (int, int),
    cod_ax: ExactNumber,
    cod_ay: (int, int),
)
    requires
        dmap.wf(),
        cmap.wf(),
        rat_wf(dom_ay),
        rat_wf(cod_ay),
        dmap@.len() == relation.domain@.len(),
        cmap@.len() == relation.codomain@.len(),
        forall|i: int|
            0 <= i < relation.domain@.len() ==> (#[trigger] dmap@[i]).0 == relation.domain@[i],
        forall|i: int| 0 <= i < relation.domain@.len() ==> (#[trigger] dmap@[i]).1.x == dom_ax,
        forall|i: int|
            0 <= i < relation.domain@.len() ==> rat_eq(
                (#[trigger] dmap@[i]).1.y@,
                spec_pos_y(i, relation.domain@.len() as int, dom_ay),
            ),
        forall|j: int|
            0 <= j < relation.codomain@.len() ==> (#[trigger] cmap@[j]).0
                == relation.codomain@[j],
        forall|j: int| 0 <= j < relation.codomain@.len() ==> (#[trigger] cmap@[j]).1.x == cod_ax,
        forall|j: int|
            0 <= j < relation.codomain@.len() ==> rat_eq(
                (#[trigger] cmap@[j]).1.y@,
                spec_pos_y(j, relation.codomain@.len() as int, cod_ay),
            ),
        relation.pair_from_sets(pr),
        connector_linked(dr, pr, dmap, cmap),
    ensures
        diagram_connector_ok(dr, pr, relation, dom_ax, dom_ay, cod_ax, cod_ay),
{
    let dn = relation.domain@.len() as int;
    let cn = relation.codomain@.len() as int;
    let (i, j) = choose|i: int, j: int|
        0 <= i < relation.domain@.len() && 0 <= j < relation.codomain@.len() && pr == (
            (#[trigger] relation.domain@[i]),
            #[trigger] relation.codomain@[j],
        );
    let (i0, j0) = choose|i0: int, j0: int|
        0 <= i0 < dmap@.len() && 0 <= j0 < cmap@.len() && rat_eq(
            (#[trigger] dmap@[i0]).0@,
            pr.0@,
        ) && rat_eq((#[trigger] cmap@[j0]).0@, pr.1@) && connector_matches(
            dr,
            dmap@[i0].1,
            cmap@[j0].1,
        );
    // Keys ascend strictly, so the matching key index is unique.
    assert(dmap@[i].0 == relation.domain@[i]);
    assert(rat_eq(dmap@[i].0@, pr.0@));
    if i0 < i {
        assert(rat_lt(dmap@[i0].0@, dmap@[i].0@));
        lemma_rat_eq_lt(dmap@[i0].0@, pr.0@, dmap@[i].0@);
        lemma_rat_eq_lt(dmap@[i].0@, pr.0@, dmap@[i0].0@);
        assert(false);
    } else if i < i0 {
        assert(rat_lt(dmap@[i].0@, dmap@[i0].0@));
        lemma_rat_eq_lt(dmap@[i0].0@, pr.0@, dmap@[i].0@);
        lemma_rat_eq_lt(dmap@[i].0@, pr.0@, dmap@[i0].0@);
        assert(false);
    }
    assert(i0 == i);
    assert(cmap@[j].0 == relation.codomain@[j]);
    assert(rat_eq(cmap@[j].0@, pr.1@));
    if j0 < j {
        assert(rat_lt(cmap@[j0].0@, cmap@[j].0@));
        lemma_rat_eq_lt(cmap@[j0].0@, pr.1@, cmap@[j].0@);
        lemma_rat_eq_lt(cmap@[j].0@, pr.1@, cmap@[j0].0@);
        assert(false);
    } else if j < j0 {
        assert(rat_lt(cmap@[j].0@, cmap@[j0].0@));
        lemma_rat_eq_lt(cmap@[j0].0@, pr.1@, cmap@[j].0@);
        lemma_rat_eq_lt(cmap@[j].0@, pr.1@, cmap@[j0].0@);
        assert(false);
    }
    assert(j0 == j);
    let dpos = dmap@[i].1;
    let cpos = cmap@[j].1;
    assert(dpos.x == dom_ax && cpos.x == cod_ax);
    assert(rat_eq(dpos.y@, spec_pos_y(i, dn, dom_ay)));
    assert(rat_eq(cpos.y@, spec_pos_y(j, cn, cod_ay)));
    lemma_spec_formula_wf(i, dn, dom_ay);
    lemma_spec_formula_wf(j, cn, cod_ay);
    lemma_trim_congruence(dpos.y@, spec_pos_y(i, dn, dom_ay), cpos.y@, spec_pos_y(j, cn, cod_ay));
    match dr {
        Drawable::Connector { x1, y1, x2, y2 } => {
            assert(y2.wf() && rat_eq(y2@, spec_trim(dpos.y@, cpos.y@)));
            lemma_rat_eq_trans(
                y2@,
                spec_trim(dpos.y@, cpos.y@),
                spec_trim(spec_pos_y(i, dn, dom_ay), spec_pos_y(j, cn, cod_ay)),
            );
        },
        _ => {
            assert(false);
        },
    }
}

} // verus!
