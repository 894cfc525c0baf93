use relation_diagram::layout::{layout_connectors, layout_set, CoordinateMap, Drawable};
use relation_diagram::ordered_set::OrderedSet;
use relation_diagram::rational::ExactNumber;
use relation_diagram::relation::{Predicate, ReciprocalPredicate, Relation};

fn num(n: i64) -> ExactNumber {
    ExactNumber::from_int(n)
}

fn frac(n: i64, d: i64) -> ExactNumber {
    ExactNumber::new(n, d)
}

fn tolerance() -> ExactNumber {
    frac(1, 100000)
}

fn sample_relation() -> Relation<ReciprocalPredicate> {
    let values = vec![num(-3), num(-2), num(-1), num(1), num(2), num(3)];
    Relation {
        domain: OrderedSet::build(&values),
        codomain: OrderedSet::build(&values),
        p: ReciprocalPredicate { tolerance: tolerance() },
    }
}

#[test]
fn canonical_lowest_terms() {
    let a = frac(6, 4);
    assert!(a.numer() == 3 && a.denom() == 2);
    let b = frac(3, -6);
    assert!(b.numer() == -1 && b.denom() == 2);
    let c = frac(-7, -14);
    assert!(c.numer() == 1 && c.denom() == 2);
    let d = frac(0, 5);
    assert!(d.numer() == 0 && d.denom() == 1);
    assert!(frac(6, 2) == num(3));
}

#[test]
fn exact_arithmetic() {
    let half = frac(1, 2);
    let third = frac(1, 3);
    let diff = half.sub(&third);
    assert!(diff == frac(1, 6));
    let r = num(-3).recip();
    assert!(r == frac(-1, 3));
    let f = frac(-7, 2).fract();
    assert!(f == frac(-1, 2));
    let g = frac(5, 2).fract();
    assert!(g == frac(1, 2));
    assert!(frac(-3, 4).abs() == frac(3, 4));
    assert!(third.lt(&half));
    assert!(!half.lt(&third));
    assert!(half.add(&third) == frac(5, 6));
    assert!(half.mul(&third) == frac(1, 6));
}

#[test]
fn canonical_labels() {
    assert_eq!(num(3).to_label(), "3");
    assert_eq!(num(-12).to_label(), "-12");
    assert_eq!(frac(-1, 2).to_label(), "-1/2");
    assert_eq!(frac(7, 10).to_label(), "7/10");
    assert_eq!(num(0).to_label(), "0");
}

#[test]
fn uniqueness_and_order() {
    // Duplicate values in different written forms, out of order.
    let values = vec![frac(6, 2), num(-1), frac(1, 2), num(3), frac(2, 4), num(-1)];
    let s = OrderedSet::build(&values);
    assert_eq!(s.len(), 3);
    let mut previous: Option<ExactNumber> = None;
    for i in 0..s.len() {
        let e = s.index(i);
        if let Some(p) = previous {
            assert!(p.lt(&e));
        }
        previous = Some(e);
    }
    assert!(s.index(0) == num(-1));
    assert!(s.index(1) == frac(1, 2));
    assert!(s.index(2) == num(3));
    assert!(s.contains_value(&frac(3, 6)));
    assert!(!s.contains_value(&num(7)));
}

#[test]
fn cartesian_row_major() {
    let d = OrderedSet::build(&vec![num(1), num(2)]);
    let c = OrderedSet::build(&vec![num(1), num(2), num(3)]);
    let rel = Relation { domain: d, codomain: c, p: ReciprocalPredicate { tolerance: tolerance() } };
    let product = rel.cartesian_product();
    assert_eq!(product.len(), 6);
    let expected = [(1, 1), (1, 2), (1, 3), (2, 1), (2, 2), (2, 3)];
    for (pair, (x, y)) in product.iter().zip(expected.iter()) {
        assert!(pair.0 == num(*x) && pair.1 == num(*y));
    }
    // Deterministic and restartable: a second call gives the same pairs.
    let again = rel.cartesian_product();
    assert_eq!(again.len(), product.len());
    for (a, b) in again.iter().zip(product.iter()) {
        assert!(a.0 == b.0 && a.1 == b.1);
    }
}

#[test]
fn reciprocal_classification_exact() {
    let rel = sample_relation();
    let related = rel.related_pairs();
    // A pair is related exactly when the reciprocals agree modulo one:
    // the fractional part of the difference is exactly zero here, far
    // below the tolerance. In row-major order:
    let expected = [
        (-3, -3),
        (-2, -2),
        (-2, 2),
        (-1, -1),
        (-1, 1),
        (1, -1),
        (1, 1),
        (2, -2),
        (2, 2),
        (3, 3),
    ];
    assert_eq!(related.len(), expected.len());
    for (pair, (x, y)) in related.iter().zip(expected.iter()) {
        assert!(pair.0 == num(*x) && pair.1 == num(*y));
    }
    // The positive diagonal is related, with reciprocal difference
    // exactly zero.
    for v in [1i64, 2, 3] {
        assert!(related.iter().any(|p| p.0 == num(v) && p.1 == num(v)));
    }
    // Exhaustive check of all 36 pairs against the predicate itself: no
    // false positives or negatives relative to exact arithmetic.
    let p = ReciprocalPredicate { tolerance: tolerance() };
    let mut related_count = 0;
    for pair in rel.cartesian_product().iter() {
        let holds = p.decide(&pair.0, &pair.1);
        let integral_difference =
            pair.0.recip().sub(&pair.1.recip()).fract() == num(0);
        assert_eq!(holds, integral_difference);
        if holds {
            related_count += 1;
        }
    }
    assert_eq!(related_count, expected.len());
}

#[test]
fn layout_coverage() {
    let s = OrderedSet::build(&vec![num(-3), num(-2), num(-1), num(1), num(2), num(3)]);
    let (drawables, map) = layout_set(&s, &frac(3, 2), &frac(1, 4));
    assert_eq!(drawables.len(), 1 + 2 * 6);
    assert_eq!(map.len(), s.len());
    for i in 0..s.len() {
        let e = s.index(i);
        let p = map.lookup(&e).expect("every element must have a position");
        assert!(p.x == frac(3, 2));
    }
    // No extras: a value outside the set has no position.
    assert!(map.lookup(&num(10)).is_none());
}

#[test]
fn layout_symmetry() {
    let s = OrderedSet::build(&vec![num(1), num(2), num(3), num(4)]);
    let (_, map) = layout_set(&s, &frac(3, 2), &frac(1, 4));
    let mut ys = Vec::new();
    for i in 0..s.len() {
        ys.push(map.lookup(&s.index(i)).unwrap().y);
    }
    // Positions strictly ascend.
    for i in 1..ys.len() {
        assert!(ys[i - 1].lt(&ys[i]));
    }
    // Mirrored pairs sum to the same value: the positions are symmetric
    // about the ellipse's vertical center.
    let total = ys[0].add(&ys[3]);
    assert!(ys[1].add(&ys[2]) == total);
    // The center is spacing * n / 2 + anchor: 7/10 * 4 / 2 + 1/4 = 33/20.
    let center = frac(7, 10).mul(&num(4)).mul(&frac(1, 2)).add(&frac(1, 4));
    assert!(center == frac(33, 20));
    assert!(total == center.mul(&num(2)));
}

#[test]
fn middle_element_on_center() {
    // With an odd count the middle element sits exactly on the ellipse's
    // vertical center; a singleton sits exactly there too.
    let s = OrderedSet::build(&vec![num(1), num(2), num(3)]);
    let (_, map) = layout_set(&s, &frac(3, 2), &frac(1, 4));
    let center = frac(7, 10).mul(&num(3)).mul(&frac(1, 2)).add(&frac(1, 4));
    assert!(center == frac(13, 10));
    assert!(map.lookup(&num(2)).unwrap().y == center);

    let single = OrderedSet::build(&vec![num(1)]);
    let (_, smap) = layout_set(&single, &frac(3, 2), &frac(1, 4));
    assert!(smap.lookup(&num(1)).unwrap().y == frac(3, 5));
}

#[test]
fn connector_trimming() {
    let d = OrderedSet::build(&vec![num(1)]);
    let c = OrderedSet::build(&vec![num(1)]);
    let (_, dmap) = layout_set(&d, &frac(3, 2), &frac(1, 4));
    let (_, cmap) = layout_set(&c, &frac(9, 2), &frac(1, 4));
    let pairs = vec![(num(1), num(1))];
    let conn = layout_connectors(&pairs, &dmap, &cmap);
    assert_eq!(conn.len(), 2);
    assert!(matches!(conn[0], Drawable::ArrowheadMarker));
    let dpos = dmap.lookup(&num(1)).unwrap();
    let cpos = cmap.lookup(&num(1)).unwrap();
    // A singleton at anchor y = 1/4 sits on the center 7/20 + 1/4 = 3/5.
    assert!(dpos.y == frac(3, 5));
    match &conn[1] {
        Drawable::Connector { x1, y1, x2, y2 } => {
            // The domain end is exact.
            assert!(*x1 == dpos.x && *y1 == dpos.y);
            // Equal heights: the trimmed height equals them.
            assert!(dpos.y == cpos.y && *y2 == dpos.y);
            // The trimmed x: 22% of the way from 9/2 toward the midpoint 3,
            // exactly 417/100, strictly between the midpoint and 9/2.
            assert!(*x2 == frac(417, 100));
            let mid = dpos.x.add(&cpos.x).mul(&frac(1, 2));
            assert!(mid.lt(x2) && x2.lt(&cpos.x));
        }
        _ => panic!("expected a connector"),
    }
}

#[test]
fn end_to_end_diagram() {
    let rel = sample_relation();
    let drawables = relation_diagram::layout::build_diagram(
        &rel,
        &frac(3, 2),
        &frac(1, 4),
        &frac(9, 2),
        &frac(1, 4),
    );
    // 2 container ellipses + 2 * 6 point/label pairs + 1 arrowhead
    // definition + 10 connector lines, one per related pair.
    assert_eq!(drawables.len(), 37);
    let mut ellipses = 0;
    let mut points = 0;
    let mut labels = 0;
    let mut markers = 0;
    let mut connectors = 0;
    for d in drawables.iter() {
        match d {
            Drawable::ContainerEllipse { .. } => ellipses += 1,
            Drawable::PointMarker { .. } => points += 1,
            Drawable::LabelText { .. } => labels += 1,
            Drawable::ArrowheadMarker => markers += 1,
            Drawable::Connector { .. } => connectors += 1,
        }
    }
    assert_eq!(ellipses, 2);
    assert_eq!(points, 12);
    assert_eq!(labels, 12);
    assert_eq!(markers, 1);
    assert_eq!(connectors, 10);
    // Draw order: containers and points first, the marker, then connectors
    // on top.
    assert!(matches!(drawables[0], Drawable::ContainerEllipse { .. }));
    assert!(matches!(drawables[13], Drawable::ContainerEllipse { .. }));
    assert!(matches!(drawables[26], Drawable::ArrowheadMarker));
    for k in 27..37 {
        assert!(matches!(drawables[k], Drawable::Connector { .. }));
    }
    // The label texts of the domain, in ascending order.
    let expected = ["-3", "-2", "-1", "1", "2", "3"];
    let mut seen = Vec::new();
    for d in drawables[0..13].iter() {
        if let Drawable::LabelText { text, .. } = d {
            seen.push(text.clone());
        }
    }
    assert_eq!(seen, expected);
}

#[test]
fn lookup_miss_is_reported() {
    let map = CoordinateMap { entries: Vec::new() };
    assert!(map.lookup(&num(1)).is_none());
}
