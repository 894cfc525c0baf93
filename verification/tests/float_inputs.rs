//! The unverified shell converts floating-point input literals to exact
//! rationals with num's nearest-rational conversion. These tests pin the
//! values that conversion hands the library for the inputs the diagram
//! uses.

use num::rational::Rational64;
use num::FromPrimitive;
use relation_diagram::ordered_set::OrderedSet;
use relation_diagram::rational::ExactNumber;

fn from_float(f: f64) -> ExactNumber {
    let r = Rational64::from_f64(f).expect("finite input");
    ExactNumber::new(*r.numer(), *r.denom())
}

#[test]
fn float_literals_convert_exactly() {
    assert!(from_float(-3.0) == ExactNumber::from_int(-3));
    assert!(from_float(0.5) == ExactNumber::new(1, 2));
    assert!(from_float(1.5) == ExactNumber::new(3, 2));
    assert!(from_float(0.25) == ExactNumber::new(1, 4));
    assert!(from_float(0.7) == ExactNumber::new(7, 10));
    assert!(from_float(0.00001) == ExactNumber::new(1, 100000));
}

#[test]
fn set_from_float_literals() {
    let literals = [-3.0, -2.0, -1.0, 1.0, 2.0, 3.0];
    let values: Vec<ExactNumber> = literals.iter().map(|f| from_float(*f)).collect();
    let s = OrderedSet::build(&values);
    assert_eq!(s.len(), 6);
    for (i, expected) in [-3i64, -2, -1, 1, 2, 3].iter().enumerate() {
        assert!(s.index(i) == ExactNumber::from_int(*expected));
    }
}
