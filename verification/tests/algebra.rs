use circom2_compiler::bigint::U256;
use circom2_compiler::constraint::make_constraint;
use circom2_compiler::field::Field;
use circom2_compiler::lc::LinearCombination;
use circom2_compiler::lc::Term;
use circom2_compiler::value::AlgebraError;
use circom2_compiler::value::Value;

fn u(x: u64) -> U256 {
    U256::from_u64(x)
}

fn lc(terms: Vec<(u64, u64)>, constant: u64) -> LinearCombination {
    LinearCombination {
        terms: terms.into_iter().map(|(signal, c)| Term { signal, coeff: u(c) }).collect(),
        constant: u(constant),
    }
}

fn shape(l: &LinearCombination) -> (Vec<(u64, U256)>, U256) {
    (l.terms.iter().map(|t| (t.signal, t.coeff)).collect(), l.constant)
}

fn f7() -> Field {
    Field::new(u(7)).unwrap()
}

#[test]
fn sums_of_combinations_merge_by_signal_and_drop_zeros() {
    let f = f7();
    let a = lc(vec![(0, 2), (2, 3)], 1);
    let b = lc(vec![(1, 5), (2, 4)], 4);
    let sum = a.add(&b, &f);
    assert_eq!(shape(&sum), (vec![(0, u(2)), (1, u(5))], u(5)));
    assert!(sum.is_wf(&f));
    let twice = a.add(&a, &f);
    assert_eq!(shape(&twice), (vec![(0, u(4)), (2, u(6))], u(2)));
    let none = a.sub(&a, &f);
    assert_eq!(shape(&none), (vec![], u(0)));
    assert!(none.is_zero());
    assert!(none.is_constant());
}

#[test]
fn combinations_are_scaled_negated_and_combined() {
    let f = f7();
    let a = lc(vec![(0, 2), (3, 3)], 1);
    assert_eq!(shape(&a.scale(&u(3), &f)), (vec![(0, u(6)), (3, u(2))], u(3)));
    assert_eq!(shape(&a.scale(&u(0), &f)), (vec![], u(0)));
    assert_eq!(shape(&a.neg(&f)), (vec![(0, u(5)), (3, u(4))], u(6)));
    let b = lc(vec![(0, 1), (1, 1)], 0);
    assert_eq!(shape(&a.sub(&b, &f)), (vec![(0, u(1)), (1, u(6)), (3, u(3))], u(1)));
    assert_eq!(shape(&a.combine(&u(2), &b, &f)), (vec![(0, u(5)), (1, u(1)), (3, u(6))], u(2)));
    let ring = Field::new(u(6)).unwrap();
    let c = lc(vec![(0, 2), (1, 1)], 3);
    assert_eq!(shape(&c.scale(&u(3), &ring)), (vec![(1, u(3))], u(3)));
}

#[test]
fn canonical_form_is_checked() {
    let f = f7();
    assert!(lc(vec![(0, 1), (1, 6)], 0).is_wf(&f));
    assert!(lc(vec![], 6).is_wf(&f));
    assert!(!lc(vec![(1, 1), (0, 1)], 0).is_wf(&f));
    assert!(!lc(vec![(1, 1), (1, 2)], 0).is_wf(&f));
    assert!(!lc(vec![(0, 0)], 0).is_wf(&f));
    assert!(!lc(vec![(0, 7)], 0).is_wf(&f));
    assert!(!lc(vec![], 7).is_wf(&f));
    let a = lc(vec![(0, 1), (4, 2)], 0);
    assert!(a.is_within(5));
    assert!(!a.is_within(4));
    assert!(a.names(4, &f));
    assert!(!a.names(3, &f));
    assert_eq!(shape(&LinearCombination::from_signal(3, &f)), (vec![(3, u(1))], u(0)));
    assert_eq!(shape(&LinearCombination::from_constant(u(5))), (vec![], u(5)));
}

#[test]
fn values_keep_the_least_degree() {
    let f = f7();
    let x = Value::Signal(0);
    let y = Value::Signal(1);
    assert_eq!(x.degree(), 1);
    assert_eq!(Value::FieldConst(u(3)).degree(), 0);
    let sum = x.add(&y, &f);
    assert!(matches!(&sum, Value::Linear(l) if shape(l) == (vec![(0, u(1)), (1, u(1))], u(0))));
    assert_eq!(sum.degree(), 1);
    let back = sum.sub(&y, &f);
    assert!(matches!(back, Value::Signal(0)));
    let zero = x.sub(&x, &f);
    assert!(matches!(zero, Value::FieldConst(c) if c == u(0)));
    let shifted = x.add(&Value::FieldConst(u(2)), &f);
    assert!(matches!(&shifted, Value::Linear(l) if shape(l) == (vec![(0, u(1))], u(2))));
    let minus = x.neg(&f);
    assert!(matches!(&minus, Value::Linear(l) if shape(l) == (vec![(0, u(6))], u(0))));
    assert!(sum.is_wf(&f));
    assert!(!Value::FieldConst(u(7)).is_wf(&f));
    assert!(!Value::Linear(lc(vec![], 1)).is_wf(&f));
    assert!(!Value::Linear(lc(vec![(0, 1)], 0)).is_wf(&f));
}

#[test]
fn products_are_quadratic_at_most() {
    let f = f7();
    let x = Value::Signal(0);
    let y = Value::Signal(1);
    let xy = x.mul(&y, &f).unwrap();
    assert_eq!(xy.degree(), 2);
    match &xy {
        Value::Quadratic(q) => {
            assert_eq!(q.products.len(), 1);
            assert_eq!(shape(&q.products[0].0), (vec![(0, u(1))], u(0)));
            assert_eq!(shape(&q.products[0].1), (vec![(1, u(1))], u(0)));
            assert!(q.rest.is_zero());
        }
        _ => panic!("a product of signals is quadratic"),
    }
    assert_eq!(xy.mul(&x, &f).err(), Some(AlgebraError::NonQuadratic));
    assert_eq!(x.mul(&xy, &f).err(), Some(AlgebraError::NonQuadratic));
    assert_eq!(xy.mul(&xy, &f).err(), Some(AlgebraError::NonQuadratic));
    let scaled = xy.mul(&Value::FieldConst(u(3)), &f).unwrap();
    match &scaled {
        Value::Quadratic(q) => {
            assert_eq!(shape(&q.products[0].0), (vec![(0, u(3))], u(0)));
            assert_eq!(shape(&q.products[0].1), (vec![(1, u(1))], u(0)));
        }
        _ => panic!("a scaled product is quadratic"),
    }
    let gone = xy.mul(&Value::FieldConst(u(0)), &f).unwrap();
    assert!(matches!(gone, Value::FieldConst(c) if c == u(0)));
    let six = Value::FieldConst(u(2)).mul(&Value::FieldConst(u(3)), &f).unwrap();
    assert!(matches!(six, Value::FieldConst(c) if c == u(6)));
    let both = xy.add(&xy, &f);
    assert!(matches!(&both, Value::Quadratic(q) if q.products.len() == 2));
    let with_rest = xy.add(&x, &f);
    assert!(matches!(&with_rest, Value::Quadratic(q) if q.products.len() == 1 && shape(&q.rest) == (vec![(0, u(1))], u(0))));
}

#[test]
fn quotients_need_a_constant_with_an_inverse() {
    let f = f7();
    let x = Value::Signal(0);
    let third = x.div(&Value::FieldConst(u(3)), &f).unwrap();
    assert!(matches!(&third, Value::Linear(l) if shape(l) == (vec![(0, u(5))], u(0))));
    let q = Value::FieldConst(u(6)).div(&Value::FieldConst(u(3)), &f).unwrap();
    assert!(matches!(q, Value::FieldConst(c) if c == u(2)));
    assert_eq!(x.div(&Value::FieldConst(u(0)), &f).err(), Some(AlgebraError::DivisionByZero));
    assert_eq!(x.div(&x, &f).err(), Some(AlgebraError::NonConstantDivisor));
}

#[test]
fn constraints_take_the_product_of_the_left_side() {
    let f = f7();
    let a = Value::Signal(0);
    let b = Value::Signal(1);
    let c = Value::Signal(2);
    let ab = a.mul(&b, &f).unwrap();
    let q = make_constraint(&ab, &c, &f).unwrap();
    assert_eq!(shape(&q.a), (vec![(0, u(1))], u(0)));
    assert_eq!(shape(&q.b), (vec![(1, u(1))], u(0)));
    assert_eq!(shape(&q.c), (vec![(2, u(6))], u(0)));
    let lin = make_constraint(&a, &Value::FieldConst(u(3)), &f).unwrap();
    assert!(lin.a.is_zero() && lin.b.is_zero());
    assert_eq!(shape(&lin.c), (vec![(0, u(1))], u(4)));
    let same = make_constraint(&a, &a, &f).unwrap();
    assert!(same.a.is_zero() && same.b.is_zero() && same.c.is_zero());
    assert_eq!(make_constraint(&c, &ab, &f).err(), Some(AlgebraError::NonQuadraticConstraint));
    let two = ab.add(&b.mul(&c, &f).unwrap(), &f);
    assert_eq!(make_constraint(&two, &c, &f).err(), Some(AlgebraError::NonQuadraticConstraint));
    assert_eq!(make_constraint(&ab, &ab, &f).err(), Some(AlgebraError::NonQuadraticConstraint));
}
