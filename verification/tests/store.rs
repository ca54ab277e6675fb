use circom2_compiler::ast::SignalKind;
use circom2_compiler::bigint::U256;
use circom2_compiler::codec::decode;
use circom2_compiler::codec::digest;
use circom2_compiler::codec::encode;
use circom2_compiler::constraint::QuadraticForm;
use circom2_compiler::error::Error;
use circom2_compiler::error::ErrorKind;
use circom2_compiler::field::Field;
use circom2_compiler::lc::LinearCombination;
use circom2_compiler::lc::Term;
use circom2_compiler::namemap::NameMap;
use circom2_compiler::store::component_path_of;
use circom2_compiler::store::Constraint;
use circom2_compiler::store::Optimizer;
use circom2_compiler::store::Store;

fn u(x: u64) -> U256 {
    U256::from_u64(x)
}

fn s(text: &str) -> String {
    text.to_string()
}

fn lc(terms: Vec<(u64, u64)>, constant: u64) -> LinearCombination {
    LinearCombination {
        terms: terms.into_iter().map(|(signal, c)| Term { signal, coeff: u(c) }).collect(),
        constant: u(constant),
    }
}

fn linear(terms: Vec<(u64, u64)>, constant: u64) -> QuadraticForm {
    QuadraticForm { a: lc(vec![], 0), b: lc(vec![], 0), c: lc(terms, constant) }
}

fn f7() -> Field {
    Field::new(u(7)).unwrap()
}

fn three_signals(optimizer: Optimizer) -> Store {
    let mut st = Store::new(f7(), optimizer);
    assert_eq!(st.declare_signal(s("main.in"), SignalKind::Input), Ok(0));
    assert_eq!(st.declare_signal(s("main.t"), SignalKind::Internal), Ok(1));
    assert_eq!(st.declare_signal(s("main.sub.out"), SignalKind::Output), Ok(2));
    st
}

#[test]
fn signals_get_dense_ids_in_declaration_order() {
    let mut st = three_signals(Optimizer::Identity);
    assert_eq!(st.next_signal_id(), 3);
    assert_eq!(st.lookup_signal("main.in"), Some(0));
    assert_eq!(st.lookup_signal("main.sub.out"), Some(2));
    assert_eq!(st.lookup_signal("main.none"), None);
    let r = st.declare_signal(s("main.t"), SignalKind::Input);
    assert_eq!(r, Err(Error::DuplicateSignal(s("main.t"))));
    assert_eq!(st.next_signal_id(), 3);
    assert_eq!(st.signals()[1].kind, SignalKind::Internal);
    assert_eq!(st.signals()[2].id, 2);
    assert_eq!(st.signals()[2].component_path, "main.sub");
    assert_eq!(st.signals()[0].component_path, "main");
    assert_eq!(st.optimizer(), Optimizer::Identity);
    assert_eq!(st.field().modulus(), u(7));
    assert_eq!(*st.top_component(), None);
    st.set_top_component(s("Main"));
    assert_eq!(*st.top_component(), Some(s("Main")));
}

#[test]
fn component_path_is_the_name_without_its_last_segment() {
    assert_eq!(component_path_of("main.sub.x"), "main.sub");
    assert_eq!(component_path_of("main.x"), "main");
    assert_eq!(component_path_of("x"), "");
    assert_eq!(component_path_of(""), "");
    assert_eq!(component_path_of("a."), "a");
}

#[test]
fn constraints_are_kept_in_insertion_order() {
    let mut st = three_signals(Optimizer::Identity);
    assert_eq!(st.add_constraint(linear(vec![(0, 1), (1, 6)], 0), s("first")), Ok(()));
    assert_eq!(st.add_constraint(linear(vec![(2, 2)], 1), s("second")), Ok(()));
    let positions: Vec<&str> = st.constraints().iter().map(|c| c.pos.as_str()).collect();
    assert_eq!(positions, vec!["first", "second"]);
    assert_eq!(st.constraints()[1].form.c.terms, vec![Term { signal: 2, coeff: u(2) }]);
}

#[test]
fn constraints_name_declared_signals_only() {
    let mut st = three_signals(Optimizer::Identity);
    let r = st.add_constraint(linear(vec![(3, 1)], 0), s("beyond"));
    assert_eq!(r, Err(Error::InvalidConstraintSignal(s("beyond"))));
    assert_eq!(st.constraints().len(), 0);
}

#[test]
fn eliminating_optimizer_drops_a_constraint_that_determines_an_unused_signal() {
    let mut st = three_signals(Optimizer::Eliminate);
    assert_eq!(st.add_constraint(linear(vec![(0, 1), (1, 2)], 3), s("def")), Ok(()));
    assert_eq!(st.constraints().len(), 0);
    assert!(st.is_eliminated(1));
    assert!(!st.is_eliminated(0));
    assert!(!st.is_eliminated(2));
    assert!(!st.is_eliminated(9));
    let r = st.add_constraint(linear(vec![(1, 1)], 0), s("late"));
    assert_eq!(r, Err(Error::InternalInvariant(s("late"))));
    assert_eq!(*st.eliminated(), vec![false, true, false]);
}

#[test]
fn eliminating_optimizer_keeps_what_it_cannot_solve() {
    let mut st = three_signals(Optimizer::Eliminate);
    assert_eq!(st.add_constraint(linear(vec![(0, 1), (2, 1)], 0), s("io")), Ok(()));
    assert_eq!(st.constraints().len(), 1);
    let product = QuadraticForm { a: lc(vec![(0, 1)], 0), b: lc(vec![(1, 1)], 0), c: lc(vec![(2, 6)], 0) };
    assert_eq!(st.add_constraint(product, s("mul")), Ok(()));
    assert_eq!(st.constraints().len(), 2);
    assert_eq!(st.add_constraint(linear(vec![(1, 1)], 1), s("used")), Ok(()));
    assert_eq!(st.constraints().len(), 3);
    assert!(!st.is_eliminated(1));
    let mut ring = Store::new(Field::new(u(6)).unwrap(), Optimizer::Eliminate);
    ring.declare_signal(s("main.t"), SignalKind::Internal).unwrap();
    assert_eq!(ring.add_constraint(linear(vec![(0, 2)], 1), s("even")), Ok(()));
    assert_eq!(ring.constraints().len(), 1);
    let mut id = three_signals(Optimizer::Identity);
    assert_eq!(id.add_constraint(linear(vec![(1, 2)], 3), s("def")), Ok(()));
    assert_eq!(id.constraints().len(), 1);
}

fn filled() -> Store {
    let mut st = three_signals(Optimizer::Eliminate);
    st.set_top_component(s("Main"));
    let product = QuadraticForm { a: lc(vec![(0, 1)], 0), b: lc(vec![(0, 1)], 1), c: lc(vec![(2, 6)], 0) };
    st.add_constraint(product, s("a.circom:3:5")).unwrap();
    st.add_constraint(linear(vec![(1, 3)], 2), s("a.circom:4:5")).unwrap();
    st
}

fn image(st: &Store) -> String {
    format!(
        "{:?} {:?} {:?} {:?} {:?} {:?}",
        st.field().modulus(),
        st.optimizer(),
        st.top_component(),
        st.signals(),
        st.eliminated(),
        st.constraints()
    )
}

#[test]
fn a_store_is_read_back_from_its_bytes() {
    let st = filled();
    assert!(st.is_eliminated(1));
    let bytes = encode(&st);
    let back = decode(&bytes).unwrap();
    assert_eq!(image(&back), image(&st));
    assert_eq!(back.lookup_signal("main.sub.out"), Some(2));
    assert_eq!(encode(&back), bytes);
}

#[test]
fn an_empty_store_is_written_in_fifty_bytes() {
    let st = Store::new(f7(), Optimizer::Identity);
    let mut expected = vec![0u8; 31];
    expected.push(7);
    expected.extend_from_slice(&[0, 0]);
    expected.extend_from_slice(&[0; 8]);
    expected.extend_from_slice(&[0; 8]);
    assert_eq!(encode(&st), expected);
    let back = decode(&expected).unwrap();
    assert_eq!(back.signals().len(), 0);
}

#[test]
fn a_signal_is_written_as_name_kind_and_flag() {
    let mut st = Store::new(f7(), Optimizer::Eliminate);
    st.declare_signal(s("m.é"), SignalKind::Output).unwrap();
    let bytes = encode(&st);
    let mut expected = vec![0u8; 31];
    expected.push(7);
    expected.extend_from_slice(&[1, 0]);
    expected.extend_from_slice(&[0, 0, 0, 0, 0, 0, 0, 1]);
    expected.extend_from_slice(&[0, 0, 0, 0, 0, 0, 0, 4]);
    expected.extend_from_slice("m.é".as_bytes());
    expected.extend_from_slice(&[1, 0]);
    expected.extend_from_slice(&[0; 8]);
    assert_eq!(bytes, expected);
}

#[test]
fn text_is_read_back_as_utf8() {
    let mut st = Store::new(f7(), Optimizer::Eliminate);
    st.declare_signal(s("m.é"), SignalKind::Output).unwrap();
    st.set_top_component(s("Größe"));
    let bytes = encode(&st);
    let back = decode(&bytes).unwrap();
    assert_eq!(back.signals()[0].full_name, "m.é");
    assert_eq!(back.signals()[0].component_path, "m");
    assert_eq!(*back.top_component(), Some(s("Größe")));
    let mut broken = bytes.clone();
    let n = broken.len();
    broken[n - 12] = 0xff;
    assert!(matches!(decode(&broken), Err(ref e) if e.kind() == ErrorKind::StorageCorruption));
}

#[test]
fn bytes_that_write_no_valid_store_are_rejected() {
    let bytes = encode(&filled());
    let corrupt = |b: &[u8]| matches!(decode(b), Err(ref e) if e.kind() == ErrorKind::StorageCorruption);
    assert!(corrupt(&[]));
    assert!(corrupt(&bytes[..bytes.len() - 1]));
    let mut longer = bytes.clone();
    longer.push(0);
    assert!(corrupt(&longer));
    let mut flag = bytes.clone();
    flag[32] = 2;
    assert!(corrupt(&flag));
    let mut modulus = bytes.clone();
    modulus[31] = 1;
    assert!(corrupt(&modulus));
    let mut twice = Store::new(f7(), Optimizer::Identity);
    twice.declare_signal(s("a"), SignalKind::Input).unwrap();
    twice.declare_signal(s("b"), SignalKind::Input).unwrap();
    let mut same = encode(&twice);
    let n = same.len();
    same[n - 11] = b'a';
    assert!(corrupt(&same));
    let mut st = Store::new(f7(), Optimizer::Identity);
    st.declare_signal(s("a"), SignalKind::Input).unwrap();
    st.add_constraint(linear(vec![(0, 1)], 0), s("p")).unwrap();
    let mut zero = encode(&st);
    let n = zero.len();
    zero[n - 42] = 0;
    assert!(corrupt(&zero));
}

#[test]
fn digest_is_the_hash_of_the_written_store() {
    let st = filled();
    let d = digest(&st);
    assert_eq!(d.len(), 32);
    let expected = blake2_rfc::blake2b::blake2b(32, &[], &encode(&st));
    assert_eq!(d, expected.as_bytes());
    let other = digest(&Store::new(f7(), Optimizer::Identity));
    assert_ne!(d, other);
    assert_eq!(digest(&filled()), d);
}

#[test]
fn errors_are_equal_by_kind_and_detail() {
    assert_eq!(Error::NotFound(s("x")), Error::NotFound(s("x")));
    assert_ne!(Error::NotFound(s("x")), Error::NotFound(s("y")));
    assert_ne!(Error::NotFound(s("x")), Error::BadAst(s("x")));
    let e = Error::new(ErrorKind::StorageIo, s("disk"));
    assert_eq!(e, Error::StorageIo(s("disk")));
    assert_eq!(e.kind(), ErrorKind::StorageIo);
    assert_eq!(e.detail(), "disk");
}

#[test]
fn name_map_keeps_insertion_order_and_replaces_in_place() {
    let mut m: NameMap<u64> = NameMap::new();
    assert_eq!(m.len(), 0);
    assert_eq!(m.insert(s("b"), 1), None);
    assert_eq!(m.insert(s("a"), 2), None);
    assert_eq!(m.insert(s("b"), 3), Some(1));
    assert_eq!(m.len(), 2);
    assert_eq!(m.key_at(0), "b");
    assert_eq!(*m.value_at(0), 3);
    assert_eq!(m.key_at(1), "a");
    assert_eq!(m.get(&s("a")), Some(&2));
    assert_eq!(m.get(&s("c")), None);
    assert!(m.contains_key(&s("b")));
    assert_eq!(m.position(&s("a")), Some(1));
    assert_eq!(m.position(&s("z")), None);
    match m.get_mut(&s("a")) {
        Some(v) => *v = 9,
        None => panic!("a is a key"),
    }
    assert_eq!(m.get(&s("a")), Some(&9));
    assert!(m.get_mut(&s("z")).is_none());
}

#[test]
fn stored_constraint_keeps_its_form() {
    let c = Constraint { form: linear(vec![(0, 1)], 0), pos: s("p") };
    assert_eq!(c.form.clone().c.terms, c.form.c.terms);
}

fn value_of(field: &Field, l: &LinearCombination, w: &[U256]) -> U256 {
    let mut acc = l.constant;
    for t in &l.terms {
        acc = field.add(&acc, &field.mul(&t.coeff, &w[t.signal as usize]));
    }
    acc
}

fn holds(field: &Field, f: &QuadraticForm, w: &[U256]) -> bool {
    let product = field.mul(&value_of(field, &f.a, w), &value_of(field, &f.b, w));
    field.add(&product, &value_of(field, &f.c, w)).is_zero()
}

#[test]
fn elimination_loses_no_solution_but_for_the_eliminated_signal() {
    let field = f7();
    let square = || QuadraticForm { a: lc(vec![(0, 1)], 0), b: lc(vec![(0, 1)], 0), c: lc(vec![(2, 6)], 0) };
    let definition = || linear(vec![(0, 1), (1, 2)], 3);
    let mut kept = three_signals(Optimizer::Identity);
    kept.add_constraint(square(), s("sq")).unwrap();
    kept.add_constraint(definition(), s("def")).unwrap();
    let mut reduced = three_signals(Optimizer::Eliminate);
    reduced.add_constraint(square(), s("sq")).unwrap();
    reduced.add_constraint(definition(), s("def")).unwrap();
    assert_eq!(kept.constraints().len(), 2);
    assert_eq!(reduced.constraints().len(), 1);
    assert!(reduced.is_eliminated(1));
    let full = vec![u(3), u(4), u(2)];
    assert!(kept.constraints().iter().all(|c| holds(&field, &c.form, &full)));
    assert!(reduced.constraints().iter().all(|c| holds(&field, &c.form, &full)));
    let other = vec![u(3), u(0), u(2)];
    assert!(reduced.constraints().iter().all(|c| holds(&field, &c.form, &other)));
    assert!(!kept.constraints().iter().all(|c| holds(&field, &c.form, &other)));
    let k = field.inv(&u(2)).unwrap();
    let rest = field.add(&u(3), &u(3));
    let solved = field.mul(&field.neg(&rest), &k);
    assert_eq!(solved, u(4));
    let mended = vec![u(3), solved, u(2)];
    assert!(kept.constraints().iter().all(|c| holds(&field, &c.form, &mended)));
}

#[test]
fn stored_constraints_are_canonical_and_name_declared_signals() {
    let field = f7();
    let mut st = three_signals(Optimizer::Identity);
    st.add_constraint(linear(vec![(0, 1), (2, 6)], 0), s("a")).unwrap();
    let product = QuadraticForm { a: lc(vec![(0, 1)], 0), b: lc(vec![(1, 1)], 0), c: lc(vec![(2, 6)], 0) };
    st.add_constraint(product, s("b")).unwrap();
    let n = st.next_signal_id();
    for c in st.constraints() {
        assert!(c.form.a.is_wf(&field) && c.form.b.is_wf(&field) && c.form.c.is_wf(&field));
        assert_eq!(c.form.a.is_zero(), c.form.b.is_zero());
        assert!(c.form.a.is_within(n) && c.form.b.is_within(n) && c.form.c.is_within(n));
    }
}
