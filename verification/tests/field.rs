use circom2_compiler::bigint::U256;
use circom2_compiler::field::Field;
use circom2_compiler::machine::make_child_path;
use circom2_compiler::machine::make_signal_name;
use circom2_compiler::machine::modulus_from_text;
use circom2_compiler::machine::parse_literal;
use circom2_compiler::machine::u64_to_decimal;

fn u(x: u64) -> U256 {
    U256::from_u64(x)
}

fn small(p: u64) -> Field {
    Field::new(u(p)).unwrap()
}

fn p_minus_one() -> U256 {
    U256 { l0: 0x43e1f593f0000000, l1: 0x2833e84879b97091, l2: 0xb85045b68181585d, l3: 0x30644e72e131a029 }
}

#[test]
fn wide_integers_add_and_subtract_with_carry() {
    let max = U256 { l0: u64::MAX, l1: u64::MAX, l2: u64::MAX, l3: u64::MAX };
    assert_eq!(max.overflowing_add(&U256::one()), (U256::zero(), true));
    assert_eq!(U256::zero().overflowing_sub(&U256::one()), (max, true));
    let carry = U256 { l0: u64::MAX, l1: 0, l2: 0, l3: 0 };
    assert_eq!(carry.overflowing_add(&U256::one()), (U256 { l0: 0, l1: 1, l2: 0, l3: 0 }, false));
    assert_eq!(u(5).overflowing_sub(&u(3)), (u(2), false));
    assert!(u(3).less_than(&u(5)));
    assert!(!u(5).less_than(&u(5)));
    assert!(u(7).less_than(&U256 { l0: 0, l1: 1, l2: 0, l3: 0 }));
    assert!(u(4).equals(&u(4)));
    assert!(U256::zero().is_zero());
    assert_eq!(u(9).to_u64(), Some(9));
    assert_eq!(U256 { l0: 0, l1: 1, l2: 0, l3: 0 }.to_u64(), None);
}

#[test]
fn wide_integers_are_read_from_decimal_digits() {
    let text = "21888242871839275222246405745257275088548364400416034343698204186575808495617";
    assert_eq!(U256::from_decimal(text), Some(Field::bn254().modulus()));
    assert_eq!(U256::from_decimal("0"), Some(U256::zero()));
    assert_eq!(U256::from_decimal("18446744073709551616"), Some(U256 { l0: 0, l1: 1, l2: 0, l3: 0 }));
    assert_eq!(U256::from_decimal(""), None);
    assert_eq!(U256::from_decimal("12a"), None);
    let max = "115792089237316195423570985008687907853269984665640564039457584007913129639935";
    assert_eq!(
        U256::from_decimal(max),
        Some(U256 { l0: u64::MAX, l1: u64::MAX, l2: u64::MAX, l3: u64::MAX })
    );
    let over = "115792089237316195423570985008687907853269984665640564039457584007913129639936";
    assert_eq!(U256::from_decimal(over), None);
}

#[test]
fn a_field_needs_a_modulus_of_two_at_least() {
    assert!(Field::new(u(0)).is_none());
    assert!(Field::new(u(1)).is_none());
    assert_eq!(Field::new(u(2)).unwrap().modulus(), u(2));
    assert!(small(7).is_element(&u(6)));
    assert!(!small(7).is_element(&u(7)));
}

#[test]
fn field_sums_wrap_at_the_modulus() {
    let f = Field::bn254();
    assert_eq!(f.add(&u(2), &u(3)), u(5));
    assert_eq!(f.add(&p_minus_one(), &U256::one()), U256::zero());
    assert_eq!(f.add(&p_minus_one(), &p_minus_one()), f.sub(&p_minus_one(), &U256::one()));
    assert_eq!(f.sub(&U256::zero(), &U256::one()), p_minus_one());
    assert_eq!(f.sub(&u(5), &u(3)), u(2));
    assert_eq!(f.neg(&U256::one()), p_minus_one());
    assert_eq!(f.neg(&U256::zero()), U256::zero());
    let g = small(7);
    assert_eq!(g.add(&u(5), &u(4)), u(2));
    assert_eq!(g.sub(&u(2), &u(5)), u(4));
    assert_eq!(g.neg(&u(3)), u(4));
    assert_eq!(g.from_u64(10), u(3));
    assert_eq!(f.from_u64(10), u(10));
}

#[test]
fn field_products_and_powers_are_reduced() {
    let f = Field::bn254();
    assert_eq!(f.mul(&u(3), &u(4)), u(12));
    assert_eq!(f.mul(&p_minus_one(), &p_minus_one()), U256::one());
    assert_eq!(f.mul(&p_minus_one(), &u(2)), f.sub(&p_minus_one(), &U256::one()));
    assert_eq!(f.mul(&u(0), &p_minus_one()), U256::zero());
    assert_eq!(f.pow(&u(2), &u(10)), u(1024));
    assert_eq!(f.pow(&u(5), &U256::zero()), U256::one());
    assert_eq!(f.pow(&p_minus_one(), &u(2)), U256::one());
    let g = small(7);
    assert_eq!(g.mul(&u(3), &u(5)), u(1));
    assert_eq!(g.pow(&u(3), &u(6)), u(1));
    assert_eq!(g.pow(&u(3), &u(2)), u(2));
}

#[test]
fn inverses_are_checked_by_multiplication() {
    let f = Field::bn254();
    let half = f.inv(&u(2)).unwrap();
    assert_eq!(f.mul(&half, &u(2)), U256::one());
    assert_eq!(f.inv(&U256::zero()), None);
    assert_eq!(f.div(&u(6), &u(3)), Some(u(2)));
    assert_eq!(f.div(&u(6), &U256::zero()), None);
    let g = small(7);
    assert_eq!(g.inv(&u(3)), Some(u(5)));
    assert_eq!(g.div(&u(1), &u(3)), Some(u(5)));
    let ring = small(8);
    assert_eq!(ring.inv(&u(2)), None);
    assert_eq!(ring.inv(&u(3)), None);
}

#[test]
fn field_elements_are_read_from_text_and_bytes() {
    let f = Field::bn254();
    assert_eq!(f.from_decimal("10"), Some(u(10)));
    assert_eq!(f.from_decimal("007"), Some(u(7)));
    let text = "21888242871839275222246405745257275088548364400416034343698204186575808495618";
    assert_eq!(f.from_decimal(text), Some(U256::one()));
    assert_eq!(f.from_decimal(""), None);
    assert_eq!(f.from_decimal("-1"), None);
    assert_eq!(f.from_hex("ff"), Some(u(255)));
    assert_eq!(f.from_hex("0F"), Some(u(15)));
    assert_eq!(f.from_hex("0100"), Some(u(256)));
    assert_eq!(f.from_hex("f"), None);
    assert_eq!(f.from_hex("zz"), None);
    assert_eq!(f.from_hex(""), Some(U256::zero()));
    assert_eq!(f.from_bytes_be(&[1, 0]), u(256));
    assert_eq!(f.from_bytes_be(&[]), U256::zero());
    assert_eq!(small(7).from_bytes_be(&[1, 0]), u(4));
    assert_eq!(small(7).from_hex("0a"), Some(u(3)));
    assert_eq!(small(7).from_decimal("15"), Some(u(1)));
}

#[test]
fn literals_take_a_hexadecimal_prefix() {
    let f = Field::bn254();
    assert_eq!(parse_literal("42", &f), Some(u(42)));
    assert_eq!(parse_literal("0x2a", &f), Some(u(42)));
    assert_eq!(parse_literal("0xabc", &f), Some(u(0xabc)));
    assert_eq!(parse_literal("0x", &f), None);
    assert_eq!(parse_literal("0xg", &f), None);
    assert_eq!(parse_literal("x", &f), None);
    assert_eq!(parse_literal("", &f), None);
    assert_eq!(parse_literal("0", &f), Some(U256::zero()));
}

#[test]
fn names_are_dotted_paths_with_index_suffixes() {
    assert_eq!(u64_to_decimal(0), "0");
    assert_eq!(u64_to_decimal(9), "9");
    assert_eq!(u64_to_decimal(10), "10");
    assert_eq!(u64_to_decimal(1203), "1203");
    assert_eq!(u64_to_decimal(u64::MAX), "18446744073709551615");
    assert_eq!(make_child_path("main", "sub"), "main.sub");
    assert_eq!(make_signal_name("main", "s", &vec![]), "main.s");
    assert_eq!(make_signal_name("main", "s", &vec![0, 12]), "main.s_0_12");
    assert_eq!(make_signal_name("main.sub", "out", &vec![7]), "main.sub.out_7");
}

#[test]
fn wide_integers_are_read_from_bytes_and_hexadecimal_digits() {
    assert_eq!(U256::from_bytes_be(&[]), Some(U256::zero()));
    assert_eq!(U256::from_bytes_be(&[1, 0]), Some(u(256)));
    assert_eq!(U256::from_bytes_be(&[0xff; 32]), Some(U256 { l0: u64::MAX, l1: u64::MAX, l2: u64::MAX, l3: u64::MAX }));
    let mut long = vec![0u8; 40];
    long[39] = 5;
    assert_eq!(U256::from_bytes_be(&long), Some(u(5)));
    let mut over = vec![0u8; 33];
    over[0] = 1;
    assert_eq!(U256::from_bytes_be(&over), None);
    assert_eq!(U256::from_hex("ff"), Some(u(255)));
    assert_eq!(U256::from_hex("0100"), Some(u(256)));
    assert_eq!(U256::from_hex("abc"), None);
    assert_eq!(U256::from_hex("gg"), None);
    assert_eq!(U256::from_hex("0000000000000001").map(|x| x.l0), Some(1));
}

#[test]
fn a_modulus_is_written_in_decimal_or_hexadecimal() {
    let bn = "21888242871839275222246405745257275088548364400416034343698204186575808495617";
    assert_eq!(modulus_from_text(bn).map(|f| f.modulus()), Some(Field::bn254().modulus()));
    let hex = "0x30644e72e131a029b85045b68181585d2833e84879b9709143e1f593f0000001";
    assert_eq!(modulus_from_text(hex).map(|f| f.modulus()), Some(Field::bn254().modulus()));
    assert_eq!(modulus_from_text("7").map(|f| f.modulus()), Some(u(7)));
    assert_eq!(modulus_from_text("0x7").map(|f| f.modulus()), Some(u(7)));
    assert_eq!(modulus_from_text("0x0b").map(|f| f.modulus()), Some(u(11)));
    assert!(modulus_from_text("1").is_none());
    assert!(modulus_from_text("0").is_none());
    assert!(modulus_from_text("0x1").is_none());
    assert!(modulus_from_text("0x").is_none());
    assert!(modulus_from_text("").is_none());
    assert!(modulus_from_text("12a").is_none());
    assert!(modulus_from_text("0xzz").is_none());
    let over = "115792089237316195423570985008687907853269984665640564039457584007913129639936";
    assert!(modulus_from_text(over).is_none());
    let wide = "0x10000000000000000000000000000000000000000000000000000000000000000";
    assert!(modulus_from_text(wide).is_none());
}
