//! Arithmetic modulo the prime that the circuit is stated over.

use vstd::prelude::*;
use vstd::arithmetic::div_mod::*;
use vstd::arithmetic::mul::*;
use vstd::arithmetic::power::*;
use vstd::arithmetic::power2::*;
use crate::bigint::bound;
use crate::bigint::U256;

verus! {

/// A remainder of a value below twice the modulus is the value itself or the
/// value less the modulus.
pub proof fn lemma_mod_range(x: int, p: int)
    requires
        p > 0,
        0 <= x < 2 * p,
    ensures
        x % p == (if x < p { x } else { x - p }),
{
    if x < p {
        lemma_small_mod(x as nat, p as nat);
    } else {
        lemma_mod_sub_multiples_vanish(x, p);
        lemma_small_mod((x - p) as nat, p as nat);
    }
}

/// `2^256` as a power of two.
pub proof fn lemma_bound_is_pow2()
    ensures
        pow2(256) == bound(),
{
    lemma2_to64();
    lemma_pow2_adds(64, 64);
    lemma_pow2_adds(128, 128);
    assert(pow2(128) == 0x1_0000_0000_0000_0000_0000_0000_0000_0000int);
    assert(0x1_0000_0000_0000_0000_0000_0000_0000_0000int * 0x1_0000_0000_0000_0000_0000_0000_0000_0000int
        == bound());
}

/// `x^(p-2) mod p`, which for a prime `p` and `x` not a multiple of it is the
/// multiplicative inverse of `x`.
pub open spec fn fermat_inverse(x: nat, p: nat) -> nat {
    (pow(x as int, (p - 2) as nat) % (p as int)) as nat
}

/// A field of integers modulo `p()`, with `p() >= 2`.
///
/// The elements of the field are the `U256` values below `p()`.
#[derive(Clone, Copy, Debug)]
pub struct Field {
    modulus: U256,
}

impl Field {
    /// What every field satisfies.
    #[verifier::type_invariant]
    pub closed spec fn valid(self) -> bool {
        self.modulus@ >= 2
    }

    /// The modulus.
    pub closed spec fn p(&self) -> nat {
        self.modulus@
    }

    /// Whether `x` is an element of the field.
    pub open spec fn contains(&self, x: U256) -> bool {
        x@ < self.p()
    }

    /// The modulus of a valid field is at least two.
    pub proof fn lemma_valid(&self)
        requires
            self.valid(),
        ensures
            2 <= self.p() < bound(),
    {
    }

    /// The field of integers modulo `modulus`, where that is at least two.
    pub fn new(modulus: U256) -> (r: Option<Field>)
        ensures
            r is Some <==> modulus@ >= 2,
            r is Some ==> r.unwrap().p() == modulus@,
    {
        if modulus.l1 == 0 && modulus.l2 == 0 && modulus.l3 == 0 && modulus.l0 < 2 {
            None
        } else {
            Some(Field { modulus })
        }
    }

    /// The scalar field of the curve BN254.
    pub fn bn254() -> (r: Field)
        ensures
            r.p()
                == 21888242871839275222246405745257275088548364400416034343698204186575808495617nat,
    {
        Field {
            modulus: U256 {
                l0: 0x43e1f593f0000001,
                l1: 0x2833e84879b97091,
                l2: 0xb85045b68181585d,
                l3: 0x30644e72e131a029,
            },
        }
    }

    /// The modulus.
    pub fn modulus(&self) -> (r: U256)
        ensures
            r@ == self.p(),
            2 <= self.p() < bound(),
    {
        proof {
            use_type_invariant(self);
        }
        self.modulus
    }

    /// Whether `x` is an element of the field.
    pub fn is_element(&self, x: &U256) -> (r: bool)
        ensures
            r == self.contains(*x),
    {
        x.less_than(&self.modulus)
    }

    /// The element that `x` stands for.
    pub fn from_u64(&self, x: u64) -> (r: U256)
        ensures
            r@ == x as nat % self.p(),
            self.contains(r),
    {
        proof {
            use_type_invariant(self);
        }
        let m = &self.modulus;
        if m.l1 == 0 && m.l2 == 0 && m.l3 == 0 {
            U256::from_u64(x % m.l0)
        } else {
            proof {
                lemma_small_mod(x as nat, self.p());
            }
            U256::from_u64(x)
        }
    }

    /// The sum of two elements.
    pub fn add(&self, a: &U256, b: &U256) -> (r: U256)
        requires
            self.contains(*a),
            self.contains(*b),
        ensures
            r@ == (a@ + b@) % self.p(),
            self.contains(r),
    {
        proof {
            use_type_invariant(self);
            lemma_mod_range((a@ + b@) as int, self.p() as int);
        }
        let (s, carry) = a.overflowing_add(b);
        if carry || !s.less_than(&self.modulus) {
            let (d, _) = s.overflowing_sub(&self.modulus);
            d
        } else {
            s
        }
    }

    /// The difference of two elements.
    pub fn sub(&self, a: &U256, b: &U256) -> (r: U256)
        requires
            self.contains(*a),
            self.contains(*b),
        ensures
            r@ == (a@ - b@) % (self.p() as int),
            self.contains(r),
    {
        proof {
            use_type_invariant(self);
        }
        let (d, borrow) = a.overflowing_sub(b);
        if borrow {
            let (e, _) = d.overflowing_add(&self.modulus);
            proof {
                lemma_mod_add_multiples_vanish(a@ - b@, self.p() as int);
                lemma_small_mod((a@ - b@ + self.p()) as nat, self.p());
            }
            e
        } else {
            proof {
                lemma_small_mod((a@ - b@) as nat, self.p());
            }
            d
        }
    }

    /// The additive inverse of an element.
    pub fn neg(&self, a: &U256) -> (r: U256)
        requires
            self.contains(*a),
        ensures
            r@ == (-(a@ as int)) % (self.p() as int),
            (r@ + a@) % self.p() == 0,
            self.contains(r),
    {
        proof {
            use_type_invariant(self);
            lemma_mod_self_0(self.p() as int);
            lemma_small_mod(0, self.p());
        }
        let zero = U256::zero();
        let r = self.sub(&zero, a);
        proof {
            if a@ == 0 {
            } else {
                lemma_mod_add_multiples_vanish(-(a@ as int), self.p() as int);
                lemma_small_mod((self.p() - a@) as nat, self.p());
            }
        }
        r
    }

    /// The product of two elements.
    pub fn mul(&self, a: &U256, b: &U256) -> (r: U256)
        requires
            self.contains(*a),
            self.contains(*b),
        ensures
            r@ == (a@ * b@) % self.p(),
            self.contains(r),
    {
        proof {
            use_type_invariant(self);
            lemma_small_mod(0, self.p());
            lemma_pow2(0);
            lemma_pow0(2);
        }
        let mut acc = U256::zero();
        let mut e = *b;
        let mut i: u32 = 0;
        let ghost mut k: nat = 0;
        let ghost mut sh: nat = 1;
        while i < 256
            invariant
                i <= 256,
                self.p() >= 2,
                self.contains(*a),
                self.contains(acc),
                sh == pow2(i as nat),
                b@ * sh == k * bound() + e@,
                acc@ == (a@ * k) % self.p(),
            decreases 256 - i,
        {
            let ghost p = self.p() as int;
            let ghost acc0 = acc@ as int;
            let ghost ak = (a@ * k) as int;
            acc = self.add(&acc, &acc);
            let (e2, bit) = e.overflowing_add(&e);
            proof {
                // doubling the accumulator doubles the multiplier
                assert((acc0 + acc0) % p == (2 * ak) % p) by {
                    lemma_add_mod_noop(ak, ak, p);
                }
                assert(2 * ak == a@ * (2 * k)) by (nonlinear_arith)
                    requires
                        ak == a@ * k,
                ;
                assert(b@ * (2 * sh) == 2 * (b@ * sh)) by (nonlinear_arith);
                lemma_pow2_unfold((i + 1) as nat);
            }
            if bit {
                let ghost acc1 = acc@ as int;
                acc = self.add(&acc, a);
                proof {
                    assert((acc1 + a@) % p == (2 * ak + a@) % p) by {
                        lemma_add_mod_noop(2 * ak, a@ as int, p);
                        lemma_small_mod(a@, self.p());
                    }
                    assert(2 * ak + a@ == a@ * (2 * k + 1)) by (nonlinear_arith)
                        requires
                            ak == a@ * k,
                    ;
                    k = 2 * k + 1;
                }
            } else {
                proof {
                    k = 2 * k;
                }
            }
            e = e2;
            proof {
                sh = 2 * sh;
            }
            i += 1;
        }
        proof {
            lemma_bound_is_pow2();
            assert(b@ * sh == b@ * bound());
            assert(k == b@) by (nonlinear_arith)
                requires
                    b@ * bound() == k * bound() + e@,
                    0 <= e@ < bound(),
                    bound() > 0,
            ;
        }
        acc
    }

    /// `x` raised to the power `e`.
    pub fn pow(&self, x: &U256, e: &U256) -> (r: U256)
        requires
            self.contains(*x),
        ensures
            r@ == pow(x@ as int, e@) % (self.p() as int),
            self.contains(r),
    {
        proof {
            use_type_invariant(self);
            lemma_small_mod(1, self.p());
            lemma_pow2(0);
            lemma_pow0(2);
            lemma_pow0(x@ as int);
        }
        let mut acc = self.from_u64(1);
        let mut rest = *e;
        let mut i: u32 = 0;
        let ghost mut k: nat = 0;
        let ghost mut sh: nat = 1;
        while i < 256
            invariant
                i <= 256,
                self.p() >= 2,
                self.contains(*x),
                self.contains(acc),
                sh == pow2(i as nat),
                e@ * sh == k * bound() + rest@,
                acc@ == pow(x@ as int, k) % (self.p() as int),
            decreases 256 - i,
        {
            let ghost p = self.p() as int;
            let ghost xk = pow(x@ as int, k);
            acc = self.mul(&acc, &acc);
            let (rest2, bit) = rest.overflowing_add(&rest);
            proof {
                // squaring the accumulator doubles the exponent
                lemma_mul_mod_noop_general(xk, xk, p);
                lemma_pow_adds(x@ as int, k, k);
                assert(e@ * (2 * sh) == 2 * (e@ * sh)) by (nonlinear_arith);
                lemma_pow2_unfold((i + 1) as nat);
            }
            if bit {
                proof {
                    lemma_mul_mod_noop_general(pow(x@ as int, 2 * k), x@ as int, p);
                    lemma_small_mod(x@, self.p());
                    lemma_pow_adds(x@ as int, 2 * k, 1);
                    lemma_pow1(x@ as int);
                }
                acc = self.mul(&acc, x);
                proof {
                    k = 2 * k + 1;
                }
            } else {
                proof {
                    k = 2 * k;
                }
            }
            rest = rest2;
            proof {
                sh = 2 * sh;
            }
            i += 1;
        }
        proof {
            lemma_bound_is_pow2();
            assert(e@ * sh == e@ * bound());
            assert(k == e@) by (nonlinear_arith)
                requires
                    e@ * bound() == k * bound() + rest@,
                    0 <= rest@ < bound(),
                    bound() > 0,
            ;
        }
        acc
    }

    /// The multiplicative inverse of `x`, computed as `x^(p-2)` and checked
    /// by multiplication; nothing where the check fails.
    pub fn inv(&self, x: &U256) -> (r: Option<U256>)
        requires
            self.contains(*x),
        ensures
            match r {
                Some(y) => self.contains(y) && y@ == fermat_inverse(x@, self.p()) && (x@ * y@) % self.p()
                    == 1,
                None => (x@ * fermat_inverse(x@, self.p())) % self.p() != 1,
            },
            x@ == 0 ==> r is None,
    {
        proof {
            use_type_invariant(self);
            lemma_small_mod(1, self.p());
            lemma_small_mod(0, self.p());
        }
        let two = U256::from_u64(2);
        let (e, _) = self.modulus.overflowing_sub(&two);
        let y = self.pow(x, &e);
        let c = self.mul(x, &y);
        let one = U256::one();
        proof {
            if x@ == 0 {
                assert(x@ * y@ == 0) by (nonlinear_arith)
                    requires
                        x@ == 0,
                ;
            }
        }
        if c.equals(&one) {
            Some(y)
        } else {
            None
        }
    }

    /// The quotient `a / b`: `a` times the inverse of `b`, where `b` has one.
    pub fn div(&self, a: &U256, b: &U256) -> (r: Option<U256>)
        requires
            self.contains(*a),
            self.contains(*b),
        ensures
            match r {
                Some(q) => {
                    &&& self.contains(q)
                    &&& (b@ * fermat_inverse(b@, self.p())) % self.p() == 1
                    &&& q@ == (a@ * fermat_inverse(b@, self.p())) % self.p()
                    &&& (q@ * b@) % self.p() == a@
                },
                None => (b@ * fermat_inverse(b@, self.p())) % self.p() != 1,
            },
            b@ == 0 ==> r is None,
    {
        proof {
            use_type_invariant(self);
        }
        match self.inv(b) {
            Some(y) => {
                let q = self.mul(a, &y);
                proof {
                    let p = self.p() as int;
                    // q * b = (a * y) * b = a * (y * b) = a * 1 (mod p)
                    lemma_mul_mod_noop_general((a@ * y@) as int, b@ as int, p);
                    lemma_small_mod(b@, self.p());
                    assert((a@ * y@) * b@ == a@ * (b@ * y@)) by (nonlinear_arith);
                    lemma_mul_mod_noop_general(a@ as int, (b@ * y@) as int, p);
                    lemma_small_mod(a@, self.p());
                    lemma_small_mod(1, self.p());
                    assert(a@ * 1 == a@);
                }
                Some(q)
            },
            None => None,
        }
    }
}

} // verus!
