//! Numbers written as text: decimal digits, or hexadecimal digits behind `0x`.

use vstd::prelude::*;
use vstd::arithmetic::div_mod::*;
use crate::bigint::bound;
use crate::bigint::U256;
use crate::field::Field;

verus! {

/// The value of a decimal digit.
pub open spec fn decimal_digit(c: char) -> Option<nat> {
    if '0' <= c && c <= '9' {
        Some((c as nat - '0' as nat) as nat)
    } else {
        None
    }
}

/// Whether `s` is a non-empty run of decimal digits.
pub open spec fn is_decimal(s: Seq<char>) -> bool {
    s.len() > 0 && forall|i: int| 0 <= i < s.len() ==> decimal_digit(#[trigger] s[i]) is Some
}

/// The number that the decimal digits `s` write.
pub open spec fn decimal_value(s: Seq<char>) -> nat
    decreases s.len(),
{
    if s.len() == 0 {
        0
    } else {
        10 * decimal_value(s.drop_last()) + decimal_digit(s.last()).unwrap()
    }
}

/// The value of a hexadecimal digit of either case.
pub open spec fn hex_digit(c: char) -> Option<nat> {
    if '0' <= c && c <= '9' {
        Some((c as nat - '0' as nat) as nat)
    } else if 'a' <= c && c <= 'f' {
        Some((c as nat - 'a' as nat + 10) as nat)
    } else if 'A' <= c && c <= 'F' {
        Some((c as nat - 'A' as nat + 10) as nat)
    } else {
        None
    }
}

/// Whether `s` is an even number of hexadecimal digits.
pub open spec fn is_hex(s: Seq<char>) -> bool {
    s.len() % 2 == 0 && forall|i: int| 0 <= i < s.len() ==> hex_digit(#[trigger] s[i]) is Some
}

/// The bytes that the hexadecimal digits `s` write, two digits to a byte.
pub open spec fn hex_bytes(s: Seq<char>) -> Seq<u8> {
    Seq::new(
        s.len() / 2,
        |i: int| (16 * hex_digit(s[2 * i]).unwrap() + hex_digit(s[2 * i + 1]).unwrap()) as u8,
    )
}

/// The number that `bytes` write, most significant byte first.
pub open spec fn be_value(bytes: Seq<u8>) -> nat
    decreases bytes.len(),
{
    if bytes.len() == 0 {
        0
    } else {
        256 * be_value(bytes.drop_last()) + bytes.last() as nat
    }
}

/// A prefix of a run of digits writes no more than the whole run.
pub proof fn lemma_decimal_prefix(s: Seq<char>, n: int)
    requires
        0 <= n <= s.len(),
    ensures
        decimal_value(s.subrange(0, n)) <= decimal_value(s) || !is_decimal(s),
    decreases s.len(),
{
    if n == s.len() {
        assert(s.subrange(0, n) =~= s);
    } else if is_decimal(s) {
        let t = s.drop_last();
        assert(t.subrange(0, n) =~= s.subrange(0, n));
        if n > 0 {
            assert forall|i: int| 0 <= i < t.len() implies decimal_digit(#[trigger] t[i]) is Some by {
                assert(t[i] == s[i]);
            }
            lemma_decimal_prefix(t, n);
        } else {
            assert(s.subrange(0, 0) =~= Seq::<char>::empty());
        }
    }
}

/// A prefix of a run of bytes writes no more than the whole run.
pub proof fn lemma_be_prefix(s: Seq<u8>, n: int)
    requires
        0 <= n <= s.len(),
    ensures
        be_value(s.subrange(0, n)) <= be_value(s),
    decreases s.len(),
{
    if n == s.len() {
        assert(s.subrange(0, n) =~= s);
    } else {
        let t = s.drop_last();
        assert(t.subrange(0, n) =~= s.subrange(0, n));
        lemma_be_prefix(t, n);
    }
}

/// Decodes hexadecimal text with `hex::decode`, which reads two digits of
/// either case into each byte and fails on an odd length or on any other
/// character.
#[verifier::external_body]
fn hex_decode(s: &str) -> (r: Option<Vec<u8>>)
    ensures
        r is Some <==> is_hex(s@),
        r is Some ==> r.unwrap()@ == hex_bytes(s@),
{
    hex::decode(s).ok()
}

/// The value of the decimal digit `c`.
fn decimal_digit_of(c: char) -> (r: Option<u8>)
    ensures
        match r {
            Some(d) => decimal_digit(c) == Some(d as nat) && d < 10,
            None => decimal_digit(c) is None,
        },
{
    if c >= '0' && c <= '9' {
        Some((c as u32 - '0' as u32) as u8)
    } else {
        None
    }
}

impl U256 {
    /// Ten times `self` plus `d`, where that is below `2^256`.
    fn times_ten_plus(&self, d: u8) -> (r: Option<U256>)
        ensures
            match r {
                Some(v) => v@ == 10 * self@ + d,
                None => 10 * self@ + d >= bound(),
            },
    {
        let (t2, c1) = self.overflowing_add(self);
        let (t4, c2) = t2.overflowing_add(&t2);
        let (t8, c3) = t4.overflowing_add(&t4);
        let (t10, c4) = t8.overflowing_add(&t2);
        let (v, c5) = t10.overflowing_add(&U256::from_u64(d as u64));
        if c1 || c2 || c3 || c4 || c5 {
            None
        } else {
            Some(v)
        }
    }

    /// 256 times `self` plus `d`, where that is below `2^256`.
    fn times_256_plus(&self, d: u8) -> (r: Option<U256>)
        ensures
            match r {
                Some(v) => v@ == 256 * self@ + d,
                None => 256 * self@ + d >= bound(),
            },
    {
        let (t2, c1) = self.overflowing_add(self);
        let (t4, c2) = t2.overflowing_add(&t2);
        let (t8, c3) = t4.overflowing_add(&t4);
        let (t16, c4) = t8.overflowing_add(&t8);
        let (t32, c5) = t16.overflowing_add(&t16);
        let (t64, c6) = t32.overflowing_add(&t32);
        let (t128, c7) = t64.overflowing_add(&t64);
        let (t256, c8) = t128.overflowing_add(&t128);
        let (v, c9) = t256.overflowing_add(&U256::from_u64(d as u64));
        if c1 || c2 || c3 || c4 || c5 || c6 || c7 || c8 || c9 {
            None
        } else {
            Some(v)
        }
    }

    /// The number that `bytes` write, most significant byte first, where it
    /// is below `2^256`.
    pub fn from_bytes_be(bytes: &[u8]) -> (r: Option<U256>)
        ensures
            r is Some <==> be_value(bytes@) < bound(),
            r is Some ==> r.unwrap()@ == be_value(bytes@),
    {
        let mut acc = U256::zero();
        let mut i: usize = 0;
        proof {
            assert(bytes@.subrange(0, 0) =~= Seq::<u8>::empty());
        }
        while i < bytes.len()
            invariant
                i <= bytes.len(),
                acc@ == be_value(bytes@.subrange(0, i as int)),
            decreases bytes.len() - i,
        {
            proof {
                assert(bytes@.subrange(0, i as int + 1).drop_last() =~= bytes@.subrange(0, i as int));
            }
            match acc.times_256_plus(bytes[i]) {
                Some(v) => {
                    acc = v;
                },
                None => {
                    proof {
                        lemma_be_prefix(bytes@, i as int + 1);
                    }
                    return None;
                },
            }
            i += 1;
        }
        proof {
            assert(bytes@.subrange(0, bytes.len() as int) =~= bytes@);
            crate::bigint::lemma_view_bound(acc);
        }
        Some(acc)
    }

    /// The number that the hexadecimal digits `s` write, where `s` is an
    /// even number of digits and the number is below `2^256`.
    pub fn from_hex(s: &str) -> (r: Option<U256>)
        ensures
            r is Some <==> is_hex(s@) && be_value(hex_bytes(s@)) < bound(),
            r is Some ==> r.unwrap()@ == be_value(hex_bytes(s@)),
    {
        match hex_decode(s) {
            Some(bytes) => U256::from_bytes_be(bytes.as_slice()),
            None => None,
        }
    }

    /// The number that the decimal digits `s` write, where `s` is a run of
    /// digits and the number is below `2^256`.
    pub fn from_decimal(s: &str) -> (r: Option<U256>)
        ensures
            r is Some <==> is_decimal(s@) && decimal_value(s@) < bound(),
            r is Some ==> r.unwrap()@ == decimal_value(s@),
    {
        let n = s.unicode_len();
        if n == 0 {
            return None;
        }
        let mut acc = U256::zero();
        let mut i: usize = 0;
        while i < n
            invariant
                i <= n,
                n == s@.len(),
                forall|j: int| 0 <= j < i ==> decimal_digit(#[trigger] s@[j]) is Some,
                acc@ == decimal_value(s@.subrange(0, i as int)),
            decreases n - i,
        {
            let c = s.get_char(i);
            proof {
                assert(s@.subrange(0, i as int + 1).drop_last() =~= s@.subrange(0, i as int));
            }
            match decimal_digit_of(c) {
                Some(d) => {
                    match acc.times_ten_plus(d) {
                        Some(v) => {
                            acc = v;
                        },
                        None => {
                            proof {
                                lemma_decimal_prefix(s@, i as int + 1);
                            }
                            return None;
                        },
                    }
                },
                None => {
                    return None;
                },
            }
            i += 1;
        }
        proof {
            assert(s@.subrange(0, n as int) =~= s@);
            crate::bigint::lemma_view_bound(acc);
        }
        Some(acc)
    }
}

impl Field {
    /// The element that the decimal digits `s` write, where `s` is a run of
    /// digits.
    pub fn from_decimal(&self, s: &str) -> (r: Option<U256>)
        ensures
            r is Some <==> is_decimal(s@),
            r is Some ==> r.unwrap()@ == decimal_value(s@) % self.p() && self.contains(r.unwrap()),
    {
        let n = s.unicode_len();
        if n == 0 {
            return None;
        }
        proof {
            use_type_invariant(self);
            self.lemma_valid();
        }
        let ten = self.from_u64(10);
        let mut acc = self.from_u64(0);
        let mut i: usize = 0;
        proof {
            lemma_small_mod(0, self.p());
        }
        while i < n
            invariant
                i <= n,
                n == s@.len(),
                self.p() >= 2,
                ten@ == 10nat % self.p(),
                self.contains(ten),
                self.contains(acc),
                forall|j: int| 0 <= j < i ==> decimal_digit(#[trigger] s@[j]) is Some,
                acc@ == decimal_value(s@.subrange(0, i as int)) % self.p(),
            decreases n - i,
        {
            let c = s.get_char(i);
            match decimal_digit_of(c) {
                Some(d) => {
                    let ghost before = decimal_value(s@.subrange(0, i as int));
                    let t = self.mul(&ten, &acc);
                    let dv = self.from_u64(d as u64);
                    acc = self.add(&t, &dv);
                    proof {
                        let p = self.p() as int;
                        assert(s@.subrange(0, i as int + 1).drop_last() =~= s@.subrange(0, i as int));
                        lemma_mul_mod_noop_general(10, before as int, p);
                        lemma_add_mod_noop((10 * before) as int, d as int, p);
                    }
                },
                None => {
                    return None;
                },
            }
            i += 1;
        }
        proof {
            assert(s@.subrange(0, n as int) =~= s@);
        }
        Some(acc)
    }

    /// The element that `bytes` write, most significant byte first.
    pub fn from_bytes_be(&self, bytes: &[u8]) -> (r: U256)
        ensures
            r@ == be_value(bytes@) % self.p(),
            self.contains(r),
    {
        proof {
            use_type_invariant(self);
            self.lemma_valid();
        }
        let radix = self.from_u64(256);
        let mut acc = self.from_u64(0);
        let mut i: usize = 0;
        proof {
            lemma_small_mod(0, self.p());
        }
        while i < bytes.len()
            invariant
                i <= bytes.len(),
                self.p() >= 2,
                radix@ == 256nat % self.p(),
                self.contains(radix),
                self.contains(acc),
                acc@ == be_value(bytes@.subrange(0, i as int)) % self.p(),
            decreases bytes.len() - i,
        {
            let ghost before = be_value(bytes@.subrange(0, i as int));
            let t = self.mul(&radix, &acc);
            let dv = self.from_u64(bytes[i] as u64);
            acc = self.add(&t, &dv);
            proof {
                let p = self.p() as int;
                assert(bytes@.subrange(0, i as int + 1).drop_last() =~= bytes@.subrange(0, i as int));
                lemma_mul_mod_noop_general(256, before as int, p);
                lemma_add_mod_noop((256 * before) as int, bytes[i as int] as int, p);
            }
            i += 1;
        }
        proof {
            assert(bytes@.subrange(0, bytes.len() as int) =~= bytes@);
        }
        acc
    }

    /// The element that the hexadecimal digits `s` write, where `s` is an
    /// even number of digits.
    pub fn from_hex(&self, s: &str) -> (r: Option<U256>)
        ensures
            r is Some <==> is_hex(s@),
            r is Some ==> r.unwrap()@ == be_value(hex_bytes(s@)) % self.p() && self.contains(r.unwrap()),
    {
        match hex_decode(s) {
            Some(bytes) => Some(self.from_bytes_be(bytes.as_slice())),
            None => None,
        }
    }
}

} // verus!
