//! Fixed-width 256-bit unsigned integers with wrapping (modular) arithmetic,
//! big-endian byte conversion, and floor division of the all-ones constant.
//!
//! Values are four 64-bit limbs, least significant first; the mathematical
//! value of a number is given by [`U256::as_nat`].

use vstd::prelude::*;

verus! {

/// 2^256, the modulus of all wrapping arithmetic here.
#[verifier::inline]
pub open spec fn p256() -> nat {
    0x10000000000000000 * 0x10000000000000000 * 0x10000000000000000 * 0x10000000000000000
}

/// A 256-bit unsigned integer: four 64-bit limbs, least significant first.
#[derive(Clone, Copy, Debug, PartialEq, Eq, Structural)]
pub struct U256 {
    pub limb0: u64,
    pub limb1: u64,
    pub limb2: u64,
    pub limb3: u64,
}

impl U256 {
    /// The mathematical value of this number, in Horner form over the base
    /// 2^64.
    pub open spec fn as_nat(self) -> nat {
        (self.limb0 + 0x10000000000000000 * (self.limb1 + 0x10000000000000000 * (self.limb2
            + 0x10000000000000000 * self.limb3))) as nat
    }

    pub fn zero() -> (r: U256)
        ensures
            r.as_nat() == 0,
    {
        U256 { limb0: 0, limb1: 0, limb2: 0, limb3: 0 }
    }

    /// The all-ones constant 2^256 - 1, the largest representable value.
    pub fn max_value() -> (r: U256)
        ensures
            r.as_nat() == p256() - 1,
    {
        U256 {
            limb0: 0xffff_ffff_ffff_ffff,
            limb1: 0xffff_ffff_ffff_ffff,
            limb2: 0xffff_ffff_ffff_ffff,
            limb3: 0xffff_ffff_ffff_ffff,
        }
    }

    pub fn is_zero(&self) -> (r: bool)
        ensures
            r == (self.as_nat() == 0),
    {
        self.limb0 == 0 && self.limb1 == 0 && self.limb2 == 0 && self.limb3 == 0
    }

    /// Strict comparison of mathematical values.
    pub fn lt(&self, other: &U256) -> (r: bool)
        ensures
            r == (self.as_nat() < other.as_nat()),
    {
        if self.limb3 != other.limb3 {
            self.limb3 < other.limb3
        } else if self.limb2 != other.limb2 {
            self.limb2 < other.limb2
        } else if self.limb1 != other.limb1 {
            self.limb1 < other.limb1
        } else {
            self.limb0 < other.limb0
        }
    }
}

/// One limb of an addition: `a + b + carry_in` split into a low limb and a
/// carry of at most one.
fn add_with_carry(a: u64, b: u64, carry_in: u64) -> (r: (u64, u64))
    requires
        carry_in <= 1,
    ensures
        r.0 + 0x10000000000000000 * r.1 == a + b + carry_in,
        r.1 <= 1,
{
    let s1 = a.wrapping_add(b);
    let c1: u64 = if s1 < a {
        1
    } else {
        0
    };
    let s2 = s1.wrapping_add(carry_in);
    let c2: u64 = if s2 < s1 {
        1
    } else {
        0
    };
    (s2, c1 + c2)
}

/// One limb of a subtraction: `a - b - borrow_in` as a low limb and a borrow
/// of at most one, so that `r.0 - 2^64 * r.1 == a - b - borrow_in`.
fn sub_with_borrow(a: u64, b: u64, borrow_in: u64) -> (r: (u64, u64))
    requires
        borrow_in <= 1,
    ensures
        r.0 - 0x10000000000000000 * r.1 == a - b - borrow_in,
        r.1 <= 1,
{
    let d1 = a.wrapping_sub(b);
    let b1: u64 = if a < b {
        1
    } else {
        0
    };
    let d2 = d1.wrapping_sub(borrow_in);
    let b2: u64 = if d1 < borrow_in {
        1
    } else {
        0
    };
    (d2, b1 + b2)
}

/// Full-width addition with carry-in: the exact sum is the result plus
/// 2^256 when the carry-out is set.
fn add_limbs(x: &U256, y: &U256, carry_in: u64) -> (r: (u64, U256))
    requires
        carry_in <= 1,
    ensures
        r.0 <= 1,
        r.0 == 0 ==> r.1.as_nat() == x.as_nat() + y.as_nat() + carry_in,
        r.0 == 1 ==> r.1.as_nat() + p256() == x.as_nat() + y.as_nat() + carry_in,
{
    let (r0, c0) = add_with_carry(x.limb0, y.limb0, carry_in);
    let (r1, c1) = add_with_carry(x.limb1, y.limb1, c0);
    let (r2, c2) = add_with_carry(x.limb2, y.limb2, c1);
    let (r3, c3) = add_with_carry(x.limb3, y.limb3, c2);
    (c3, U256 { limb0: r0, limb1: r1, limb2: r2, limb3: r3 })
}

/// Full-width subtraction with borrow-in: the result minus 2^256 when the
/// borrow-out is set equals the exact difference.
fn sub_limbs(x: &U256, y: &U256, borrow_in: u64) -> (r: (u64, U256))
    requires
        borrow_in <= 1,
    ensures
        r.0 <= 1,
        r.0 == 0 ==> r.1.as_nat() == x.as_nat() - y.as_nat() - borrow_in,
        r.0 == 1 ==> r.1.as_nat() - p256() == x.as_nat() - y.as_nat() - borrow_in,
{
    let (r0, b0) = sub_with_borrow(x.limb0, y.limb0, borrow_in);
    let (r1, b1) = sub_with_borrow(x.limb1, y.limb1, b0);
    let (r2, b2) = sub_with_borrow(x.limb2, y.limb2, b1);
    let (r3, b3) = sub_with_borrow(x.limb3, y.limb3, b2);
    (b3, U256 { limb0: r0, limb1: r1, limb2: r2, limb3: r3 })
}

impl U256 {
    /// Addition modulo 2^256.
    pub fn wrapping_add(&self, other: &U256) -> (r: U256)
        ensures
            r.as_nat() == (self.as_nat() + other.as_nat()) % p256(),
    {
        let (carry, sum) = add_limbs(self, other, 0);
        proof {
            if carry == 0 {
                vstd::arithmetic::div_mod::lemma_small_mod(sum.as_nat(), p256());
            } else {
                vstd::arithmetic::div_mod::lemma_mod_multiples_vanish(
                    1,
                    sum.as_nat() as int,
                    p256() as int,
                );
                vstd::arithmetic::div_mod::lemma_small_mod(sum.as_nat(), p256());
            }
        }
        sum
    }

    /// Subtraction modulo 2^256: the result is `self - other` when no
    /// underflow occurs, and `self - other + 2^256` otherwise.
    pub fn wrapping_sub(&self, other: &U256) -> (r: U256)
        ensures
            self.as_nat() >= other.as_nat() ==> r.as_nat() == self.as_nat() - other.as_nat(),
            self.as_nat() < other.as_nat() ==> r.as_nat() == self.as_nat() - other.as_nat()
                + p256(),
    {
        let (_borrow, diff) = sub_limbs(self, other, 0);
        diff
    }
}

} // verus!

verus! {

use vstd::arithmetic::power2::{pow2, lemma_pow2_adds, lemma2_to64};


/// The big-endian value of a byte sequence: the first byte is the most
/// significant.
pub open spec fn be_val(s: Seq<u8>) -> nat
    decreases s.len(),
{
    if s.len() == 0 {
        0
    } else {
        (be_val(s.drop_last()) * 256 + s.last()) as nat
    }
}

/// The value of an 8-byte sequence, written as a flat sum.
proof fn lemma_be_val8(s: Seq<u8>)
    requires
        s.len() == 8,
    ensures
        be_val(s) == s[0] * 0x100000000000000 + s[1] * 0x1000000000000 + s[2] * 0x10000000000
            + s[3] * 0x100000000 + s[4] * 0x1000000 + s[5] * 0x10000 + s[6] * 0x100 + s[7],
{
    assert(s.subrange(0, 1).drop_last() =~= s.subrange(0, 0));
    assert(s.subrange(0, 2).drop_last() =~= s.subrange(0, 1));
    assert(s.subrange(0, 3).drop_last() =~= s.subrange(0, 2));
    assert(s.subrange(0, 4).drop_last() =~= s.subrange(0, 3));
    assert(s.subrange(0, 5).drop_last() =~= s.subrange(0, 4));
    assert(s.subrange(0, 6).drop_last() =~= s.subrange(0, 5));
    assert(s.subrange(0, 7).drop_last() =~= s.subrange(0, 6));
    assert(s.drop_last() =~= s.subrange(0, 7));
    assert(be_val(s.subrange(0, 0)) == 0);
    assert(be_val(s.subrange(0, 1)) == be_val(s.subrange(0, 0)) * 256 + s[0]);
    assert(be_val(s.subrange(0, 2)) == be_val(s.subrange(0, 1)) * 256 + s[1]);
    assert(be_val(s.subrange(0, 3)) == be_val(s.subrange(0, 2)) * 256 + s[2]);
    assert(be_val(s.subrange(0, 4)) == be_val(s.subrange(0, 3)) * 256 + s[3]);
    assert(be_val(s.subrange(0, 5)) == be_val(s.subrange(0, 4)) * 256 + s[4]);
    assert(be_val(s.subrange(0, 6)) == be_val(s.subrange(0, 5)) * 256 + s[5]);
    assert(be_val(s.subrange(0, 7)) == be_val(s.subrange(0, 6)) * 256 + s[6]);
    assert(be_val(s) == be_val(s.subrange(0, 7)) * 256 + s[7]);
}

/// Splitting a byte sequence at `k` splits its value: the prefix is scaled
/// by 2^(8 * suffix length).
pub proof fn lemma_be_val_split(s: Seq<u8>, k: int)
    requires
        0 <= k <= s.len(),
    ensures
        be_val(s) == be_val(s.subrange(0, k)) * pow2(
            (8 * (s.len() - k)) as nat,
        ) + be_val(s.subrange(k, s.len() as int)),
    decreases s.len(),
{
    if k == s.len() {
        assert(s.subrange(0, k) =~= s);
        assert(be_val(s.subrange(k, s.len() as int)) == 0);
        lemma2_to64();
        assert(be_val(s) * pow2(0) == be_val(s)) by (nonlinear_arith)
            requires
                pow2(0) == 1,
        ;
    } else {
        let t = s.drop_last();
        lemma_be_val_split(t, k);
        assert(t.subrange(0, k) =~= s.subrange(0, k));
        let a = be_val(s.subrange(0, k));
        let m = (8 * (t.len() - k)) as nat;
        assert(be_val(t) == a * pow2(m) + be_val(t.subrange(k, t.len() as int)));
        assert(s.subrange(k, s.len() as int).drop_last() =~= t.subrange(k, t.len() as int));
        assert(s.subrange(k, s.len() as int).last() == s.last());
        assert(be_val(s.subrange(k, s.len() as int)) == be_val(t.subrange(k, t.len() as int)) * 256
            + s.last());
        lemma_pow2_adds(m, 8);
        lemma2_to64();
        assert(pow2((8 * (s.len() - k)) as nat) == pow2(m) * 256);
        assert(be_val(s) == be_val(t) * 256 + s.last());
        assert(a * pow2(m) * 256 == a * (pow2(m) * 256)) by (nonlinear_arith);
        assert((a * pow2(m) + be_val(t.subrange(k, t.len() as int))) * 256 == a * pow2(m) * 256
            + be_val(t.subrange(k, t.len() as int)) * 256) by (nonlinear_arith);
    }
}

/// Powers of two used to place the four limbs, as concrete numbers.
proof fn lemma_limb_weights()
    ensures
        pow2(64) == 0x10000000000000000,
        pow2(128) == 0x10000000000000000 * 0x10000000000000000,
        pow2(192) == 0x10000000000000000 * 0x10000000000000000
            * 0x10000000000000000,
        pow2(256) == p256(),
{
    lemma2_to64();
    lemma_pow2_adds(64, 64);
    lemma_pow2_adds(128, 64);
    lemma_pow2_adds(192, 64);
    assert(pow2(128) == 0x10000000000000000 * 0x10000000000000000);
    assert(pow2(192) == (0x10000000000000000 * 0x10000000000000000) * 0x10000000000000000);
    assert(pow2(256) == ((0x10000000000000000 * 0x10000000000000000) * 0x10000000000000000)
        * 0x10000000000000000);
}

/// A number whose limbs hold the big-endian values of the four 8-byte
/// groups of a 32-byte sequence has the value of the whole sequence.
proof fn lemma_limbs_from_groups(s: Seq<u8>, x: U256)
    requires
        s.len() == 32,
        x.limb3 == be_val(s.subrange(0, 8)),
        x.limb2 == be_val(s.subrange(8, 16)),
        x.limb1 == be_val(s.subrange(16, 24)),
        x.limb0 == be_val(s.subrange(24, 32)),
    ensures
        x.as_nat() == be_val(s),
{
    lemma_limb_weights();
    lemma_be_val_split(s, 8);
    let t = s.subrange(8, 32);
    lemma_be_val_split(t, 8);
    assert(t.subrange(0, 8) =~= s.subrange(8, 16));
    let u = t.subrange(8, 24);
    assert(u =~= s.subrange(16, 32));
    lemma_be_val_split(u, 8);
    assert(u.subrange(0, 8) =~= s.subrange(16, 24));
    assert(u.subrange(8, 16) =~= s.subrange(24, 32));
    let w3 = x.limb3 as nat;
    let w2 = x.limb2 as nat;
    let w1 = x.limb1 as nat;
    let w0 = x.limb0 as nat;
    assert(be_val(s) == w3 * pow2(192) + w2 * pow2(128) + w1 * pow2(64) + w0);
    let k: nat = 0x10000000000000000;
    assert(w3 * (k * k * k) + w2 * (k * k) + w1 * k + w0 == w0 + k * (w1 + k * (w2 + k * w3)))
        by (nonlinear_arith);
}

/// One limb read as eight big-endian bytes starting at `off`.
fn limb_from_be_bytes(bytes: &Vec<u8>, off: usize) -> (r: u64)
    requires
        off + 8 <= bytes@.len(),
        bytes@.len() <= usize::MAX,
    ensures
        r == be_val(bytes@.subrange(off as int, off + 8)),
{
    let mut r: u64 = bytes[off] as u64;
    r = r * 256 + bytes[off + 1] as u64;
    r = r * 256 + bytes[off + 2] as u64;
    r = r * 256 + bytes[off + 3] as u64;
    r = r * 256 + bytes[off + 4] as u64;
    r = r * 256 + bytes[off + 5] as u64;
    r = r * 256 + bytes[off + 6] as u64;
    r = r * 256 + bytes[off + 7] as u64;
    proof {
        let s = bytes@.subrange(off as int, off + 8);
        lemma_be_val8(s);
    }
    r
}

/// One limb written as eight big-endian bytes appended to `out`.
fn limb_to_be_bytes(l: u64, out: &mut Vec<u8>)
    ensures
        final(out)@.len() == old(out)@.len() + 8,
        final(out)@.subrange(0, old(out)@.len() as int) =~= old(out)@,
        be_val(final(out)@.subrange(old(out)@.len() as int, final(out)@.len() as int)) == l,
{
    let b0: u8 = (l / 0x100000000000000) as u8;
    let r0: u64 = l % 0x100000000000000;
    let b1: u8 = (r0 / 0x1000000000000) as u8;
    let r1: u64 = r0 % 0x1000000000000;
    let b2: u8 = (r1 / 0x10000000000) as u8;
    let r2: u64 = r1 % 0x10000000000;
    let b3: u8 = (r2 / 0x100000000) as u8;
    let r3: u64 = r2 % 0x100000000;
    let b4: u8 = (r3 / 0x1000000) as u8;
    let r4: u64 = r3 % 0x1000000;
    let b5: u8 = (r4 / 0x10000) as u8;
    let r5: u64 = r4 % 0x10000;
    let b6: u8 = (r5 / 0x100) as u8;
    let b7: u8 = (r5 % 0x100) as u8;
    out.push(b0);
    out.push(b1);
    out.push(b2);
    out.push(b3);
    out.push(b4);
    out.push(b5);
    out.push(b6);
    out.push(b7);
    proof {
        let s = out@.subrange(out@.len() - 8, out@.len() as int);
        lemma_be_val8(s);
        assert(s[0] == b0 && s[1] == b1 && s[2] == b2 && s[3] == b3 && s[4] == b4 && s[5] == b5
            && s[6] == b6 && s[7] == b7);
    }
}

impl U256 {
    /// Reads a number from its unique 32-byte big-endian encoding.
    pub fn from_be_bytes(bytes: &Vec<u8>) -> (r: U256)
        requires
            bytes@.len() == 32,
        ensures
            r.as_nat() == be_val(bytes@),
    {
        let limb3 = limb_from_be_bytes(bytes, 0);
        let limb2 = limb_from_be_bytes(bytes, 8);
        let limb1 = limb_from_be_bytes(bytes, 16);
        let limb0 = limb_from_be_bytes(bytes, 24);
        let r = U256 { limb0, limb1, limb2, limb3 };
        proof {
            lemma_limbs_from_groups(bytes@, r);
        }
        r
    }

    /// Writes the unique 32-byte big-endian encoding of this number.
    pub fn to_be_bytes(&self) -> (r: Vec<u8>)
        ensures
            r@.len() == 32,
            be_val(r@) == self.as_nat(),
    {
        let mut out: Vec<u8> = Vec::new();
        limb_to_be_bytes(self.limb3, &mut out);
        let ghost a1 = out@;
        limb_to_be_bytes(self.limb2, &mut out);
        let ghost a2 = out@;
        limb_to_be_bytes(self.limb1, &mut out);
        let ghost a3 = out@;
        limb_to_be_bytes(self.limb0, &mut out);
        let ghost a4 = out@;
        proof {
            assert(a1.subrange(0, 8) =~= a1);
            assert(a2.subrange(0, 8) =~= a1.subrange(0, 8));
            assert(a3.subrange(0, 8) =~= a2.subrange(0, 8));
            assert(a3.subrange(8, 16) =~= a2.subrange(8, 16));
            assert(a4.subrange(0, 8) =~= a3.subrange(0, 8));
            assert(a4.subrange(8, 16) =~= a3.subrange(8, 16));
            assert(a4.subrange(16, 24) =~= a3.subrange(16, 24));
            lemma_limbs_from_groups(out@, *self);
        }
        out
    }
}

} // verus!

verus! {

impl U256 {
    /// Floor division of the all-ones constant 2^256 - 1 by a nonzero
    /// divisor, by binary long division: the dividend's bits are all ones,
    /// so every step shifts a one into the remainder.
    pub fn div_from_max(divisor: &U256) -> (q: U256)
        requires
            divisor.as_nat() != 0,
        ensures
            q.as_nat() == (p256() - 1) as nat / divisor.as_nat(),
    {
        let d = *divisor;
        let mut quot = U256::zero();
        let mut rem = U256::zero();
        let mut i: usize = 0;
        proof {
            lemma_limb_weights();
            vstd::arithmetic::power2::lemma2_to64();
        }
        while i < 256
            invariant
                i <= 256,
                d.as_nat() != 0,
                pow2(256) == p256(),
                pow2(0) == 1,
                rem.as_nat() < d.as_nat(),
                quot.as_nat() * d.as_nat() + rem.as_nat() == pow2(i as nat) - 1,
            decreases 256 - i,
        {
            let ghost dv = d.as_nat();
            let ghost q0 = quot.as_nat();
            let ghost r0 = rem.as_nat();
            let ghost pi = pow2(i as nat);
            proof {
                vstd::arithmetic::power2::lemma_pow2_unfold((i + 1) as nat);
                if i + 1 < 256 {
                    vstd::arithmetic::power2::lemma_pow2_strictly_increases(
                        (i + 1) as nat,
                        256,
                    );
                }
                assert(q0 <= q0 * dv) by (nonlinear_arith)
                    requires
                        dv >= 1,
                ;
            }
            let ghost pi1 = pow2((i + 1) as nat);
            let (rc, rem2) = add_limbs(&rem, &rem, 1);
            let need_sub = rc == 1 || !rem2.lt(&d);
            let qbit: u64 = if need_sub {
                1
            } else {
                0
            };
            let (qc, quot2) = add_limbs(&quot, &quot, qbit);
            proof {
                assert(2 * q0 + qbit <= pi1 - 1);
                assert(pi1 <= p256());
                assert(qc == 0);
            }
            let rem3 = if need_sub {
                rem2.wrapping_sub(&d)
            } else {
                rem2
            };
            proof {
                let v2 = 2 * r0 + 1;
                assert(v2 <= 2 * dv - 1);
                if need_sub {
                    if rc == 1 {
                        assert(rem2.as_nat() + p256() == v2);
                        assert(rem2.as_nat() < dv);
                        assert(rem3.as_nat() == v2 - dv);
                    } else {
                        assert(rem2.as_nat() == v2 && v2 >= dv);
                        assert(rem3.as_nat() == v2 - dv);
                    }
                    assert(rem3.as_nat() < dv);
                    assert(quot2.as_nat() == 2 * q0 + 1);
                    assert(quot2.as_nat() * dv + rem3.as_nat() == 2 * pi - 1) by (nonlinear_arith)
                        requires
                            quot2.as_nat() == 2 * q0 + 1,
                            rem3.as_nat() == 2 * r0 + 1 - dv,
                            q0 * dv + r0 == pi - 1,
                    ;
                } else {
                    assert(rc == 0 && rem2.as_nat() < dv);
                    assert(rem3.as_nat() == 2 * r0 + 1);
                    assert(quot2.as_nat() == 2 * q0);
                    assert(quot2.as_nat() * dv + rem3.as_nat() == 2 * pi - 1) by (nonlinear_arith)
                        requires
                            quot2.as_nat() == 2 * q0,
                            rem3.as_nat() == 2 * r0 + 1,
                            q0 * dv + r0 == pi - 1,
                    ;
                }
                assert(pi1 == 2 * pi);
            }
            quot = quot2;
            rem = rem3;
            i = i + 1;
        }
        proof {
            vstd::arithmetic::div_mod::lemma_fundamental_div_mod_converse(
                (p256() - 1) as int,
                d.as_nat() as int,
                quot.as_nat() as int,
                rem.as_nat() as int,
            );
        }
        quot
    }
}

} // verus!
