//! The additive groups in which shares and counts live.
//!
//! Every group used by the protocol is the ring of residues modulo some
//! `m >= 2`; a value is described by the residue it stands for, and all
//! contracts of the library speak of residues.

use vstd::prelude::*;
use vstd::arithmetic::div_mod::*;

verus! {

/// The order of the group carried by `u64` with wrapping arithmetic.
pub open spec fn two_to_64() -> nat {
    0x1_0000_0000_0000_0000nat
}

/// Sum of two residues modulo `m`.
pub open spec fn add_mod(a: nat, b: nat, m: nat) -> nat {
    ((a as int + b as int) % (m as int)) as nat
}

/// Difference of two residues modulo `m`.
pub open spec fn sub_mod(a: nat, b: nat, m: nat) -> nat {
    ((a as int - b as int) % (m as int)) as nat
}

/// Additive inverse of a residue modulo `m`.
pub open spec fn neg_mod(a: nat, m: nat) -> nat {
    ((0 - a as int) % (m as int)) as nat
}

/// Product of two residues modulo `m`.
pub open spec fn mul_mod(a: nat, b: nat, m: nat) -> nat {
    ((a as int * b as int) % (m as int)) as nat
}

/// Two numbers that differ by a multiple of `m` leave the same remainder.
pub proof fn lemma_mod_congruent(x: int, y: int, k: int, m: int)
    requires
        m > 0,
        x == y + k * m,
    ensures
        x % m == y % m,
{
    lemma_mod_multiples_vanish(k, y, m);
    assert(m * k + y == x) by (nonlinear_arith)
        requires
            x == y + k * m,
    ;
}

/// Addition of residues is associative; the terms need not be reduced.
pub proof fn lemma_add_mod_assoc(a: nat, b: nat, c: nat, m: nat)
    requires
        m > 0,
    ensures
        add_mod(add_mod(a, b, m), c, m) == add_mod(a, add_mod(b, c, m), m),
        add_mod(add_mod(a, b, m), c, m) == ((a as int + b as int + c as int) % (
        m as int)) as nat,
{
    let mi = m as int;
    lemma_add_mod_noop(a as int + b as int, c as int, mi);
    lemma_add_mod_noop(a as int, b as int + c as int, mi);
    lemma_mod_twice(a as int + b as int, mi);
    lemma_mod_twice(b as int + c as int, mi);
    lemma_add_mod_noop((a as int + b as int) % mi, c as int, mi);
    lemma_add_mod_noop(a as int, (b as int + c as int) % mi, mi);
    lemma_mod_bound(a as int + b as int, mi);
    lemma_mod_bound(b as int + c as int, mi);
}

/// A residue and its inverse add up to zero.
pub proof fn lemma_add_neg(x: nat, m: nat)
    requires
        m > 0,
        x < m,
    ensures
        add_mod(x, neg_mod(x, m), m) == 0,
        neg_mod(x, m) < m,
{
    let mi = m as int;
    lemma_fundamental_div_mod(0 - x as int, mi);
    let q = (0 - x as int) / mi;
    lemma_mod_bound(0 - x as int, mi);
    assert(x as int + neg_mod(x, m) as int == 0 + (-q) * mi) by (nonlinear_arith)
        requires
            0 - x as int == mi * q + neg_mod(x, m) as int,
    ;
    lemma_mod_congruent(x as int + neg_mod(x, m) as int, 0, -q, mi);
    lemma_small_mod(0, m);
}

/// The correction word of a level makes the two shares of that level add up
/// to the payload. `w0` and `w1` are the words that the two parties derive on
/// the path, `t1` the control bit of the second party; exactly the party whose
/// control bit is set adds the correction word `cw`, and the second party
/// negates its share.
pub proof fn lemma_recombine(beta: nat, w0: nat, w1: nat, t1: bool, m: nat)
    requires
        m > 0,
        beta < m,
        w0 < m,
        w1 < m,
    ensures
        ({
            let c = add_mod(sub_mod(beta, w0, m), w1, m);
            let cw = if t1 { neg_mod(c, m) } else { c };
            let share0 = if t1 { w0 } else { add_mod(w0, cw, m) };
            let share1 = neg_mod(if t1 { add_mod(w1, cw, m) } else { w1 }, m);
            add_mod(share0, share1, m) == beta
        }),
{
    let mi = m as int;
    let b = beta as int;
    let x0 = w0 as int;
    let x1 = w1 as int;
    let c1 = (b - x0) % mi;
    let q1 = (b - x0) / mi;
    lemma_fundamental_div_mod(b - x0, mi);
    lemma_mod_bound(b - x0, mi);
    let c = (c1 + x1) % mi;
    let q2 = (c1 + x1) / mi;
    lemma_fundamental_div_mod(c1 + x1, mi);
    lemma_mod_bound(c1 + x1, mi);
    assert(c == add_mod(sub_mod(beta, w0, m), w1, m));
    lemma_small_mod(beta, m);
    if t1 {
        let cw = (0 - c) % mi;
        let q3 = (0 - c) / mi;
        lemma_fundamental_div_mod(0 - c, mi);
        lemma_mod_bound(0 - c, mi);
        let a1 = (x1 + cw) % mi;
        let q4 = (x1 + cw) / mi;
        lemma_fundamental_div_mod(x1 + cw, mi);
        lemma_mod_bound(x1 + cw, mi);
        let s1 = (0 - a1) % mi;
        let q5 = (0 - a1) / mi;
        lemma_fundamental_div_mod(0 - a1, mi);
        lemma_mod_bound(0 - a1, mi);
        assert(x0 + s1 == b + (q3 + q4 - q5 - q1 - q2) * mi) by (nonlinear_arith)
            requires
                b - x0 == mi * q1 + c1,
                c1 + x1 == mi * q2 + c,
                0 - c == mi * q3 + cw,
                x1 + cw == mi * q4 + a1,
                0 - a1 == mi * q5 + s1,
        ;
        lemma_mod_congruent(x0 + s1, b, q3 + q4 - q5 - q1 - q2, mi);
    } else {
        let a0 = (x0 + c) % mi;
        let q3 = (x0 + c) / mi;
        lemma_fundamental_div_mod(x0 + c, mi);
        lemma_mod_bound(x0 + c, mi);
        let s1 = (0 - x1) % mi;
        let q4 = (0 - x1) / mi;
        lemma_fundamental_div_mod(0 - x1, mi);
        lemma_mod_bound(0 - x1, mi);
        assert(a0 + s1 == b + (0 - q1 - q2 - q3 - q4) * mi) by (nonlinear_arith)
            requires
                b - x0 == mi * q1 + c1,
                c1 + x1 == mi * q2 + c,
                x0 + c == mi * q3 + a0,
                0 - x1 == mi * q4 + s1,
        ;
        lemma_mod_congruent(a0 + s1, b, 0 - q1 - q2 - q3 - q4, mi);
    }
}

/// A type whose values are the residues modulo `Self::modulus()`.
pub trait Group: Sized + Copy {
    /// The number of elements of the group.
    spec fn modulus() -> nat;

    /// The residue that a value stands for.
    spec fn val(&self) -> nat;

    /// Whether the value is a valid representation of a residue.
    spec fn wf(&self) -> bool;

    /// Valid values stand for residues below the modulus, and the modulus
    /// is at least two.
    proof fn lemma_residue(x: Self)
        ensures
            Self::modulus() >= 2,
            x.wf() ==> x.val() < Self::modulus(),
    ;

    /// The neutral element.
    fn zero() -> (r: Self)
        ensures
            r.wf(),
            r.val() == 0,
    ;

    /// The residue one.
    fn one() -> (r: Self)
        ensures
            r.wf(),
            r.val() == 1,
    ;

    /// The residue of an arbitrary 64-bit number.
    fn from_u64(x: u64) -> (r: Self)
        ensures
            r.wf(),
            r.val() == (x as nat) % Self::modulus(),
    ;

    /// Adds `other` to `self`.
    fn add(&mut self, other: &Self)
        requires
            old(self).wf(),
            other.wf(),
        ensures
            final(self).wf(),
            final(self).val() == add_mod(old(self).val(), other.val(), Self::modulus()),
    ;

    /// Subtracts `other` from `self`.
    fn sub(&mut self, other: &Self)
        requires
            old(self).wf(),
            other.wf(),
        ensures
            final(self).wf(),
            final(self).val() == sub_mod(old(self).val(), other.val(), Self::modulus()),
    ;

    /// Multiplies `self` by `other`.
    fn mul(&mut self, other: &Self)
        requires
            old(self).wf(),
            other.wf(),
        ensures
            final(self).wf(),
            final(self).val() == mul_mod(old(self).val(), other.val(), Self::modulus()),
    ;

    /// Replaces `self` by its additive inverse.
    fn negate(&mut self)
        requires
            old(self).wf(),
        ensures
            final(self).wf(),
            final(self).val() == neg_mod(old(self).val(), Self::modulus()),
    ;

    /// Whether the residue of `self` is at least that of `other`.
    fn at_least(&self, other: &Self) -> (b: bool)
        requires
            self.wf(),
            other.wf(),
        ensures
            b == (self.val() >= other.val()),
    ;
}

impl Group for u64 {
    open spec fn modulus() -> nat {
        two_to_64()
    }

    open spec fn val(&self) -> nat {
        *self as nat
    }

    open spec fn wf(&self) -> bool {
        true
    }

    proof fn lemma_residue(x: Self) {
    }

    fn zero() -> (r: Self) {
        0u64
    }

    fn one() -> (r: Self) {
        1u64
    }

    fn from_u64(x: u64) -> (r: Self) {
        proof {
            lemma_small_mod(x as nat, two_to_64());
        }
        x
    }

    fn add(&mut self, other: &Self) {
        let wide: u128 = *self as u128 + *other as u128;
        *self = (wide % 0x1_0000_0000_0000_0000u128) as u64;
    }

    fn sub(&mut self, other: &Self) {
        let wide: u128 = 0x1_0000_0000_0000_0000u128 + *self as u128 - *other as u128;
        proof {
            lemma_mod_add_multiples_vanish(*self - *other, two_to_64() as int);
        }
        *self = (wide % 0x1_0000_0000_0000_0000u128) as u64;
    }

    fn mul(&mut self, other: &Self) {
        proof {
            assert((*self as u128) * (*other as u128) <= 0xffff_ffff_ffff_ffffu128
                * 0xffff_ffff_ffff_ffffu128) by (nonlinear_arith)
                requires
                    *self as u128 <= 0xffff_ffff_ffff_ffffu128,
                    *other as u128 <= 0xffff_ffff_ffff_ffffu128,
            ;
        }
        let wide: u128 = (*self as u128) * (*other as u128);
        *self = (wide % 0x1_0000_0000_0000_0000u128) as u64;
    }

    fn negate(&mut self) {
        let wide: u128 = 0x1_0000_0000_0000_0000u128 - *self as u128;
        proof {
            lemma_mod_add_multiples_vanish(0 - *self, two_to_64() as int);
        }
        *self = (wide % 0x1_0000_0000_0000_0000u128) as u64;
    }

    fn at_least(&self, other: &Self) -> (b: bool) {
        *self >= *other
    }
}

} // verus!
