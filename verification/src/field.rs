//! Arithmetic in the prime field with `2^64 - 2^32 + 1` elements.

use vstd::prelude::*;
use vstd::arithmetic::div_mod::*;
use crate::group::Group;

verus! {

/// The number of elements of the field, `2^64 - 2^32 + 1`.
pub const MODULUS: u64 = 0xffff_ffff_0000_0001u64;

/// An element of the field, held as the least non-negative residue.
#[derive(Clone, Copy, Debug, PartialEq, Eq, Structural, Hash)]
pub struct FieldElm {
    value: u64,
}

impl FieldElm {
    /// The residue held, as a number below [`MODULUS`].
    pub fn value(&self) -> (v: u64)
        requires
            self.wf(),
        ensures
            v as nat == self.val(),
            v < MODULUS,
    {
        self.value
    }
}

impl Group for FieldElm {
    open spec fn modulus() -> nat {
        MODULUS as nat
    }

    closed spec fn val(&self) -> nat {
        self.value as nat
    }

    closed spec fn wf(&self) -> bool {
        self.value < MODULUS
    }

    proof fn lemma_residue(x: Self) {
    }

    fn zero() -> (r: Self) {
        FieldElm { value: 0 }
    }

    fn one() -> (r: Self) {
        FieldElm { value: 1 }
    }

    fn from_u64(x: u64) -> (r: Self) {
        FieldElm { value: x % MODULUS }
    }

    fn add(&mut self, other: &Self) {
        let wide: u128 = self.value as u128 + other.value as u128;
        self.value = (wide % (MODULUS as u128)) as u64;
    }

    fn sub(&mut self, other: &Self) {
        let wide: u128 = MODULUS as u128 + self.value as u128 - other.value as u128;
        proof {
            lemma_mod_add_multiples_vanish(self.value - other.value, MODULUS as int);
        }
        self.value = (wide % (MODULUS as u128)) as u64;
    }

    fn mul(&mut self, other: &Self) {
        proof {
            assert((self.value as u128) * (other.value as u128) <= 0xffff_ffff_ffff_ffffu128
                * 0xffff_ffff_ffff_ffffu128) by (nonlinear_arith)
                requires
                    self.value as u128 <= 0xffff_ffff_ffff_ffffu128,
                    other.value as u128 <= 0xffff_ffff_ffff_ffffu128,
            ;
        }
        let wide: u128 = (self.value as u128) * (other.value as u128);
        self.value = (wide % (MODULUS as u128)) as u64;
    }

    fn negate(&mut self) {
        let wide: u128 = MODULUS as u128 - self.value as u128;
        proof {
            lemma_mod_add_multiples_vanish(0 - self.value, MODULUS as int);
        }
        self.value = (wide % (MODULUS as u128)) as u64;
    }

    fn at_least(&self, other: &Self) -> (b: bool) {
        self.value >= other.value
    }
}

impl From<u64> for FieldElm {
    /// The residue of an arbitrary 64-bit number.
    fn from(x: u64) -> (r: Self)
        ensures
            r.wf(),
            r.val() == (x as nat) % Self::modulus(),
    {
        FieldElm { value: x % MODULUS }
    }
}

impl vstd::std_specs::convert::FromSpecImpl<u64> for FieldElm {
    open spec fn obeys_from_spec() -> bool {
        true
    }

    closed spec fn from_spec(x: u64) -> Self {
        FieldElm { value: x % MODULUS }
    }
}

} // verus!
