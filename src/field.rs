use ark_bn254::Fr;
use ark_ff::{BigInt, PrimeField};
use vstd::prelude::*;

verus! {

/// The modulus of the BN254 scalar field.
pub open spec fn fr_modulus() -> nat {
    21888242871839275222246405745257275088548364400416034343698204186575808495617nat
}

/// A field element, held as the little-endian 64-bit limbs of its canonical
/// integer representative.
#[derive(Clone, Copy, Debug, PartialEq, Eq)]
pub struct Element {
    pub limbs: [u64; 4],
}

impl Element {
    /// The integer that the limbs spell out.
    pub open spec fn value(self) -> nat {
        (self.limbs@[0] as nat + self.limbs@[1] as nat * 0x1_0000_0000_0000_0000nat
            + self.limbs@[2] as nat * 0x1_0000_0000_0000_0000_0000_0000_0000_0000nat
            + self.limbs@[3] as nat
            * 0x1_0000_0000_0000_0000_0000_0000_0000_0000_0000_0000_0000_0000nat) as nat
    }

    /// The representative is reduced, as every element of the field is.
    pub open spec fn canonical(self) -> bool {
        self.value() < fr_modulus()
    }

    /// The additive identity.
    pub fn zero() -> (r: Element)
        ensures
            r.value() == 0,
            r == Element::spec_zero(),
    {
        Element { limbs: [0, 0, 0, 0] }
    }

    /// The multiplicative identity.
    pub fn one() -> (r: Element)
        ensures
            r.value() == 1,
            r == Element::spec_one(),
    {
        Element { limbs: [1, 0, 0, 0] }
    }

    pub open spec fn spec_zero() -> Element {
        Element { limbs: [0, 0, 0, 0] }
    }

    pub open spec fn spec_one() -> Element {
        Element { limbs: [1, 0, 0, 0] }
    }
}

/// Relies on ark_ff's `PrimeField::from_bigint` / `into_bigint` for `Fr` and on
/// `Fr`'s `+`: the sum of two reduced elements, reduced modulo the field order.
#[verifier::external_body]
pub(crate) fn fr_add(x: Element, y: Element) -> (r: Element)
    requires
        x.canonical(),
        y.canonical(),
    ensures
        r.canonical(),
        r.value() as int == (x.value() + y.value()) as int % (fr_modulus() as int),
{
    let a = Fr::from_bigint(BigInt::new(x.limbs)).unwrap();
    let b = Fr::from_bigint(BigInt::new(y.limbs)).unwrap();
    Element { limbs: (a + b).into_bigint().0 }
}

/// Relies on ark_ff's `PrimeField::from_bigint` / `into_bigint` for `Fr` and on
/// `Fr`'s `*`: the product of two reduced elements, reduced modulo the field order.
#[verifier::external_body]
pub(crate) fn fr_mul(x: Element, y: Element) -> (r: Element)
    requires
        x.canonical(),
        y.canonical(),
    ensures
        r.canonical(),
        r.value() as int == (x.value() * y.value()) as int % (fr_modulus() as int),
{
    let a = Fr::from_bigint(BigInt::new(x.limbs)).unwrap();
    let b = Fr::from_bigint(BigInt::new(y.limbs)).unwrap();
    Element { limbs: (a * b).into_bigint().0 }
}

} // verus!
