//! The base field of the Pallas curve, over the arithmetic of `halo2_proofs::pasta`.
use crate::algebra::{
    add_mod, inverts, lemma_add_reduce, lemma_cancel, lemma_mul_reduce, lemma_pow_bound,
    lemma_pow_reduce, mul_mod, neg_mod, pow_mod,
};
use crate::field::{PrimeField, Words};
use ff::BatchInvert;
use ff::PrimeField as _;
use halo2_proofs::arithmetic::Field;
use halo2_proofs::arithmetic::FieldExt;
use halo2_proofs::pasta::Fp as PallasBase;
use vstd::arithmetic::div_mod::{lemma_mod_twice, lemma_small_mod};
use vstd::prelude::*;

verus! {

/// The order of the field.
pub open spec fn fp_modulus() -> nat {
    0x40000000000000000000000000000000224698fc094cf91b992d30ed00000001nat
}

/// `2^64`.
pub open spec fn word_base() -> nat {
    0x10000000000000000nat
}

/// `2^256`, the radix of the Montgomery form.
pub open spec fn montgomery_radix() -> nat {
    0x10000000000000000000000000000000000000000000000000000000000000000nat
}

/// The inverse of [`montgomery_radix`] in the field.
spec fn montgomery_radix_inverse() -> nat {
    0x21f1c4ff1e2278d570cb2996efc89a65ac9fba6a4077fc57cf3f8e8753a769a9nat
}

/// The integer that four little-endian words stand for.
pub open spec fn limbs_value(l: Seq<u64>) -> nat {
    l[0] as nat + word_base() * (l[1] as nat + word_base() * (l[2] as nat + word_base() * (
    l[3] as nat)))
}

/// The four little-endian words of an integer below `2^256`.
pub open spec fn words_of_integer(n: nat) -> Words {
    let n1 = n / word_base();
    let n2 = n1 / word_base();
    let n3 = n2 / word_base();
    (
        (n % word_base()) as u64,
        (n1 % word_base()) as u64,
        (n2 % word_base()) as u64,
        (n3 % word_base()) as u64,
    )
}

proof fn lemma_words_of_limbs(l: Seq<u64>)
    requires
        l.len() == 4,
    ensures
        words_of_integer(limbs_value(l)) == (l[0], l[1], l[2], l[3]),
{
}

proof fn lemma_words_determine_integer(a: nat, b: nat)
    requires
        a < montgomery_radix(),
        b < montgomery_radix(),
        words_of_integer(a) == words_of_integer(b),
    ensures
        a == b,
{
}

/// An element of the field, held as four little-endian words of any representative.
#[derive(Clone, Copy, Debug)]
pub struct Fp {
    limbs: [u64; 4],
}

impl Fp {
    pub closed spec fn limbs(self) -> Seq<u64> {
        self.limbs@
    }

    /// The element that is congruent to the integer in four little-endian words.
    pub fn from_raw(limbs: [u64; 4]) -> (r: Self)
        ensures
            r.value() == limbs_value(limbs@) % fp_modulus(),
    {
        Fp { limbs }
    }

    /// The least representative of the element, as four little-endian words.
    pub fn to_limbs(self) -> (r: [u64; 4])
        ensures
            limbs_value(r@) == self.value(),
    {
        let one: [u64; 4] = [1, 0, 0, 0];
        assert(limbs_value(one@) == 1);
        fp_mul(self.limbs, one)
    }
}

/// `halo2_proofs::pasta::Fp::add`: the sum in the field, in its least representative.
///
/// The operands enter through `Fp::from_raw`, which takes any integer to its residue, and the
/// result leaves through `to_repr`, the little-endian bytes of the least representative; this
/// holds of the other operations too.
#[verifier::external_body]
fn fp_add(a: [u64; 4], b: [u64; 4]) -> (r: [u64; 4])
    ensures
        limbs_value(r@) == add_mod(fp_modulus(), limbs_value(a@), limbs_value(b@)),
{
    let v = (PallasBase::from_raw(a) + PallasBase::from_raw(b)).to_repr();
    [
        u64::from_le_bytes(v[0..8].try_into().unwrap()),
        u64::from_le_bytes(v[8..16].try_into().unwrap()),
        u64::from_le_bytes(v[16..24].try_into().unwrap()),
        u64::from_le_bytes(v[24..32].try_into().unwrap()),
    ]
}

/// `halo2_proofs::pasta::Fp::mul`: the product in the field, in its least representative.
#[verifier::external_body]
fn fp_mul(a: [u64; 4], b: [u64; 4]) -> (r: [u64; 4])
    ensures
        limbs_value(r@) == mul_mod(fp_modulus(), limbs_value(a@), limbs_value(b@)),
{
    let v = (PallasBase::from_raw(a) * PallasBase::from_raw(b)).to_repr();
    [
        u64::from_le_bytes(v[0..8].try_into().unwrap()),
        u64::from_le_bytes(v[8..16].try_into().unwrap()),
        u64::from_le_bytes(v[16..24].try_into().unwrap()),
        u64::from_le_bytes(v[24..32].try_into().unwrap()),
    ]
}

/// `halo2_proofs::pasta::Fp::neg`: the negation in the field, in its least representative.
#[verifier::external_body]
fn fp_neg(a: [u64; 4]) -> (r: [u64; 4])
    ensures
        limbs_value(r@) == neg_mod(fp_modulus(), limbs_value(a@)),
{
    let v = (-PallasBase::from_raw(a)).to_repr();
    [
        u64::from_le_bytes(v[0..8].try_into().unwrap()),
        u64::from_le_bytes(v[8..16].try_into().unwrap()),
        u64::from_le_bytes(v[16..24].try_into().unwrap()),
        u64::from_le_bytes(v[24..32].try_into().unwrap()),
    ]
}

/// `ff::Field::pow_vartime` of `halo2_proofs::pasta::Fp`, with an exponent of one word: the power
/// in the field, in its least representative.
#[verifier::external_body]
fn fp_pow(a: [u64; 4], exp: u64) -> (r: [u64; 4])
    ensures
        limbs_value(r@) == pow_mod(fp_modulus(), limbs_value(a@), exp as nat),
{
    let v = PallasBase::from_raw(a).pow_vartime([exp]).to_repr();
    [
        u64::from_le_bytes(v[0..8].try_into().unwrap()),
        u64::from_le_bytes(v[8..16].try_into().unwrap()),
        u64::from_le_bytes(v[16..24].try_into().unwrap()),
        u64::from_le_bytes(v[24..32].try_into().unwrap()),
    ]
}

/// `PartialEq::eq` of `halo2_proofs::pasta::Fp`: whether the two are the same residue.
#[verifier::external_body]
fn fp_eq(a: [u64; 4], b: [u64; 4]) -> (r: bool)
    ensures
        r == (limbs_value(a@) % fp_modulus() == limbs_value(b@) % fp_modulus()),
{
    PallasBase::from_raw(a) == PallasBase::from_raw(b)
}

/// `halo2_proofs::arithmetic::FieldExt::DELTA` of `halo2_proofs::pasta::Fp`: the constant that the
/// crate writes down for the power `2^32` of the generator 5.
#[verifier::external_body]
fn fp_delta() -> (r: [u64; 4])
    ensures
        limbs_value(r@) == fp_delta_value(),
{
    let v = <PallasBase as FieldExt>::DELTA.to_repr();
    [
        u64::from_le_bytes(v[0..8].try_into().unwrap()),
        u64::from_le_bytes(v[8..16].try_into().unwrap()),
        u64::from_le_bytes(v[16..24].try_into().unwrap()),
        u64::from_le_bytes(v[24..32].try_into().unwrap()),
    ]
}

/// `ff::BatchInvert::batch_invert` over elements of `halo2_proofs::pasta::Fp`: each nonzero
/// element becomes its inverse in the field, and zeros stay.
#[verifier::external_body]
fn fp_batch_invert(values: &mut Vec<Fp>)
    ensures
        final(values)@.len() == old(values)@.len(),
        forall|i: int|
            0 <= i < old(values)@.len() ==> inverts(
                fp_modulus(),
                old(values)@[i].value(),
                (#[trigger] final(values)@[i]).value(),
            ),
{
    let mut xs: Vec<PallasBase> = values.iter().map(|x| PallasBase::from_raw(x.limbs)).collect();
    xs.iter_mut().batch_invert();
    for (x, y) in values.iter_mut().zip(xs) {
        let v = y.to_repr();
        x.limbs = [
            u64::from_le_bytes(v[0..8].try_into().unwrap()),
            u64::from_le_bytes(v[8..16].try_into().unwrap()),
            u64::from_le_bytes(v[16..24].try_into().unwrap()),
            u64::from_le_bytes(v[24..32].try_into().unwrap()),
        ];
    }
}

/// The representative of the generator of the subgroup of odd order, `5^(2^32)`.
pub open spec fn fp_delta_value() -> nat {
    0x0a757d0f0006ab6cbd455b7112a5049df5e4f3f13eee56366a6ccd20dd7b9ba2nat
}

impl PrimeField for Fp {
    open spec fn modulus() -> nat {
        fp_modulus()
    }

    open spec fn value(self) -> nat {
        limbs_value(self.limbs()) % fp_modulus()
    }

    /// The words of the Montgomery form `v 2^256`, in which `halo2_proofs::pasta::Fp` keeps its
    /// elements.
    open spec fn words_of(v: nat) -> Words {
        words_of_integer(mul_mod(fp_modulus(), v, montgomery_radix()))
    }

    open spec fn delta_value() -> nat {
        fp_delta_value()
    }

    proof fn lemma_modulus() {
    }

    proof fn lemma_value(self) {
    }

    proof fn lemma_words(a: nat, b: nat) {
        let p = fp_modulus();
        let r = montgomery_radix();
        lemma_words_determine_integer(mul_mod(p, a, r), mul_mod(p, b, r));
        assert(mul_mod(p, r, montgomery_radix_inverse()) == 1);
        lemma_cancel(p, a, b, r, montgomery_radix_inverse());
    }

    fn zero() -> (r: Self) {
        Fp { limbs: [0, 0, 0, 0] }
    }

    fn one() -> (r: Self) {
        Fp { limbs: [1, 0, 0, 0] }
    }

    fn delta() -> (r: Self) {
        Fp { limbs: fp_delta() }
    }

    fn add(self, rhs: Self) -> (r: Self) {
        proof {
            let (a, b) = (limbs_value(self.limbs@), limbs_value(rhs.limbs@));
            lemma_add_reduce(fp_modulus(), a, b);
            lemma_mod_twice((a + b) as int, fp_modulus() as int);
        }
        Fp { limbs: fp_add(self.limbs, rhs.limbs) }
    }

    fn mul(self, rhs: Self) -> (r: Self) {
        proof {
            let (a, b) = (limbs_value(self.limbs@), limbs_value(rhs.limbs@));
            lemma_mul_reduce(fp_modulus(), a, b);
            lemma_mod_twice((a * b) as int, fp_modulus() as int);
        }
        Fp { limbs: fp_mul(self.limbs, rhs.limbs) }
    }

    fn neg(self) -> (r: Self) {
        proof {
            lemma_mod_twice(limbs_value(self.limbs@) as int, fp_modulus() as int);
        }
        Fp { limbs: fp_neg(self.limbs) }
    }

    fn pow(self, exp: u64) -> (r: Self) {
        proof {
            let a = limbs_value(self.limbs@);
            lemma_pow_reduce(fp_modulus(), a, exp as nat);
            lemma_pow_bound(fp_modulus(), a, exp as nat);
            lemma_small_mod(pow_mod(fp_modulus(), a, exp as nat), fp_modulus());
        }
        Fp { limbs: fp_pow(self.limbs, exp) }
    }

    fn equals(self, rhs: Self) -> (r: bool) {
        fp_eq(self.limbs, rhs.limbs)
    }

    fn words(self) -> (r: Words) {
        let m = fp_mul(
            self.limbs,
            [0x34786d38fffffffd, 0x992c350be41914ad, 0xffffffffffffffff, 0x3fffffffffffffff],
        );
        proof {
            let p = fp_modulus();
            let a = limbs_value(self.limbs@);
            let r = 0x3fffffffffffffffffffffffffffffff992c350be41914ad34786d38fffffffdnat;
            assert(montgomery_radix() % p == r);
            lemma_mul_reduce(p, a, montgomery_radix());
            lemma_words_of_limbs(m@);
        }
        (m[0], m[1], m[2], m[3])
    }

    fn batch_invert(values: &mut Vec<Self>) {
        fp_batch_invert(values)
    }
}

/// Law of the words: each weighs `2^64` times the one before it.
pub proof fn lemma_limbs(l: Seq<u64>)
    ensures
        limbs_value(l) == l[0] + 0x10000000000000000 * l[1]
            + 0x100000000000000000000000000000000 * l[2]
            + 0x1000000000000000000000000000000000000000000000000 * l[3],
{
}

/// Law of the memory words: little-endian, they hold the element times `2^256`, reduced.
pub proof fn lemma_memory_words(v: nat)
    ensures
        ({
            let w = Fp::words_of(v);
            w.0 + 0x10000000000000000 * w.1 + 0x100000000000000000000000000000000 * w.2
                + 0x1000000000000000000000000000000000000000000000000 * w.3 == (v
                * 0x10000000000000000000000000000000000000000000000000000000000000000nat)
                % 0x40000000000000000000000000000000224698fc094cf91b992d30ed00000001nat
        }),
{
}

} // verus!
