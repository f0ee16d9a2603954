//! Elements of a prime field, as the prover sees them.
use crate::algebra::{add_mod, inverts, mul_mod, neg_mod, pow_mod};
use vstd::prelude::*;

verus! {

/// The four 64-bit words in which a field element stands in memory.
pub type Words = (u64, u64, u64, u64);

/// A prime field whose elements fit in four 64-bit words.
///
/// Contracts speak of an element through [`PrimeField::value`], its least nonnegative
/// representative.
pub trait PrimeField: Copy + Send + Sync {
    /// The order of the field.
    spec fn modulus() -> nat;

    /// The representative of the element in `0..modulus()`.
    spec fn value(self) -> nat;

    /// The memory words of the element with representative `v`.
    spec fn words_of(v: nat) -> Words;

    /// The representative of the coset generator that separates the columns of a permutation
    /// argument.
    spec fn delta_value() -> nat;

    proof fn lemma_modulus()
        ensures
            Self::modulus() > 1,
    ;

    proof fn lemma_value(self)
        ensures
            self.value() < Self::modulus(),
    ;

    /// Distinct elements have distinct words.
    proof fn lemma_words(a: nat, b: nat)
        requires
            a < Self::modulus(),
            b < Self::modulus(),
            Self::words_of(a) == Self::words_of(b),
        ensures
            a == b,
    ;

    fn zero() -> (r: Self)
        ensures
            r.value() == 0,
    ;

    fn one() -> (r: Self)
        ensures
            r.value() == 1,
    ;

    fn delta() -> (r: Self)
        ensures
            r.value() == Self::delta_value(),
    ;

    fn add(self, rhs: Self) -> (r: Self)
        ensures
            r.value() == add_mod(Self::modulus(), self.value(), rhs.value()),
    ;

    fn mul(self, rhs: Self) -> (r: Self)
        ensures
            r.value() == mul_mod(Self::modulus(), self.value(), rhs.value()),
    ;

    fn neg(self) -> (r: Self)
        ensures
            r.value() == neg_mod(Self::modulus(), self.value()),
    ;

    fn pow(self, exp: u64) -> (r: Self)
        ensures
            r.value() == pow_mod(Self::modulus(), self.value(), exp as nat),
    ;

    fn equals(self, rhs: Self) -> (r: bool)
        ensures
            r == (self.value() == rhs.value()),
    ;

    fn words(self) -> (r: Words)
        ensures
            r == Self::words_of(self.value()),
    ;

    /// Replaces each nonzero element by its inverse; zeros stay.
    fn batch_invert(values: &mut Vec<Self>)
        ensures
            final(values)@.len() == old(values)@.len(),
            forall|i: int|
                0 <= i < old(values)@.len() ==> inverts(
                    Self::modulus(),
                    old(values)@[i].value(),
                    (#[trigger] final(values)@[i]).value(),
                ),
    ;
}

/// The representatives of a column of elements.
pub open spec fn values<F: PrimeField>(s: Seq<F>) -> Seq<nat> {
    s.map_values(|x: F| x.value())
}

/// The representatives of several columns.
pub open spec fn columns<F: PrimeField>(s: Seq<Vec<F>>) -> Seq<Seq<nat>> {
    s.map_values(|c: Vec<F>| values(c@))
}

/// The representatives of several borrowed columns.
pub open spec fn slices<F: PrimeField>(s: Seq<&[F]>) -> Seq<Seq<nat>> {
    s.map_values(|c: &[F]| values(c@))
}

/// A column of `len` zeros.
pub open spec fn zeros(len: nat) -> Seq<nat> {
    Seq::new(len, |i: int| 0nat)
}

/// A column of `len` copies of `x`.
pub fn repeat<F: PrimeField>(x: F, len: usize) -> (r: Vec<F>)
    ensures
        r@ == Seq::new(len as nat, |i: int| x),
{
    let mut r: Vec<F> = Vec::new();
    for i in 0..len
        invariant
            r@ == Seq::new(i as nat, |k: int| x),
    {
        r.push(x);
        assert(r@ =~= Seq::new((i + 1) as nat, |k: int| x));
    }
    r
}

/// The columns as slices, in order.
pub fn borrow_columns<F: PrimeField>(cols: &Vec<Vec<F>>) -> (r: Vec<&[F]>)
    ensures
        slices(r@) == columns(cols@),
        r@.len() == cols@.len(),
        forall|i: int| 0 <= i < cols@.len() ==> (#[trigger] r@[i])@ == cols@[i]@,
{
    let mut r: Vec<&[F]> = Vec::new();
    for i in 0..cols.len()
        invariant
            r@.len() == i,
            forall|k: int| 0 <= k < i ==> (#[trigger] r@[k])@ == cols@[k]@,
    {
        r.push(cols[i].as_slice());
    }
    assert(slices(r@) =~= columns(cols@));
    r
}

/// Law of the columns: the representatives stand in the places of their elements.
pub proof fn lemma_values<F: PrimeField>(s: Seq<F>, i: int)
    ensures
        values(s).len() == s.len(),
        0 <= i < s.len() ==> values(s)[i] == s[i].value(),
{
}

/// Law of the columns: the representatives stand in the places of their elements, column by
/// column.
pub proof fn lemma_columns<F: PrimeField>(s: Seq<Vec<F>>, c: int, i: int)
    ensures
        columns(s).len() == s.len(),
        0 <= c < s.len() ==> columns(s)[c].len() == s[c]@.len(),
        0 <= c < s.len() && 0 <= i < s[c]@.len() ==> columns(s)[c][i] == s[c]@[i].value(),
{
}

/// Law of the borrowed columns: they hold what their elements stand for.
pub proof fn lemma_slices<F: PrimeField>(s: Seq<&[F]>, c: int, i: int)
    ensures
        slices(s).len() == s.len(),
        0 <= c < s.len() ==> slices(s)[c].len() == s[c]@.len(),
        0 <= c < s.len() && 0 <= i < s[c]@.len() ==> slices(s)[c][i] == s[c]@[i].value(),
{
}

/// Law of the zeros: nothing but zeros.
pub proof fn lemma_zeros(len: nat, i: int)
    ensures
        zeros(len).len() == len,
        0 <= i < len ==> zeros(len)[i] == 0,
{
}

} // verus!
