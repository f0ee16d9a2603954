//! Arithmetic of residues modulo `p`, as mathematical functions on naturals, with the facts about
//! products, powers and inverses that the prover's contracts rest on.
use vstd::arithmetic::div_mod::*;
use vstd::arithmetic::mul::*;
use vstd::arithmetic::power::pow;
use vstd::prelude::*;
use vstd::seq_lib::*;

verus! {

/// The residue of `a + b`.
pub open spec fn add_mod(p: nat, a: nat, b: nat) -> nat {
    (a + b) % p
}

/// The residue of `a * b`.
pub open spec fn mul_mod(p: nat, a: nat, b: nat) -> nat {
    (a * b) % p
}

/// The residue of `-a`.
pub open spec fn neg_mod(p: nat, a: nat) -> nat {
    ((p - a % p) as nat) % p
}

/// The residue of `a` to the power `e`.
pub open spec fn pow_mod(p: nat, a: nat, e: nat) -> nat
    decreases e,
{
    if e == 0 {
        1nat % p
    } else {
        mul_mod(p, pow_mod(p, a, (e - 1) as nat), a)
    }
}

/// `r` is what inversion makes of `a`: the inverse where `a` is not zero, and zero where it is.
pub open spec fn inverts(p: nat, a: nat, r: nat) -> bool {
    &&& r < p
    &&& a % p == 0 ==> r == 0
    &&& a % p != 0 ==> mul_mod(p, a, r) == 1
}

/// The inverse of `a`, or zero where `a` has none.
pub open spec fn inv_mod(p: nat, a: nat) -> nat {
    if exists|r: nat| inverts(p, a, r) {
        choose|r: nat| inverts(p, a, r)
    } else {
        0
    }
}

/// The product of the factors in `s`.
pub open spec fn product(p: nat, s: Seq<nat>) -> nat
    decreases s.len(),
{
    if s.len() == 0 {
        1nat % p
    } else {
        mul_mod(p, product(p, s.drop_last()), s.last())
    }
}

pub proof fn lemma_mul_commutes(p: nat, a: nat, b: nat)
    ensures
        mul_mod(p, a, b) == mul_mod(p, b, a),
{
    lemma_mul_is_commutative(a as int, b as int);
}

pub proof fn lemma_mul_assoc(p: nat, a: nat, b: nat, c: nat)
    requires
        p > 0,
    ensures
        mul_mod(p, mul_mod(p, a, b), c) == mul_mod(p, a, mul_mod(p, b, c)),
        mul_mod(p, mul_mod(p, a, b), c) == (a * b * c) % p,
{
    lemma_mul_mod_noop_left((a * b) as int, c as int, p as int);
    lemma_mul_mod_noop_right(a as int, (b * c) as int, p as int);
    lemma_mul_is_associative(a as int, b as int, c as int);
}

/// `(a b)(c d) = (a c)(b d)`.
pub proof fn lemma_mul_swap(p: nat, a: nat, b: nat, c: nat, d: nat)
    requires
        p > 0,
    ensures
        mul_mod(p, mul_mod(p, a, b), mul_mod(p, c, d)) == mul_mod(
            p,
            mul_mod(p, a, c),
            mul_mod(p, b, d),
        ),
{
    lemma_mul_mod_noop((a * b) as int, (c * d) as int, p as int);
    lemma_mul_mod_noop((a * c) as int, (b * d) as int, p as int);
    assert((a * b) * (c * d) == (a * c) * (b * d)) by (nonlinear_arith);
}

pub proof fn lemma_mul_one(p: nat, a: nat)
    requires
        p > 1,
        a < p,
    ensures
        mul_mod(p, a, 1) == a,
        mul_mod(p, 1, a) == a,
        mul_mod(p, a, 1nat % p) == a,
{
    lemma_small_mod(a, p);
    lemma_small_mod(1, p);
}

/// Factors may be reduced before they are multiplied.
pub proof fn lemma_mul_reduce(p: nat, a: nat, b: nat)
    requires
        p > 0,
    ensures
        mul_mod(p, a % p, b) == mul_mod(p, a, b),
        mul_mod(p, a, b % p) == mul_mod(p, a, b),
        mul_mod(p, a % p, b % p) == mul_mod(p, a, b),
{
    lemma_mul_mod_noop_left(a as int, b as int, p as int);
    lemma_mul_mod_noop_right(a as int, b as int, p as int);
    lemma_mul_mod_noop(a as int, b as int, p as int);
}

/// Terms may be reduced before they are added.
pub proof fn lemma_add_reduce(p: nat, a: nat, b: nat)
    requires
        p > 0,
    ensures
        add_mod(p, a % p, b) == add_mod(p, a, b),
        add_mod(p, a, b % p) == add_mod(p, a, b),
        add_mod(p, a % p, b % p) == add_mod(p, a, b),
{
    lemma_add_mod_noop(a as int, b as int, p as int);
    lemma_add_mod_noop_right(a as int, b as int, p as int);
    lemma_add_mod_noop_right(b as int, a as int, p as int);
}

/// A factor that has an inverse can be cancelled.
pub proof fn lemma_cancel(p: nat, a: nat, b: nat, d: nat, e: nat)
    requires
        p > 1,
        a < p,
        b < p,
        mul_mod(p, d, e) == 1,
        mul_mod(p, a, d) == mul_mod(p, b, d),
    ensures
        a == b,
{
    lemma_mul_assoc(p, a, d, e);
    lemma_mul_assoc(p, b, d, e);
    lemma_mul_one(p, a);
    lemma_mul_one(p, b);
}

/// What inversion makes of a residue is determined by the residue.
pub proof fn lemma_inverse_unique(p: nat, a: nat, r: nat)
    requires
        p > 1,
        inverts(p, a, r),
    ensures
        inv_mod(p, a) == r,
{
    let s = inv_mod(p, a);
    assert(inverts(p, a, s));
    if a % p != 0 {
        lemma_mul_commutes(p, a, r);
        lemma_mul_commutes(p, a, s);
        lemma_cancel(p, r, s, a, r);
    }
}

pub proof fn lemma_product_bound(p: nat, s: Seq<nat>)
    requires
        p > 0,
    ensures
        product(p, s) < p,
{
}

/// One more factor at the end.
pub proof fn lemma_product_push(p: nat, s: Seq<nat>, x: nat)
    ensures
        product(p, s.push(x)) == mul_mod(p, product(p, s), x),
{
    assert(s.push(x).drop_last() =~= s);
}

/// Any one factor can be taken out of a product.
pub proof fn lemma_product_remove(p: nat, s: Seq<nat>, i: int)
    requires
        p > 0,
        0 <= i < s.len(),
    ensures
        product(p, s) == mul_mod(p, product(p, s.remove(i)), s[i]),
    decreases s.len(),
{
    let last = s.last();
    if i == s.len() - 1 {
        assert(s.remove(i) =~= s.drop_last());
    } else {
        let t = s.drop_last();
        lemma_product_remove(p, t, i);
        assert(s.remove(i).drop_last() =~= t.remove(i));
        assert(s.remove(i).last() == last);
        let q = product(p, t.remove(i));
        lemma_mul_assoc(p, q, s[i], last);
        lemma_mul_assoc(p, q, last, s[i]);
        lemma_mul_commutes(p, s[i], last);
    }
}

/// A product does not depend on the order of its factors.
pub proof fn lemma_product_permutation(p: nat, s: Seq<nat>, t: Seq<nat>)
    requires
        p > 0,
        s.to_multiset() == t.to_multiset(),
    ensures
        product(p, s) == product(p, t),
    decreases s.len(),
{
    broadcast use group_to_multiset_ensures;

    s.to_multiset_ensures();
    t.to_multiset_ensures();
    assert(s.len() == t.len());
    if s.len() > 0 {
        let x = s.last();
        assert(s.contains(x));
        assert(t.to_multiset().count(x) > 0);
        assert(t.contains(x));
        let i = t.index_of(x);
        assert(s.remove(s.len() - 1) =~= s.drop_last());
        assert(s.drop_last().to_multiset() =~= t.remove(i).to_multiset());
        lemma_product_permutation(p, s.drop_last(), t.remove(i));
        lemma_product_remove(p, t, i);
    }
}

/// Sequences with the same elements, counted, have images with the same elements, counted.
pub proof fn lemma_map_permutation<A, B>(s: Seq<A>, t: Seq<A>, f: spec_fn(A) -> B)
    requires
        s.to_multiset() == t.to_multiset(),
    ensures
        s.map_values(f).to_multiset() == t.map_values(f).to_multiset(),
    decreases s.len(),
{
    broadcast use group_to_multiset_ensures;

    s.to_multiset_ensures();
    t.to_multiset_ensures();
    assert(s.len() == t.len());
    if s.len() == 0 {
        assert(s.map_values(f) =~= t.map_values(f));
    } else {
        let x = s.last();
        assert(s.contains(x));
        assert(t.to_multiset().count(x) > 0);
        let i = t.index_of(x);
        assert(s.remove(s.len() - 1) =~= s.drop_last());
        assert(s.drop_last().to_multiset() =~= t.remove(i).to_multiset());
        lemma_map_permutation(s.drop_last(), t.remove(i), f);
        let fs = s.map_values(f);
        let ft = t.map_values(f);
        assert(fs =~= s.drop_last().map_values(f).push(f(x)));
        assert(ft.remove(i) =~= t.remove(i).map_values(f));
        assert(ft =~= ft.remove(i).insert(i, f(x)));
        to_multiset_insert(ft.remove(i), i, f(x));
        to_multiset_build(s.drop_last().map_values(f), f(x));
    }
}

/// Rearranging a sequence by a mapping of its places that can be undone keeps its elements,
/// counted.
pub proof fn lemma_rearranged<A>(
    s: Seq<A>,
    t: Seq<A>,
    to: spec_fn(int) -> int,
    back: spec_fn(int) -> int,
)
    requires
        t.len() == s.len(),
        forall|i: int|
            0 <= i < s.len() ==> 0 <= #[trigger] to(i) < s.len() && back(to(i)) == i && t[i]
                == s[to(i)],
        forall|i: int| 0 <= i < s.len() ==> 0 <= #[trigger] back(i) < s.len() && to(back(i)) == i,
    ensures
        t.to_multiset() == s.to_multiset(),
{
    let places = Seq::new(s.len(), |i: int| i);
    let moved = Seq::new(s.len(), |i: int| to(i));
    let pick = |i: int| s[i];
    assert(moved.no_duplicates()) by {
        assert forall|i: int, j: int|
            0 <= i < s.len() && 0 <= j < s.len() && i != j implies moved[i] != moved[j] by {
            assert(back(to(i)) == i && back(to(j)) == j);
        }
    }
    assert(moved.to_multiset() =~= places.to_multiset()) by {
        places.lemma_multiset_has_no_duplicates();
        moved.lemma_multiset_has_no_duplicates();
        assert forall|v: int| #[trigger] moved.to_multiset().count(v) == places.to_multiset().count(
            v,
        ) by {
            moved.to_multiset_ensures();
            places.to_multiset_ensures();
            if 0 <= v < s.len() {
                assert(places[v] == v);
                assert(places.contains(v));
                assert(moved[back(v)] == v);
                assert(moved.contains(v));
            } else {
                assert(!places.contains(v));
                assert(!moved.contains(v));
            }
        }
    }
    lemma_map_permutation(moved, places, pick);
    assert(moved.map_values(pick) =~= t);
    assert(places.map_values(pick) =~= s);
}

/// The product of pairwise products is the product of the two products.
pub proof fn lemma_product_pairwise(p: nat, s: Seq<nat>, t: Seq<nat>, st: Seq<nat>)
    requires
        p > 1,
        s.len() == t.len(),
        st.len() == s.len(),
        forall|i: int| 0 <= i < s.len() ==> #[trigger] st[i] == mul_mod(p, s[i], t[i]),
    ensures
        product(p, st) == mul_mod(p, product(p, s), product(p, t)),
    decreases s.len(),
{
    if s.len() == 0 {
        lemma_mul_one(p, 1);
    } else {
        lemma_product_pairwise(p, s.drop_last(), t.drop_last(), st.drop_last());
        lemma_mul_swap(
            p,
            product(p, s.drop_last()),
            product(p, t.drop_last()),
            s.last(),
            t.last(),
        );
    }
}

/// Products over consecutive stretches multiply.
pub proof fn lemma_product_concat(p: nat, s: Seq<nat>, t: Seq<nat>)
    requires
        p > 1,
    ensures
        product(p, s + t) == mul_mod(p, product(p, s), product(p, t)),
    decreases t.len(),
{
    if t.len() == 0 {
        assert(s + t =~= s);
        lemma_product_bound(p, s);
        lemma_mul_one(p, product(p, s));
    } else {
        assert((s + t).drop_last() =~= s + t.drop_last());
        lemma_product_concat(p, s, t.drop_last());
        lemma_mul_assoc(p, product(p, s), product(p, t.drop_last()), t.last());
    }
}

/// `a^(d + e) = a^d a^e`.
pub proof fn lemma_pow_sum(p: nat, a: nat, d: nat, e: nat)
    requires
        p > 1,
    ensures
        pow_mod(p, a, d + e) == mul_mod(p, pow_mod(p, a, d), pow_mod(p, a, e)),
    decreases e,
{
    lemma_pow_bound(p, a, d);
    if e == 0 {
        lemma_mul_one(p, pow_mod(p, a, d));
    } else {
        lemma_pow_sum(p, a, d, (e - 1) as nat);
        lemma_mul_assoc(p, pow_mod(p, a, d), pow_mod(p, a, (e - 1) as nat), a);
    }
}

pub proof fn lemma_pow_bound(p: nat, a: nat, e: nat)
    requires
        p > 0,
    ensures
        pow_mod(p, a, e) < p,
{
}

/// Where `a b = 1`, also `a^e b^e = 1`.
pub proof fn lemma_pow_inverse(p: nat, a: nat, b: nat, e: nat)
    requires
        p > 1,
        mul_mod(p, a, b) == 1,
    ensures
        mul_mod(p, pow_mod(p, a, e), pow_mod(p, b, e)) == 1,
    decreases e,
{
    if e == 0 {
        lemma_mul_one(p, 1);
    } else {
        let d = (e - 1) as nat;
        lemma_pow_inverse(p, a, b, d);
        lemma_mul_swap(p, pow_mod(p, a, d), a, pow_mod(p, b, d), b);
        lemma_mul_one(p, 1);
    }
}

/// A power does not depend on which representative of the residue is raised.
pub proof fn lemma_pow_reduce(p: nat, a: nat, e: nat)
    requires
        p > 0,
    ensures
        pow_mod(p, a % p, e) == pow_mod(p, a, e),
    decreases e,
{
    if e > 0 {
        lemma_pow_reduce(p, a, (e - 1) as nat);
        lemma_mul_reduce(p, pow_mod(p, a, (e - 1) as nat), a);
    }
}

/// Law of the sums: the residue of the sum of the integers, below `p`.
pub proof fn lemma_sum_is_a_residue(p: nat, a: nat, b: nat)
    requires
        p > 0,
    ensures
        add_mod(p, a, b) < p,
        exists|q: int| a + b == #[trigger] (q * p) + add_mod(p, a, b),
{
    lemma_fundamental_div_mod((a + b) as int, p as int);
    let q = (a + b) as int / p as int;
    lemma_mul_is_commutative(p as int, q);
    assert(a + b == (q * p) + add_mod(p, a, b));
}

/// Law of the products: the residue of the product of the integers, below `p`.
pub proof fn lemma_product_is_a_residue(p: nat, a: nat, b: nat)
    requires
        p > 0,
    ensures
        mul_mod(p, a, b) < p,
        exists|q: int| a * b == #[trigger] (q * p) + mul_mod(p, a, b),
{
    lemma_fundamental_div_mod((a * b) as int, p as int);
    let q = (a * b) as int / p as int;
    lemma_mul_is_commutative(p as int, q);
    assert(a * b == (q * p) + mul_mod(p, a, b));
}

/// Law of the negation: a residue and its negation add up to zero.
pub proof fn lemma_neg_cancels(p: nat, a: nat)
    requires
        p > 0,
    ensures
        neg_mod(p, a) < p,
        (a + neg_mod(p, a)) % p == 0,
{
    let r = (a % p) as int;
    lemma_fundamental_div_mod(a as int, p as int);
    if r == 0 {
        lemma_mod_self_0(p as int);
        lemma_add_reduce(p, a, 0);
    } else {
        lemma_small_mod((p - r) as nat, p);
        let q = a as int / p as int;
        assert(a + (p - r) == (q + 1) * p) by (nonlinear_arith)
            requires
                a == p * q + r,
        ;
        lemma_mod_multiples_basic(q + 1, p as int);
    }
}

/// Law of the powers: the residue of the power of the integers.
pub proof fn lemma_pow_is_power(p: nat, a: nat, e: nat)
    requires
        p > 0,
    ensures
        pow_mod(p, a, e) == pow(a as int, e) % p as int,
    decreases e,
{
    reveal(pow);
    if e > 0 {
        let before = pow(a as int, (e - 1) as nat);
        lemma_pow_is_power(p, a, (e - 1) as nat);
        lemma_mul_mod_noop_left(before, a as int, p as int);
        lemma_mul_is_commutative(before, a as int);
    }
}

/// Law of the products: the residue of the product of the integers, each of which stands for its
/// residue.
pub proof fn lemma_product_is_fold(p: nat, s: Seq<nat>, t: Seq<int>)
    requires
        p > 0,
        s.len() == t.len(),
        forall|i: int| 0 <= i < s.len() ==> (#[trigger] s[i]) as int % p as int == t[i] % p as int,
    ensures
        product(p, s) == t.fold_left(1int, |x: int, y: int| x * y) % p as int,
    decreases s.len(),
{
    let f = |x: int, y: int| x * y;
    if s.len() > 0 {
        assert forall|i: int| 0 <= i < s.drop_last().len() implies (
        #[trigger] s.drop_last()[i]) as int % p as int == t.drop_last()[i] % p as int by {
            assert(s[i] as int % p as int == t[i] % p as int);
        }
        lemma_product_is_fold(p, s.drop_last(), t.drop_last());
        let before = t.drop_last().fold_left(1int, f);
        let (x, y) = (s.last() as int, t.last());
        assert(x % p as int == y % p as int) by {
            assert(s[s.len() - 1] as int % p as int == t[s.len() - 1] % p as int);
        }
        lemma_mul_mod_noop_left(before, x, p as int);
        lemma_mul_mod_noop_right(before, x, p as int);
        lemma_mul_mod_noop_right(before, y, p as int);
    }
}

/// Law of the inverses: whatever multiplies with a residue to one is its inverse, and zero stays.
pub proof fn lemma_inverse_is_inverse(p: nat, a: nat, r: nat)
    requires
        p > 1,
        r < p,
    ensures
        (a * r) % p == 1 ==> inv_mod(p, a) == r,
        a % p == 0 ==> inv_mod(p, a) == 0,
{
    if a % p == 0 {
        assert(inverts(p, a, 0));
        lemma_inverse_unique(p, a, 0);
        lemma_mul_reduce(p, a, r);
        assert(0 * r == 0) by (nonlinear_arith);
        lemma_small_mod(0, p);
    } else if (a * r) % p == 1 {
        lemma_inverse_unique(p, a, r);
    }
}

/// Law of inversion: a nonzero residue times what becomes of it is one, and zero becomes zero.
pub proof fn lemma_inverts(p: nat, a: nat, r: nat)
    ensures
        inverts(p, a, r) <==> r < p && (if a % p == 0 {
            r == 0
        } else {
            (a * r) % p == 1
        }),
{
}

} // verus!
