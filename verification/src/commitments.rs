//! The order in which the permuted columns of the lookups are committed to, and that in which
//! their commitments enter the transcript.
use crate::circuit::{Lookup, ProvingKey};
use crate::field::PrimeField;
use crate::lookup_columns::{
    class_of, classify, lemma_member_count, lemma_members, lemma_rank, lookup_classify, members,
    rank, LookupClass,
};
use crate::opening::PolyId;
use vstd::prelude::*;

verus! {

/// The permuted columns of the first `n` lookups, pair by pair.
pub open spec fn pairs(n: nat) -> Seq<(PolyId, PolyId)> {
    Seq::new(n, |i: int| (PolyId::PermutedInput(i as usize), PolyId::PermutedTable(i as usize)))
}

/// The permuted columns of the first `n` lookups.
pub open spec fn permuted_ids(n: nat) -> Seq<PolyId> {
    Seq::new(
        2 * n,
        |k: int|
            if k % 2 == 0 {
                PolyId::PermutedInput((k / 2) as usize)
            } else {
                PolyId::PermutedTable((k / 2) as usize)
            },
    )
}

/// The pairs of some lookups, one column after the other.
pub open spec fn flat(s: Seq<(usize, (PolyId, PolyId))>) -> Seq<PolyId> {
    Seq::new(
        2 * s.len(),
        |k: int|
            if k % 2 == 0 {
                s[k / 2].1.0
            } else {
                s[k / 2].1.1
            },
    )
}

/// The permuted columns of the lookups of one class.
pub open spec fn class_ids<F>(lookups: Seq<Lookup<F>>, class: LookupClass) -> Seq<PolyId> {
    flat(members(lookups, pairs(lookups.len()), class, lookups.len() as int))
}

/// The permuted columns that do not depend on a challenge, in the order of their commitment.
pub open spec fn single_ids<F>(lookups: Seq<Lookup<F>>) -> Seq<PolyId> {
    class_ids(lookups, LookupClass::SingleUnit) + class_ids(lookups, LookupClass::SingleComp)
}

/// The permuted columns that depend on a challenge, in the order of their commitment.
pub open spec fn tuple_ids<F>(lookups: Seq<Lookup<F>>) -> Seq<PolyId> {
    class_ids(lookups, LookupClass::Tuple)
}

/// The commitments to the permuted columns, in the order of the lookups.
pub open spec fn placed<F, C>(lookups: Seq<Lookup<F>>, single: Seq<C>, tuple: Seq<C>) -> Seq<C> {
    Seq::new(
        2 * lookups.len(),
        |k: int|
            {
                let class = class_of(lookups[k / 2]);
                let before = rank(lookups, class, k / 2);
                match class {
                    LookupClass::SingleUnit => single[2 * before + k % 2],
                    LookupClass::SingleComp => single[2 * (rank(
                        lookups,
                        LookupClass::SingleUnit,
                        lookups.len() as int,
                    ) + before) + k % 2],
                    LookupClass::Tuple => tuple[2 * before + k % 2],
                }
            },
    )
}

/// Law of the lookup commitments: whatever the classes of the lookups, the commitments enter the
/// transcript in the order of the lookups, the input before the table. The one in place `k` is the
/// one that was made, at the returned place, of the column that belongs there.
pub proof fn lemma_placed<F, C>(lookups: Seq<Lookup<F>>, single: Seq<C>, tuple: Seq<C>, k: int) -> (
j: int)
    requires
        lookups.len() <= usize::MAX,
        0 <= k < 2 * lookups.len(),
    ensures
        ({
            let made_single = class_of(lookups[k / 2]) != LookupClass::Tuple;
            let ids = if made_single {
                single_ids(lookups)
            } else {
                tuple_ids(lookups)
            };
            &&& 0 <= j < ids.len()
            &&& ids[j] == permuted_ids(lookups.len())[k]
            &&& placed(lookups, single, tuple)[k] == if made_single {
                single[j]
            } else {
                tuple[j]
            }
        }),
{
    let n = lookups.len();
    let class = class_of(lookups[k / 2]);
    let before = rank(lookups, class, k / 2);
    lemma_rank(lookups, pairs(n), n as int, k / 2);
    lemma_member_count(lookups, pairs(n), LookupClass::SingleUnit, n as int);
    let own = class_ids(lookups, class);
    let place = 2 * before + k % 2;
    assert(place / 2 == before && place % 2 == k % 2);
    assert(own[place] == permuted_ids(n)[k]);
    if class == LookupClass::SingleComp {
        class_ids(lookups, LookupClass::SingleUnit).len() + place
    } else {
        place
    }
}

/// Appends the pairs of some lookups, one column after the other.
fn push_flat(s: &Vec<(usize, (PolyId, PolyId))>, ids: &mut Vec<PolyId>)
    ensures
        final(ids)@ == old(ids)@ + flat(s@),
{
    let ghost before = ids@;
    for i in 0..s.len()
        invariant
            ids@ == before + flat(s@).take(2 * i as int),
    {
        let (_, (input, table)) = s[i];
        let ghost all = flat(s@);
        assert(all[2 * i as int] == input && all[2 * i + 1] == table) by {
            assert((2 * i as int) / 2 == i && (2 * i + 1) / 2 == i as int);
        }
        ids.push(input);
        ids.push(table);
        assert(ids@ =~= before + all.take(2 * (i + 1)));
    }
    assert(flat(s@).take(2 * s@.len() as int) =~= flat(s@));
}

/// The permuted columns in the order of their commitment: first those that do not depend on a
/// challenge, then the others.
pub fn commitment_order<F: PrimeField>(pk: &ProvingKey<F>) -> (r: (Vec<PolyId>, Vec<PolyId>))
    ensures
        r.0@ == single_ids(pk.cs.lookups@),
        r.1@ == tuple_ids(pk.cs.lookups@),
{
    let mut bufs: Vec<(PolyId, PolyId)> = Vec::new();
    for i in 0..pk.cs.lookups.len()
        invariant
            bufs@ == pairs(i as nat),
    {
        bufs.push((PolyId::PermutedInput(i), PolyId::PermutedTable(i)));
        assert(bufs@ =~= pairs((i + 1) as nat));
    }
    let classes = lookup_classify(pk, bufs);
    let mut single: Vec<PolyId> = Vec::new();
    push_flat(&classes[0], &mut single);
    push_flat(&classes[1], &mut single);
    let mut tuple: Vec<PolyId> = Vec::new();
    push_flat(&classes[2], &mut tuple);
    assert(single@ =~= single_ids(pk.cs.lookups@));
    assert(tuple@ =~= tuple_ids(pk.cs.lookups@));
    (single, tuple)
}

/// How many of the lookups are of a class.
fn count_class<F: PrimeField>(lookups: &Vec<Lookup<F>>, class: LookupClass) -> (r: usize)
    ensures
        r == rank(lookups@, class, lookups@.len() as int),
        r <= lookups@.len(),
{
    let mut r: usize = 0;
    for i in 0..lookups.len()
        invariant
            r == rank(lookups@, class, i as int),
            r <= i,
    {
        if classify(&lookups[i]) == class {
            r += 1;
        }
    }
    r
}

proof fn lemma_rank_grows<F>(lookups: Seq<Lookup<F>>, class: LookupClass, i: int, n: int)
    requires
        0 <= i < n,
    ensures
        rank(lookups, class, i) <= rank(lookups, class, n),
        class_of(lookups[i]) == class ==> rank(lookups, class, i) < rank(lookups, class, n),
    decreases n,
{
    if i < n - 1 {
        lemma_rank_grows(lookups, class, i, n - 1);
    }
}

/// Brings the commitments to the permuted columns into the order of the lookups.
pub fn place_commitments<F: PrimeField, C: Copy>(
    pk: &ProvingKey<F>,
    single: &Vec<C>,
    tuple: &Vec<C>,
) -> (r: Vec<C>)
    requires
        pk.cs.lookups@.len() <= usize::MAX / 2,
        single@.len() == single_ids(pk.cs.lookups@).len(),
        tuple@.len() == tuple_ids(pk.cs.lookups@).len(),
    ensures
        r@ == placed(pk.cs.lookups@, single@, tuple@),
{
    let ghost lookups = pk.cs.lookups@;
    let ghost n = lookups.len() as int;
    let units: usize = count_class(&pk.cs.lookups, LookupClass::SingleUnit);
    proof {
        lemma_member_count(lookups, pairs(n as nat), LookupClass::SingleUnit, n);
        lemma_member_count(lookups, pairs(n as nat), LookupClass::SingleComp, n);
        lemma_member_count(lookups, pairs(n as nat), LookupClass::Tuple, n);
    }
    let mut r: Vec<C> = Vec::new();
    let singles: usize = single.len();
    let tuples: usize = tuple.len();
    let mut unit: usize = 0;
    let mut comp: usize = 0;
    let mut other: usize = 0;
    let ghost all = placed(lookups, single@, tuple@);
    assert(r@ =~= all.take(0));
    for i in 0..pk.cs.lookups.len()
        invariant
            lookups == pk.cs.lookups@,
            n == lookups.len(),
            n <= usize::MAX / 2,
            units == rank(lookups, LookupClass::SingleUnit, n),
            single@.len() == singles,
            tuple@.len() == tuples,
            singles == 2 * units + 2 * rank(lookups, LookupClass::SingleComp, n),
            tuples == 2 * rank(lookups, LookupClass::Tuple, n),
            unit == rank(lookups, LookupClass::SingleUnit, i as int),
            comp == rank(lookups, LookupClass::SingleComp, i as int),
            other == rank(lookups, LookupClass::Tuple, i as int),
            all == placed(lookups, single@, tuple@),
            r@ == all.take(2 * i as int),
    {
        let class = classify(&pk.cs.lookups[i]);
        proof {
            lemma_rank_grows(lookups, class, i as int, n);
            assert((2 * i as int) / 2 == i && (2 * i + 1) / 2 == i as int);
            assert((2 * i as int) % 2 == 0 && (2 * i + 1) % 2 == 1);
        }
        match class {
            LookupClass::SingleUnit => {
                r.push(single[2 * unit]);
                r.push(single[2 * unit + 1]);
                unit += 1;
            },
            LookupClass::SingleComp => {
                r.push(single[2 * (units + comp)]);
                r.push(single[2 * (units + comp) + 1]);
                comp += 1;
            },
            LookupClass::Tuple => {
                r.push(tuple[2 * other]);
                r.push(tuple[2 * other + 1]);
                other += 1;
            },
        }
        assert(r@ =~= all.take(2 * (i + 1)));
    }
    assert(all.take(2 * n) =~= all);
    r
}

/// Law of the permuted columns: of each lookup the input, then the table.
pub proof fn lemma_permuted_ids(n: nat, i: int)
    ensures
        permuted_ids(n).len() == 2 * n,
        0 <= i < n ==> permuted_ids(n)[2 * i] == PolyId::PermutedInput(i as usize),
        0 <= i < n ==> permuted_ids(n)[2 * i + 1] == PolyId::PermutedTable(i as usize),
{
    assert((2 * i) / 2 == i && (2 * i + 1) / 2 == i && (2 * i) % 2 == 0 && (2 * i + 1) % 2 == 1);
}

/// A listed column belongs to a lookup of the class that is listed.
proof fn lemma_class_id<F>(lookups: Seq<Lookup<F>>, class: LookupClass, k: int) -> (i: int)
    requires
        lookups.len() <= usize::MAX,
        0 <= k < class_ids(lookups, class).len(),
    ensures
        0 <= i < lookups.len(),
        class_of(lookups[i]) == class,
        class_ids(lookups, class)[k] == if k % 2 == 0 {
            PolyId::PermutedInput(i as usize)
        } else {
            PolyId::PermutedTable(i as usize)
        },
        i == members(lookups, pairs(lookups.len()), class, lookups.len() as int)[k / 2].0,
{
    let n = lookups.len() as int;
    let m = members(lookups, pairs(lookups.len()), class, n);
    lemma_members(lookups, pairs(lookups.len()), class, n, k / 2);
    m[k / 2].0 as int
}

/// Members stand in the order of their indices.
proof fn lemma_members_ascend<F, T>(
    lookups: Seq<Lookup<F>>,
    bufs: Seq<T>,
    class: LookupClass,
    n: int,
    a: int,
    b: int,
)
    requires
        0 <= n <= usize::MAX,
        0 <= a < b < members(lookups, bufs, class, n).len(),
    ensures
        members(lookups, bufs, class, n)[a].0 < members(lookups, bufs, class, n)[b].0,
    decreases b,
{
    lemma_members(lookups, bufs, class, n, b);
    if a < b - 1 {
        lemma_members_ascend(lookups, bufs, class, n, a, b - 1);
    }
}

/// A column is listed in one place of one class.
proof fn lemma_class_ids_differ<F>(
    lookups: Seq<Lookup<F>>,
    class: LookupClass,
    j: int,
    other: LookupClass,
    k: int,
)
    requires
        lookups.len() <= usize::MAX,
        0 <= j < class_ids(lookups, class).len(),
        0 <= k < class_ids(lookups, other).len(),
        class_ids(lookups, class)[j] == class_ids(lookups, other)[k],
    ensures
        class == other,
        j == k,
{
    let a = lemma_class_id(lookups, class, j);
    let b = lemma_class_id(lookups, other, k);
    assert(a == b);
    let n = lookups.len() as int;
    if j / 2 < k / 2 {
        lemma_members_ascend(lookups, pairs(lookups.len()), class, n, j / 2, k / 2);
    } else if k / 2 < j / 2 {
        lemma_members_ascend(lookups, pairs(lookups.len()), class, n, k / 2, j / 2);
    }
}

/// The classes make up all lookups.
proof fn lemma_ranks_add_up<F>(lookups: Seq<Lookup<F>>, n: int)
    requires
        0 <= n,
    ensures
        rank(lookups, LookupClass::SingleUnit, n) + rank(lookups, LookupClass::SingleComp, n)
            + rank(lookups, LookupClass::Tuple, n) == n,
    decreases n,
{
    if n > 0 {
        lemma_ranks_add_up(lookups, n - 1);
    }
}

/// Law of the commitments: every permuted column is committed to once, the input of a lookup right
/// before its table, at the returned place: among the first columns if both sides of the lookup
/// are single expressions, among the others if not.
pub proof fn lemma_committed_once<F>(lookups: Seq<Lookup<F>>, i: int) -> (j: int)
    requires
        lookups.len() <= usize::MAX,
        0 <= i < lookups.len(),
    ensures
        single_ids(lookups).len() + tuple_ids(lookups).len() == 2 * lookups.len(),
        single_ids(lookups).no_duplicates(),
        tuple_ids(lookups).no_duplicates(),
        ({
            let single = lookups[i].input_expressions@.len() == 1
                && lookups[i].table_expressions@.len() == 1;
            let ids = if single {
                single_ids(lookups)
            } else {
                tuple_ids(lookups)
            };
            let others = if single {
                tuple_ids(lookups)
            } else {
                single_ids(lookups)
            };
            &&& 0 <= j && j + 1 < ids.len()
            &&& ids[j] == PolyId::PermutedInput(i as usize)
            &&& ids[j + 1] == PolyId::PermutedTable(i as usize)
            &&& !others.contains(PolyId::PermutedInput(i as usize))
            &&& !others.contains(PolyId::PermutedTable(i as usize))
        }),
{
    let n = lookups.len() as int;
    let units = class_ids(lookups, LookupClass::SingleUnit);
    let comps = class_ids(lookups, LookupClass::SingleComp);
    lemma_member_count(lookups, pairs(n as nat), LookupClass::SingleUnit, n);
    lemma_member_count(lookups, pairs(n as nat), LookupClass::SingleComp, n);
    lemma_member_count(lookups, pairs(n as nat), LookupClass::Tuple, n);
    lemma_ranks_add_up(lookups, n);
    let single = single_ids(lookups);
    let tuple = tuple_ids(lookups);
    assert forall|a: int, b: int|
        0 <= a < single.len() && 0 <= b < single.len() && a != b implies single[a] != single[b] by {
        if single[a] == single[b] {
            let (ca, ka) = if a < units.len() {
                (LookupClass::SingleUnit, a)
            } else {
                (LookupClass::SingleComp, a - units.len())
            };
            let (cb, kb) = if b < units.len() {
                (LookupClass::SingleUnit, b)
            } else {
                (LookupClass::SingleComp, b - units.len())
            };
            lemma_class_ids_differ(lookups, ca, ka, cb, kb);
        }
    }
    assert forall|a: int, b: int|
        0 <= a < tuple.len() && 0 <= b < tuple.len() && a != b implies tuple[a] != tuple[b] by {
        if tuple[a] == tuple[b] {
            lemma_class_ids_differ(lookups, LookupClass::Tuple, a, LookupClass::Tuple, b);
        }
    }
    assert forall|a: int, b: int|
        0 <= a < single.len() && 0 <= b < tuple.len() implies single[a] != tuple[b] by {
        if single[a] == tuple[b] {
            if a < units.len() {
                lemma_class_ids_differ(lookups, LookupClass::SingleUnit, a, LookupClass::Tuple, b);
            } else {
                lemma_class_ids_differ(
                    lookups,
                    LookupClass::SingleComp,
                    a - units.len(),
                    LookupClass::Tuple,
                    b,
                );
            }
        }
    }
    let class = class_of(lookups[i]);
    lemma_rank(lookups, pairs(n as nat), n, i);
    let place = 2 * rank(lookups, class, i) as int;
    assert(place / 2 == rank(lookups, class, i) && (place + 1) / 2 == rank(lookups, class, i));
    assert(place % 2 == 0 && (place + 1) % 2 == 1);
    let own = class_ids(lookups, class);
    assert(own[place] == PolyId::PermutedInput(i as usize));
    assert(own[place + 1] == PolyId::PermutedTable(i as usize));
    let j = if class == LookupClass::SingleComp {
        units.len() + place
    } else {
        place
    };
    if class == LookupClass::Tuple {
        assert(tuple[j] == own[place] && tuple[j + 1] == own[place + 1]);
        assert forall|a: int| 0 <= a < single.len() implies single[a] != tuple[j] && single[a]
            != tuple[j + 1] by {}
    } else {
        assert(single[j] == own[place] && single[j + 1] == own[place + 1]);
        assert forall|b: int| 0 <= b < tuple.len() implies tuple[b] != single[j] && tuple[b]
            != single[j + 1] by {}
    }
    j
}

/// Law of the placing: a commitment goes to the place of its lookup, the one to the input before
/// the one to the table, wherever it was made.
pub proof fn lemma_placed_by_lookup<F, C>(
    lookups: Seq<Lookup<F>>,
    single: Seq<C>,
    tuple: Seq<C>,
    i: int,
    j: int,
)
    requires
        lookups.len() <= usize::MAX,
        0 <= i < lookups.len(),
    ensures
        ({
            let r = placed(lookups, single, tuple);
            let input = PolyId::PermutedInput(i as usize);
            let table = PolyId::PermutedTable(i as usize);
            let in_single = 0 <= j < single_ids(lookups).len();
            let in_tuple = 0 <= j < tuple_ids(lookups).len();
            &&& r.len() == 2 * lookups.len()
            &&& in_single && single_ids(lookups)[j] == input ==> r[2 * i] == single[j]
            &&& in_single && single_ids(lookups)[j] == table ==> r[2 * i + 1] == single[j]
            &&& in_tuple && tuple_ids(lookups)[j] == input ==> r[2 * i] == tuple[j]
            &&& in_tuple && tuple_ids(lookups)[j] == table ==> r[2 * i + 1] == tuple[j]
        }),
{
    assert((2 * i) / 2 == i && (2 * i + 1) / 2 == i);
    let at = lemma_committed_once(lookups, i);
    let a = lemma_placed(lookups, single, tuple, 2 * i);
    let b = lemma_placed(lookups, single, tuple, 2 * i + 1);
    lemma_permuted_ids(lookups.len(), i);
    let (s, t) = (single_ids(lookups), tuple_ids(lookups));
    if 0 <= j < s.len() {
        assert(s.contains(s[j]));
    }
    if 0 <= j < t.len() {
        assert(t.contains(t[j]));
    }
}

/// Law of the order of commitment: the first columns are those of the lookups that are only copied,
/// then those of the other single ones, each in the order of the lookups; so are the rest. The
/// return value holds the lookups of two pairs of columns.
pub proof fn lemma_commitment_order<F>(lookups: Seq<Lookup<F>>, a: int, b: int) -> (r: (int, int))
    requires
        lookups.len() <= usize::MAX,
        0 <= a < b,
        2 * b + 1 < single_ids(lookups).len(),
    ensures
        0 <= r.0 < lookups.len(),
        0 <= r.1 < lookups.len(),
        single_ids(lookups)[2 * a] == PolyId::PermutedInput(r.0 as usize),
        single_ids(lookups)[2 * a + 1] == PolyId::PermutedTable(r.0 as usize),
        single_ids(lookups)[2 * b] == PolyId::PermutedInput(r.1 as usize),
        single_ids(lookups)[2 * b + 1] == PolyId::PermutedTable(r.1 as usize),
        class_of(lookups[r.0]) == class_of(lookups[r.1]) ==> r.0 < r.1,
        class_of(lookups[r.0]) != class_of(lookups[r.1]) ==> class_of(lookups[r.0])
            == LookupClass::SingleUnit && class_of(lookups[r.1]) == LookupClass::SingleComp,
{
    let n = lookups.len() as int;
    let units = class_ids(lookups, LookupClass::SingleUnit);
    let half = units.len() as int / 2;
    assert(units.len() == 2 * half);
    let (ca, ka) = if a < half {
        (LookupClass::SingleUnit, a)
    } else {
        (LookupClass::SingleComp, a - half)
    };
    let (cb, kb) = if b < half {
        (LookupClass::SingleUnit, b)
    } else {
        (LookupClass::SingleComp, b - half)
    };
    assert((2 * ka) / 2 == ka && (2 * ka + 1) / 2 == ka && (2 * ka) % 2 == 0);
    assert((2 * kb) / 2 == kb && (2 * kb + 1) / 2 == kb && (2 * kb) % 2 == 0);
    let x = lemma_class_id(lookups, ca, 2 * ka);
    let y = lemma_class_id(lookups, cb, 2 * kb);
    lemma_class_id(lookups, ca, 2 * ka + 1);
    lemma_class_id(lookups, cb, 2 * kb + 1);
    if ca == cb {
        lemma_members_ascend(lookups, pairs(lookups.len()), ca, n, ka, kb);
    }
    (x, y)
}

/// Law of the order of commitment, for the columns that wait for a challenge: in the order of the
/// lookups.
pub proof fn lemma_tuple_order<F>(lookups: Seq<Lookup<F>>, a: int, b: int) -> (r: (int, int))
    requires
        lookups.len() <= usize::MAX,
        0 <= a < b,
        2 * b + 1 < tuple_ids(lookups).len(),
    ensures
        0 <= r.0 < r.1 < lookups.len(),
        tuple_ids(lookups)[2 * a] == PolyId::PermutedInput(r.0 as usize),
        tuple_ids(lookups)[2 * a + 1] == PolyId::PermutedTable(r.0 as usize),
        tuple_ids(lookups)[2 * b] == PolyId::PermutedInput(r.1 as usize),
        tuple_ids(lookups)[2 * b + 1] == PolyId::PermutedTable(r.1 as usize),
{
    let n = lookups.len() as int;
    assert((2 * a) / 2 == a && (2 * a + 1) / 2 == a && (2 * a) % 2 == 0);
    assert((2 * b) / 2 == b && (2 * b + 1) / 2 == b && (2 * b) % 2 == 0);
    let x = lemma_class_id(lookups, LookupClass::Tuple, 2 * a);
    let y = lemma_class_id(lookups, LookupClass::Tuple, 2 * b);
    lemma_class_id(lookups, LookupClass::Tuple, 2 * a + 1);
    lemma_class_id(lookups, LookupClass::Tuple, 2 * b + 1);
    lemma_members_ascend(lookups, pairs(lookups.len()), LookupClass::Tuple, n, a, b);
    (x, y)
}

} // verus!
