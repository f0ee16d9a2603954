//! The columns of a lookup argument: sorting the input, lining the table up with it.
use crate::algebra::lemma_map_permutation;
use crate::field::{values, zeros, PrimeField, Words};
use vstd::prelude::*;
use vstd::relations::{sorted_by, total_ordering};
use vstd::seq_lib::{group_to_multiset_ensures, lemma_multiset_commutative, lemma_sorted_unique};

verus! {

/// The order of two elements by their memory words, the first word weighing most.
pub open spec fn words_lt(a: Words, b: Words) -> bool {
    ||| a.0 < b.0
    ||| a.0 == b.0 && a.1 < b.1
    ||| a.0 == b.0 && a.1 == b.1 && a.2 < b.2
    ||| a.0 == b.0 && a.1 == b.1 && a.2 == b.2 && a.3 < b.3
}

/// The order in which rows are sorted. Elements of one field differ in their words, so the
/// comparison of representatives never decides between them.
pub open spec fn element_le<F: PrimeField>(a: nat, b: nat) -> bool {
    ||| words_lt(F::words_of(a), F::words_of(b))
    ||| F::words_of(a) == F::words_of(b) && a <= b
}

pub open spec fn element_order<F: PrimeField>() -> spec_fn(nat, nat) -> bool {
    |a: nat, b: nat| element_le::<F>(a, b)
}

/// The elements of `s` in the order of their words.
pub open spec fn sorted<F: PrimeField>(s: Seq<nat>) -> Seq<nat> {
    s.sort_by(element_order::<F>())
}

/// A row whose value differs from that of the row above it.
pub open spec fn starts_run(s: Seq<nat>, i: int) -> bool {
    i == 0 || s[i] != s[i - 1]
}

/// The values of the rows at or after `from` that start a run, in order.
pub open spec fn run_heads(s: Seq<nat>, from: int) -> Seq<nat>
    decreases s.len() - from,
{
    if from >= s.len() {
        Seq::empty()
    } else if starts_run(s, from) {
        seq![s[from]] + run_heads(s, from + 1)
    } else {
        run_heads(s, from + 1)
    }
}

/// How many rows before `i` repeat the value of the row above them.
pub open spec fn repeats_before(s: Seq<nat>, i: int) -> nat
    decreases i,
{
    if i <= 0 {
        0
    } else if starts_run(s, i - 1) {
        repeats_before(s, i - 1)
    } else {
        repeats_before(s, i - 1) + 1
    }
}

/// What is left of the table `t` once each head, in turn, has claimed the first entry equal to it.
pub open spec fn unclaimed(t: Seq<nat>, heads: Seq<nat>) -> Seq<nat>
    decreases t.len(),
{
    if t.len() == 0 {
        Seq::empty()
    } else if heads.len() > 0 && heads[0] == t[0] {
        unclaimed(t.drop_first(), heads.drop_first())
    } else {
        seq![t[0]] + unclaimed(t.drop_first(), heads)
    }
}

/// The table lined up with the sorted input `s`: a row that starts a run holds its own value, and
/// the other rows hold, in order, what the runs left unclaimed.
pub open spec fn aligned(s: Seq<nat>, t: Seq<nat>) -> Seq<nat> {
    let left = unclaimed(t, run_heads(s, 0));
    Seq::new(
        s.len(),
        |i: int|
            if starts_run(s, i) {
                s[i]
            } else {
                left[repeats_before(s, i) as int]
            },
    )
}

/// `s`, followed by zeros up to the length `len`.
pub open spec fn padded(s: Seq<nat>, len: nat) -> Seq<nat> {
    s + zeros((len - s.len()) as nat)
}

proof fn lemma_element_order<F: PrimeField>()
    ensures
        total_ordering(element_order::<F>()),
{
}

/// Sorting keeps the elements, counted, and orders them.
pub proof fn lemma_sorted<F: PrimeField>(s: Seq<nat>)
    ensures
        sorted::<F>(s).to_multiset() == s.to_multiset(),
        sorted_by(sorted::<F>(s), element_order::<F>()),
        sorted::<F>(s).len() == s.len(),
{
    broadcast use group_to_multiset_ensures;

    lemma_element_order::<F>();
    s.lemma_sort_by_ensures(element_order::<F>());
    assert(sorted::<F>(s).to_multiset().len() == s.to_multiset().len());
}

/// The words of an element and the row in which it stands.
type Key = (u64, u64, u64, u64, usize);

spec fn key_words(k: Key) -> Words {
    (k.0, k.1, k.2, k.3)
}

spec fn key_le(a: Key, b: Key) -> bool {
    ||| words_lt(key_words(a), key_words(b))
    ||| key_words(a) == key_words(b) && a.4 <= b.4
}

/// `slice::sort_unstable` on tuples of integers: the tuples stay the same, counted, and end in
/// lexicographic order, which is the order of tuples.
#[verifier::external_body]
fn sort_keys(keys: &mut Vec<Key>)
    ensures
        final(keys)@.to_multiset() == old(keys)@.to_multiset(),
        forall|i: int, j: int|
            0 <= i < j < final(keys)@.len() ==> key_le(
                #[trigger] final(keys)@[i],
                #[trigger] final(keys)@[j],
            ),
{
    keys.sort_unstable()
}

/// The first `rows` elements of a column, sorted by their words.
pub fn sort_column<F: PrimeField>(column: &Vec<F>, rows: usize) -> (r: Vec<F>)
    requires
        rows <= column@.len(),
    ensures
        values(r@) == sorted::<F>(values(column@).take(rows as int)),
{
    broadcast use group_to_multiset_ensures;

    let mut keys: Vec<Key> = Vec::new();
    for i in 0..rows
        invariant
            rows <= column@.len(),
            keys@.len() == i,
            forall|k: int|
                0 <= k < i ==> key_words(#[trigger] keys@[k]) == F::words_of(column@[k].value())
                    && keys@[k].4 == k,
    {
        let w = column[i].words();
        keys.push((w.0, w.1, w.2, w.3, i));
    }
    let ghost unsorted = keys@;
    sort_keys(&mut keys);
    proof {
        assert(keys@.to_multiset().len() == unsorted.to_multiset().len());
        assert forall|k: int| 0 <= k < keys@.len() implies (#[trigger] keys@[k]).4 < rows
            && key_words(keys@[k]) == F::words_of(column@[keys@[k].4 as int].value()) by {
            assert(keys@.contains(keys@[k]));
            assert(keys@.to_multiset().count(keys@[k]) > 0);
            assert(unsorted.contains(keys@[k]));
        }
    }
    let mut r: Vec<F> = Vec::new();
    for i in 0..rows
        invariant
            rows <= column@.len(),
            keys@.len() == rows,
            forall|k: int| 0 <= k < rows ==> (#[trigger] keys@[k]).4 < rows,
            r@.len() == i,
            forall|k: int| 0 <= k < i ==> #[trigger] r@[k] == column@[keys@[k].4 as int],
    {
        r.push(column[keys[i].4]);
    }
    proof {
        let picked = |k: Key| column@[k.4 as int].value();
        let source = values(column@).take(rows as int);
        assert(values(r@) =~= keys@.map_values(picked));
        assert(source =~= unsorted.map_values(picked));
        lemma_map_permutation(keys@, unsorted, picked);
        let order = element_order::<F>();
        assert forall|i: int, j: int| 0 <= i < j < values(r@).len() implies #[trigger] order(
            values(r@)[i],
            values(r@)[j],
        ) by {
            assert(key_le(keys@[i], keys@[j]));
            let (x, y) = (column@[keys@[i].4 as int], column@[keys@[j].4 as int]);
            x.lemma_value();
            y.lemma_value();
            if F::words_of(x.value()) == F::words_of(y.value()) {
                F::lemma_words(x.value(), y.value());
            }
        }
        lemma_sorted::<F>(source);
        lemma_element_order::<F>();
        lemma_sorted_unique(values(r@), sorted::<F>(source), order);
    }
    r
}

/// Each row either starts a run or repeats: the heads at or after `from` and the repeats in the
/// same rows make up all rows.
proof fn lemma_heads_and_repeats(s: Seq<nat>, from: int)
    requires
        0 <= from <= s.len(),
    ensures
        run_heads(s, from).len() + repeats_before(s, s.len() as int) - repeats_before(s, from)
            == s.len() - from,
        repeats_before(s, from) <= repeats_before(s, s.len() as int),
    decreases s.len() - from,
{
    if from < s.len() {
        lemma_heads_and_repeats(s, from + 1);
    }
}

/// Rows that only repeat add no heads.
proof fn lemma_heads_skip(s: Seq<nat>, from: int, to: int)
    requires
        0 <= from <= to <= s.len(),
        forall|k: int| from <= k < to ==> !starts_run(s, k),
    ensures
        run_heads(s, from) == run_heads(s, to),
    decreases to - from,
{
    if from < to {
        assert(!starts_run(s, from));
        lemma_heads_skip(s, from + 1, to);
    }
}

/// Each head claims at most one entry.
proof fn lemma_unclaimed_len(t: Seq<nat>, heads: Seq<nat>)
    ensures
        t.len() <= unclaimed(t, heads).len() + heads.len(),
        unclaimed(t, heads).len() <= t.len(),
    decreases t.len(),
{
    if t.len() > 0 {
        if heads.len() > 0 && heads[0] == t[0] {
            lemma_unclaimed_len(t.drop_first(), heads.drop_first());
        } else {
            lemma_unclaimed_len(t.drop_first(), heads);
        }
    }
}

/// The first row at or after `from` that starts a run, or the number of rows.
fn next_head(heads: &Vec<bool>, from: usize) -> (r: usize)
    requires
        from <= heads@.len(),
    ensures
        from <= r <= heads@.len(),
        forall|k: int| from <= k < r ==> !#[trigger] heads@[k],
        r < heads@.len() ==> heads@[r as int],
{
    let mut i: usize = from;
    while i < heads.len() && !heads[i]
        invariant
            from <= i <= heads@.len(),
            forall|k: int| from <= k < i ==> !#[trigger] heads@[k],
        decreases heads@.len() - i,
    {
        i += 1;
    }
    i
}

/// Marks the rows of the sorted input that start a run, and puts their values in place.
fn mark_heads<F: PrimeField>(input: &Vec<F>) -> (r: (Vec<bool>, Vec<F>))
    ensures
        r.0@.len() == input@.len(),
        r.1@.len() == input@.len(),
        forall|k: int|
            0 <= k < input@.len() ==> #[trigger] r.0@[k] == starts_run(values(input@), k),
        forall|k: int|
            0 <= k < input@.len() ==> (#[trigger] r.1@[k]).value() == if starts_run(
                values(input@),
                k,
            ) {
                values(input@)[k]
            } else {
                0
            },
{
    let ghost s = values(input@);
    let mut heads: Vec<bool> = Vec::new();
    let mut table: Vec<F> = Vec::new();
    for row in 0..input.len()
        invariant
            s == values(input@),
            heads@.len() == row,
            table@.len() == row,
            forall|k: int| 0 <= k < row ==> #[trigger] heads@[k] == starts_run(s, k),
            forall|k: int|
                0 <= k < row ==> (#[trigger] table@[k]).value() == if starts_run(s, k) {
                    s[k]
                } else {
                    0
                },
    {
        let head = row == 0 || !input[row].equals(input[row - 1]);
        heads.push(head);
        table.push(
            if head {
                input[row]
            } else {
                F::zero()
            },
        );
    }
    (heads, table)
}

/// Lines the sorted table up with the sorted input.
fn align_table<F: PrimeField>(input: &Vec<F>, sorted_table: &Vec<F>) -> (r: Vec<F>)
    requires
        input@.len() == sorted_table@.len(),
    ensures
        values(r@) == aligned(values(input@), values(sorted_table@)),
{
    let rows: usize = input.len();
    let ghost s = values(input@);
    let ghost t = values(sorted_table@);
    let ghost left = unclaimed(t, run_heads(s, 0));
    let (heads, mut table) = mark_heads(input);
    let mut head: usize = 0;
    let mut next: usize = 0;
    proof {
        lemma_heads_and_repeats(s, 0);
        lemma_unclaimed_len(t, run_heads(s, 0));
        assert(t.skip(0) =~= t);
        assert(left.skip(0) =~= left);
    }
    for i in 0..rows
        invariant
            rows == s.len(),
            rows == t.len(),
            s == values(input@),
            t == values(sorted_table@),
            left == unclaimed(t, run_heads(s, 0)),
            left.len() >= repeats_before(s, rows as int),
            run_heads(s, 0).len() + repeats_before(s, rows as int) == rows,
            heads@.len() == rows,
            table@.len() == rows,
            forall|k: int| 0 <= k < rows ==> #[trigger] heads@[k] == starts_run(s, k),
            forall|k: int|
                0 <= k < rows && starts_run(s, k) ==> (#[trigger] table@[k]).value() == s[k],
            forall|k: int|
                0 <= k < i && !starts_run(s, k) ==> (#[trigger] table@[k]).value()
                    == left[repeats_before(s, k) as int],
            head <= rows,
            next <= rows,
            next + run_heads(s, head as int).len() == run_heads(s, 0).len() + repeats_before(
                s,
                i as int,
            ),
            left.skip(repeats_before(s, i as int) as int) == unclaimed(
                t.skip(next as int),
                run_heads(s, head as int),
            ),
    {
        let ghost from = head as int;
        head = next_head(&heads, head);
        proof {
            assert forall|k: int| from <= k < head implies !starts_run(s, k) by {
                assert(!heads@[k]);
            }
            lemma_heads_skip(s, from, head as int);
            lemma_heads_and_repeats(s, i as int);
            lemma_heads_and_repeats(s, i as int + 1);
        }
        while head < rows && table[head].equals(sorted_table[next])
            invariant
                i < rows,
                rows == s.len(),
                rows == t.len(),
                t == values(sorted_table@),
                heads@.len() == rows,
                table@.len() == rows,
                run_heads(s, 0).len() + repeats_before(s, rows as int) == rows,
                repeats_before(s, i as int) <= repeats_before(s, rows as int),
                forall|k: int| 0 <= k < rows ==> #[trigger] heads@[k] == starts_run(s, k),
                forall|k: int|
                    0 <= k < rows && starts_run(s, k) ==> (#[trigger] table@[k]).value() == s[k],
                head <= rows,
                head < rows ==> starts_run(s, head as int),
                next + run_heads(s, head as int).len() == run_heads(s, 0).len() + repeats_before(
                    s,
                    i as int,
                ),
                head < rows ==> next < rows,
                next <= rows,
                left.skip(repeats_before(s, i as int) as int) == unclaimed(
                    t.skip(next as int),
                    run_heads(s, head as int),
                ),
            decreases rows - head,
        {
            let ghost claimed = head as int;
            proof {
                let here = run_heads(s, claimed);
                assert(here[0] == s[claimed]);
                assert(t.skip(next as int)[0] == t[next as int]);
                assert(here.drop_first() =~= run_heads(s, claimed + 1));
                assert(t.skip(next as int).drop_first() =~= t.skip(next as int + 1));
            }
            head += 1;
            next += 1;
            head = next_head(&heads, head);
            proof {
                assert forall|k: int| claimed < k < head implies !starts_run(s, k) by {
                    assert(!heads@[k]);
                }
                lemma_heads_skip(s, claimed + 1, head as int);
            }
        }
        if !heads[i] {
            proof {
                let here = run_heads(s, head as int);
                let rest = t.skip(next as int);
                let rank = repeats_before(s, i as int) as int;
                assert(left.skip(rank).len() > 0);
                assert(rest.len() > 0);
                assert(rest[0] == t[next as int]);
                if head < rows {
                    assert(here[0] == s[head as int]);
                    assert(values(table@)[head as int] == s[head as int]);
                }
                assert(unclaimed(rest, here) == seq![rest[0]] + unclaimed(rest.drop_first(), here));
                assert(left.skip(rank)[0] == left[rank]);
                assert(rest.drop_first() =~= t.skip(next as int + 1));
                assert(left.skip(rank + 1) =~= left.skip(rank).drop_first());
                assert((seq![rest[0]] + unclaimed(rest.drop_first(), here)).drop_first()
                    =~= unclaimed(rest.drop_first(), here));
            }
            table[i] = sorted_table[next];
            next += 1;
        }
    }
    assert(values(table@) =~= aligned(s, t));
    table
}

/// Appends zeros to a column until it has `len` rows.
fn pad_with_zeros<F: PrimeField>(column: &mut Vec<F>, len: usize)
    requires
        old(column)@.len() <= len,
    ensures
        values(final(column)@) == padded(values(old(column)@), len as nat),
{
    let ghost start = column@;
    assert(values(column@) =~= padded(values(start), column@.len()));
    while column.len() < len
        invariant
            start.len() <= column@.len() <= len,
            values(column@) == padded(values(start), column@.len()),
        decreases len - column@.len(),
    {
        let ghost before = column@;
        column.push(F::zero());
        assert(values(column@) =~= values(before).push(0));
        assert(values(column@) =~= padded(values(start), column@.len()));
    }
    assert(column@.len() == len);
}

/// Permutes the input and the table of a lookup.
///
/// In the first `unusable_rows_start` rows the input is sorted, so that equal values stand
/// together, and the table is lined up with it, so that each run of equal inputs starts on a row
/// where the table holds the same value. The other rows are zero.
pub fn handle_lookup_pair<F: PrimeField>(
    input: &Vec<F>,
    table: &Vec<F>,
    unusable_rows_start: usize,
) -> (r: (Vec<F>, Vec<F>))
    requires
        unusable_rows_start <= input@.len(),
        unusable_rows_start <= table@.len(),
    ensures
        r.0@.len() == input@.len(),
        r.1@.len() == input@.len(),
        values(r.0@) == padded(
            sorted::<F>(values(input@).take(unusable_rows_start as int)),
            input@.len(),
        ),
        values(r.1@) == padded(
            aligned(
                sorted::<F>(values(input@).take(unusable_rows_start as int)),
                sorted::<F>(values(table@).take(unusable_rows_start as int)),
            ),
            input@.len(),
        ),
{
    let mut permuted_input = sort_column(input, unusable_rows_start);
    let sorted_table = sort_column(table, unusable_rows_start);
    proof {
        lemma_sorted::<F>(values(input@).take(unusable_rows_start as int));
        lemma_sorted::<F>(values(table@).take(unusable_rows_start as int));
        assert(values(permuted_input@).len() == permuted_input@.len());
        assert(values(sorted_table@).len() == sorted_table@.len());
    }
    let mut permuted_table = align_table(&permuted_input, &sorted_table);
    assert(values(permuted_table@).len() == permuted_table@.len());
    pad_with_zeros(&mut permuted_input, input.len());
    pad_with_zeros(&mut permuted_table, input.len());
    assert(values(permuted_input@).len() == permuted_input@.len());
    assert(values(permuted_table@).len() == permuted_table@.len());
    (permuted_input, permuted_table)
}

/// Strictly increasing in the order of the elements.
spec fn strictly_sorted<F: PrimeField>(s: Seq<nat>) -> bool {
    forall|i: int, j: int|
        0 <= i < j < s.len() ==> #[trigger] element_le::<F>(s[i], s[j]) && s[i] != s[j]
}

/// `(x, s...)` has the elements of `s`, and `x`.
proof fn lemma_prepend_multiset(x: nat, s: Seq<nat>)
    ensures
        (seq![x] + s).to_multiset() == s.to_multiset().insert(x),
{
    broadcast use group_to_multiset_ensures;

    lemma_multiset_commutative(seq![x], s);
    assert(seq![x] =~= Seq::<nat>::empty().push(x));
    assert((seq![x] + s).to_multiset() =~= s.to_multiset().insert(x));
}

/// Each head is the value of a row that starts a run.
proof fn lemma_head_row(s: Seq<nat>, from: int, i: int) -> (k: int)
    requires
        0 <= from,
        0 <= i < run_heads(s, from).len(),
    ensures
        from <= k < s.len(),
        starts_run(s, k),
        run_heads(s, from)[i] == s[k],
    decreases s.len() - from,
{
    if starts_run(s, from) {
        if i == 0 {
            from
        } else {
            lemma_head_row(s, from + 1, i - 1)
        }
    } else {
        lemma_head_row(s, from + 1, i)
    }
}

/// The heads of a sorted column increase strictly.
proof fn lemma_heads_strict<F: PrimeField>(s: Seq<nat>, from: int)
    requires
        sorted_by(s, element_order::<F>()),
        0 <= from,
    ensures
        strictly_sorted::<F>(run_heads(s, from)),
    decreases s.len() - from,
{
    if from < s.len() {
        lemma_heads_strict::<F>(s, from + 1);
        if starts_run(s, from) {
            let order = element_order::<F>();
            let rest = run_heads(s, from + 1);
            assert forall|j: int| 0 <= j < rest.len() implies #[trigger] element_le::<F>(
                s[from],
                rest[j],
            ) && s[from] != rest[j] by {
                let k = lemma_head_row(s, from + 1, j);
                assert(order(s[from], s[k]));
                if k - 1 > from {
                    assert(order(s[from], s[k - 1]));
                    assert(order(s[k - 1], s[k]));
                }
            }
            let all = run_heads(s, from);
            assert forall|i: int, j: int| 0 <= i < j < all.len() implies #[trigger] element_le::<F>(
                all[i],
                all[j],
            ) && all[i] != all[j] by {
                if i > 0 {
                    assert(element_le::<F>(rest[i - 1], rest[j - 1]));
                } else {
                    assert(element_le::<F>(s[from], rest[j - 1]));
                }
            }
        }
    }
}

/// Where every head occurs in the sorted table, the heads and what they leave make up the table.
proof fn lemma_claims<F: PrimeField>(t: Seq<nat>, heads: Seq<nat>)
    requires
        sorted_by(t, element_order::<F>()),
        strictly_sorted::<F>(heads),
        forall|i: int| 0 <= i < heads.len() ==> t.contains(#[trigger] heads[i]),
    ensures
        unclaimed(t, heads).to_multiset().add(heads.to_multiset()) == t.to_multiset(),
        unclaimed(t, heads).len() + heads.len() == t.len(),
    decreases t.len(),
{
    broadcast use group_to_multiset_ensures;

    let order = element_order::<F>();
    if t.len() == 0 {
        if heads.len() > 0 {
            assert(t.contains(heads[0]));
        }
        assert(heads =~= Seq::empty());
        assert(t =~= Seq::empty());
        assert(unclaimed(t, heads).to_multiset().add(heads.to_multiset()) =~= t.to_multiset());
    } else {
        let rest = t.drop_first();
        assert(t =~= seq![t[0]] + rest);
        lemma_prepend_multiset(t[0], rest);
        assert forall|i: int, j: int| 0 <= i < j < rest.len() implies #[trigger] order(
            rest[i],
            rest[j],
        ) by {
            assert(order(t[i + 1], t[j + 1]));
        }
        if heads.len() > 0 && heads[0] == t[0] {
            let others = heads.drop_first();
            assert(heads =~= seq![heads[0]] + others);
            lemma_prepend_multiset(heads[0], others);
            assert forall|i: int| 0 <= i < others.len() implies rest.contains(
                #[trigger] others[i],
            ) by {
                assert(element_le::<F>(heads[0], heads[i + 1]));
                assert(t.contains(heads[i + 1]));
                let k = t.index_of(heads[i + 1]);
                assert(rest[k - 1] == others[i]);
            }
            assert forall|i: int, j: int|
                0 <= i < j < others.len() implies #[trigger] element_le::<F>(others[i], others[j])
                && others[i] != others[j] by {
                assert(element_le::<F>(heads[i + 1], heads[j + 1]));
            }
            lemma_claims::<F>(rest, others);
        } else {
            assert forall|i: int| 0 <= i < heads.len() implies rest.contains(
                #[trigger] heads[i],
            ) by {
                assert(t.contains(heads[i]));
                let k = t.index_of(heads[i]);
                if k == 0 {
                    // The first head would then have to come before the first entry.
                    assert(t.contains(heads[0]));
                    let k0 = t.index_of(heads[0]);
                    assert(order(t[0], t[k0]));
                    if i > 0 {
                        assert(element_le::<F>(heads[0], heads[i]));
                    }
                }
                assert(rest[k - 1] == heads[i]);
            }
            lemma_claims::<F>(rest, heads);
            lemma_prepend_multiset(t[0], unclaimed(rest, heads));
        }
        assert(unclaimed(t, heads).to_multiset().add(heads.to_multiset()) =~= t.to_multiset());
    }
}

/// The rows of an aligned table hold the heads and what they left.
proof fn lemma_aligned_rows(s: Seq<nat>, t: Seq<nat>, from: int)
    requires
        0 <= from <= s.len(),
        unclaimed(t, run_heads(s, 0)).len() == repeats_before(s, s.len() as int),
    ensures
        ({
            let left = unclaimed(t, run_heads(s, 0));
            aligned(s, t).skip(from).to_multiset() == run_heads(s, from).to_multiset().add(
                left.skip(repeats_before(s, from) as int).to_multiset(),
            )
        }),
    decreases s.len() - from,
{
    broadcast use group_to_multiset_ensures;

    let left = unclaimed(t, run_heads(s, 0));
    let rank = repeats_before(s, from) as int;
    let rows = aligned(s, t);
    lemma_heads_and_repeats(s, from);
    if from == s.len() {
        assert(rows.skip(from) =~= Seq::empty());
        assert(left.skip(rank) =~= Seq::empty());
        assert(run_heads(s, from).to_multiset().add(left.skip(rank).to_multiset())
            =~= rows.skip(from).to_multiset());
    } else {
        lemma_aligned_rows(s, t, from + 1);
        assert(rows.skip(from) =~= seq![rows[from]] + rows.skip(from + 1));
        lemma_prepend_multiset(rows[from], rows.skip(from + 1));
        lemma_heads_and_repeats(s, from + 1);
        if starts_run(s, from) {
            lemma_prepend_multiset(s[from], run_heads(s, from + 1));
        } else {
            assert(left.skip(rank) =~= seq![left[rank]] + left.skip(rank + 1));
            lemma_prepend_multiset(left[rank], left.skip(rank + 1));
        }
        assert(rows.skip(from).to_multiset() =~= run_heads(s, from).to_multiset().add(
            left.skip(rank).to_multiset(),
        ));
    }
}

/// Law of the lookup argument, row by row: the first row of the permuted input equals the table
/// beside it, and every later row equals the table beside it or the input above it.
pub proof fn lemma_lookup_rows_agree<F: PrimeField>(input: Seq<nat>, table: Seq<nat>, i: int)
    requires
        0 <= i < input.len(),
    ensures
        ({
            let a = sorted::<F>(input);
            let b = aligned(a, sorted::<F>(table));
            &&& a.len() == input.len()
            &&& b.len() == input.len()
            &&& a[i] == b[i] || i > 0 && a[i] == a[i - 1]
            &&& a[0] == b[0]
        }),
{
    lemma_sorted::<F>(input);
}

/// Law of the lookup argument as a whole: where every input occurs in the table, permuting changes
/// neither the inputs nor the table entries, counted.
pub proof fn lemma_lookup_is_permutation<F: PrimeField>(input: Seq<nat>, table: Seq<nat>)
    requires
        input.len() == table.len(),
        forall|i: int| 0 <= i < input.len() ==> table.contains(#[trigger] input[i]),
    ensures
        sorted::<F>(input).to_multiset() == input.to_multiset(),
        aligned(sorted::<F>(input), sorted::<F>(table)).to_multiset() == table.to_multiset(),
{
    broadcast use group_to_multiset_ensures;

    let s = sorted::<F>(input);
    let t = sorted::<F>(table);
    lemma_sorted::<F>(input);
    lemma_sorted::<F>(table);
    let heads = run_heads(s, 0);
    lemma_heads_strict::<F>(s, 0);
    assert forall|i: int| 0 <= i < heads.len() implies t.contains(#[trigger] heads[i]) by {
        let k = lemma_head_row(s, 0, i);
        assert(s.contains(s[k]));
        assert(s.to_multiset().count(s[k]) > 0);
        assert(input.contains(s[k]));
        assert(table.contains(input[input.index_of(s[k])]));
        assert(table.to_multiset().count(s[k]) > 0);
    }
    lemma_claims::<F>(t, heads);
    lemma_heads_and_repeats(s, 0);
    lemma_aligned_rows(s, t, 0);
    let left = unclaimed(t, heads);
    assert(aligned(s, t).skip(0) =~= aligned(s, t));
    assert(left.skip(0) =~= left);
    assert(aligned(s, t).to_multiset() =~= table.to_multiset());
}

/// Law of the sorting: the same elements, counted, in the lexicographic order of their memory
/// words.
pub proof fn lemma_sorted_by_words<F: PrimeField>(s: Seq<nat>, i: int, j: int)
    requires
        0 <= i < j < s.len(),
    ensures
        sorted::<F>(s).len() == s.len(),
        sorted::<F>(s).to_multiset() == s.to_multiset(),
        ({
            let a = F::words_of(sorted::<F>(s)[i]);
            let b = F::words_of(sorted::<F>(s)[j]);
            ||| a.0 < b.0
            ||| a.0 == b.0 && a.1 < b.1
            ||| a.0 == b.0 && a.1 == b.1 && a.2 < b.2
            ||| a.0 == b.0 && a.1 == b.1 && a.2 == b.2 && a.3 <= b.3
        }),
{
    lemma_sorted::<F>(s);
    let order = element_order::<F>();
    assert(order(sorted::<F>(s)[i], sorted::<F>(s)[j]));
}

/// Law of the runs: a row starts one if it is the first or differs from the row above it; the
/// heads are the values of these rows in order, and the rows between them are counted.
pub proof fn lemma_runs(s: Seq<nat>, i: int)
    requires
        0 <= i < s.len(),
    ensures
        run_heads(s, s.len() as int) == Seq::<nat>::empty(),
        repeats_before(s, 0) == 0,
        i == 0 || s[i] != s[i - 1] ==> run_heads(s, i) == seq![s[i]] + run_heads(s, i + 1)
            && repeats_before(s, i + 1) == repeats_before(s, i),
        i > 0 && s[i] == s[i - 1] ==> run_heads(s, i) == run_heads(s, i + 1) && repeats_before(
            s,
            i + 1,
        ) == repeats_before(s, i) + 1,
{
}

/// Law of the lining up, row by row: a row that starts a run holds the input beside it, and the
/// others hold, in order, what the runs left of the table.
pub proof fn lemma_aligned(s: Seq<nat>, t: Seq<nat>, i: int)
    requires
        0 <= i < s.len(),
    ensures
        aligned(s, t).len() == s.len(),
        i == 0 || s[i] != s[i - 1] ==> aligned(s, t)[i] == s[i],
        i > 0 && s[i] == s[i - 1] ==> aligned(s, t)[i] == unclaimed(
            t,
            run_heads(s, 0),
        )[repeats_before(s, i) as int],
{
}

/// Law of the padding: the rows themselves, then zeros.
pub proof fn lemma_padded(s: Seq<nat>, len: nat, i: int)
    requires
        s.len() <= len,
    ensures
        padded(s, len).len() == len,
        0 <= i < s.len() ==> padded(s, len)[i] == s[i],
        s.len() <= i < len ==> padded(s, len)[i] == 0,
{
}

/// The first head at or after `from` that the table lacks, or the number of heads.
proof fn lemma_first_missing(t: Seq<nat>, heads: Seq<nat>, from: int) -> (k: int)
    requires
        0 <= from <= heads.len(),
    ensures
        from <= k <= heads.len(),
        forall|i: int| from <= i < k ==> t.contains(#[trigger] heads[i]),
        k < heads.len() ==> !t.contains(heads[k]),
    decreases heads.len() - from,
{
    if from < heads.len() && t.contains(heads[from]) {
        lemma_first_missing(t, heads, from + 1)
    } else {
        from
    }
}

/// A head that the table lacks claims nothing, nor do those after it.
proof fn lemma_unclaimed_prefix(t: Seq<nat>, heads: Seq<nat>, k: int)
    requires
        0 <= k <= heads.len(),
        k < heads.len() ==> !t.contains(heads[k]),
    ensures
        unclaimed(t, heads) == unclaimed(t, heads.take(k)),
    decreases t.len(),
{
    if t.len() > 0 {
        let rest = t.drop_first();
        assert(t.contains(t[0]));
        assert forall|x: nat| rest.contains(x) implies t.contains(x) by {
            let i = rest.index_of(x);
            assert(t[i + 1] == x);
        }
        if heads.len() > 0 && heads[0] == t[0] {
            assert(heads.take(k).drop_first() =~= heads.drop_first().take(k - 1));
            lemma_unclaimed_prefix(rest, heads.drop_first(), k - 1);
        } else {
            lemma_unclaimed_prefix(rest, heads, k);
        }
    }
}

/// What is left of a table was in it.
proof fn lemma_unclaimed_in_table(t: Seq<nat>, heads: Seq<nat>, i: int)
    requires
        0 <= i < unclaimed(t, heads).len(),
    ensures
        t.contains(unclaimed(t, heads)[i]),
    decreases t.len(),
{
    let rest = t.drop_first();
    let claims = heads.len() > 0 && heads[0] == t[0];
    if !claims && i == 0 {
        assert(t.contains(t[0]));
    } else {
        let (h, k) = if claims {
            (heads.drop_first(), i)
        } else {
            (heads, i - 1)
        };
        lemma_unclaimed_in_table(rest, h, k);
        let at = rest.index_of(unclaimed(rest, h)[k]);
        assert(t[at + 1] == unclaimed(t, heads)[i]);
    }
}

/// What is left of a sorted table is sorted.
proof fn lemma_unclaimed_sorted<F: PrimeField>(t: Seq<nat>, heads: Seq<nat>)
    requires
        sorted_by(t, element_order::<F>()),
    ensures
        sorted_by(unclaimed(t, heads), element_order::<F>()),
    decreases t.len(),
{
    let order = element_order::<F>();
    if t.len() > 0 {
        let rest = t.drop_first();
        assert forall|i: int, j: int| 0 <= i < j < rest.len() implies #[trigger] order(
            rest[i],
            rest[j],
        ) by {
            assert(order(t[i + 1], t[j + 1]));
        }
        if heads.len() > 0 && heads[0] == t[0] {
            lemma_unclaimed_sorted::<F>(rest, heads.drop_first());
        } else {
            lemma_unclaimed_sorted::<F>(rest, heads);
            let (left, all) = (unclaimed(rest, heads), unclaimed(t, heads));
            assert forall|i: int, j: int| 0 <= i < j < all.len() implies #[trigger] order(
                all[i],
                all[j],
            ) by {
                if i == 0 {
                    lemma_unclaimed_in_table(rest, heads, j - 1);
                    let at = rest.index_of(left[j - 1]);
                    assert(order(t[0], t[at + 1]));
                } else {
                    assert(order(left[i - 1], left[j - 1]));
                }
            }
        }
    }
}

/// Law of the claims, for any input and table: the runs claim one table entry each, in order, up to
/// the first run whose value the table lacks, of which the return value is the number. What they
/// leave is the rest of the table, sorted.
pub proof fn lemma_claimed<F: PrimeField>(input: Seq<nat>, table: Seq<nat>) -> (k: int)
    ensures
        ({
            let heads = run_heads(sorted::<F>(input), 0);
            let left = unclaimed(sorted::<F>(table), heads);
            &&& 0 <= k <= heads.len()
            &&& forall|i: int| 0 <= i < k ==> table.contains(#[trigger] heads[i])
            &&& k < heads.len() ==> !table.contains(heads[k])
            &&& left.to_multiset().add(heads.take(k).to_multiset()) == table.to_multiset()
            &&& forall|i: int, j: int|
                0 <= i < j < left.len() ==> #[trigger] element_le::<F>(left[i], left[j])
        }),
{
    broadcast use group_to_multiset_ensures;

    let s = sorted::<F>(input);
    let t = sorted::<F>(table);
    lemma_sorted::<F>(input);
    lemma_sorted::<F>(table);
    let heads = run_heads(s, 0);
    lemma_heads_strict::<F>(s, 0);
    let k = lemma_first_missing(t, heads, 0);
    let claiming = heads.take(k);
    lemma_unclaimed_prefix(t, heads, k);
    assert forall|i: int, j: int| 0 <= i < j < claiming.len() implies #[trigger] element_le::<F>(
        claiming[i],
        claiming[j],
    ) && claiming[i] != claiming[j] by {
        assert(element_le::<F>(heads[i], heads[j]));
    }
    assert forall|i: int| 0 <= i < claiming.len() implies t.contains(#[trigger] claiming[i]) by {
        assert(t.contains(heads[i]));
    }
    lemma_claims::<F>(t, claiming);
    lemma_unclaimed_sorted::<F>(t, heads);
    let left = unclaimed(t, heads);
    let order = element_order::<F>();
    assert forall|i: int, j: int| 0 <= i < j < left.len() implies #[trigger] element_le::<F>(
        left[i],
        left[j],
    ) by {
        assert(order(left[i], left[j]));
    }
    assert forall|x: nat| t.contains(x) <==> table.contains(x) by {
        assert(t.to_multiset().count(x) == table.to_multiset().count(x));
    }
    k
}

} // verus!
