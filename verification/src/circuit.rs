//! What the prover reads of a circuit and its proving key.
use crate::expression::{Cells, Expression, Rotation};
use crate::field::{repeat, values, zeros, PrimeField};
use crate::parallel::map_indices;
use vstd::arithmetic::power2::{lemma_pow2_pos, lemma_pow2_strictly_increases, pow2};
use vstd::bits::lemma_usize_shl_is_mul;
use vstd::prelude::*;

verus! {

/// The kind of a column.
#[derive(Clone, Copy, Debug, PartialEq, Eq, Structural)]
pub enum Any {
    Advice,
    Fixed,
    Instance,
}

/// A column, by its kind and its index among the columns of that kind.
#[derive(Clone, Copy, Debug, PartialEq, Eq, Structural)]
pub struct Column {
    pub index: usize,
    pub column_type: Any,
}

/// A lookup argument: the tuple of inputs has to occur among the tuples of the table.
#[derive(Debug)]
pub struct Lookup<F> {
    pub input_expressions: Vec<Expression<F>>,
    pub table_expressions: Vec<Expression<F>>,
}

/// The shape of a circuit.
#[derive(Debug)]
pub struct ConstraintSystem<F> {
    pub num_advice_columns: usize,
    pub num_instance_columns: usize,
    pub lookups: Vec<Lookup<F>>,
    /// The instance columns, by index, that are opened, each at a rotation.
    pub instance_queries: Vec<(usize, Rotation)>,
    /// The advice columns that are opened.
    pub advice_queries: Vec<(usize, Rotation)>,
    /// The fixed columns that are opened.
    pub fixed_queries: Vec<(usize, Rotation)>,
    /// The columns of the permutation argument, in its order.
    pub permutation_columns: Vec<Column>,
    /// The degree of the constraints.
    pub degree: usize,
    /// How many rows at the end of each column blind it, not counting the last.
    pub blinding_factors: usize,
}

/// A proving key: the circuit, its evaluation domain, and what is fixed of its columns.
#[derive(Debug)]
pub struct ProvingKey<F> {
    /// The binary logarithm of the number of rows.
    pub k: u32,
    pub cs: ConstraintSystem<F>,
    /// The generator of the domain.
    pub omega: F,
    pub omega_inv: F,
    /// The fixed columns, as values.
    pub fixed_values: Vec<Vec<F>>,
    /// The fixed columns, as coefficients.
    pub fixed_polys: Vec<Vec<F>>,
    /// For each column of the permutation argument, the label of the cell that each cell is
    /// mapped to.
    pub permutations: Vec<Vec<F>>,
    /// The same as coefficients.
    pub permutation_polys: Vec<Vec<F>>,
}

/// All columns have `size` rows.
pub open spec fn have_rows<F>(cols: Seq<Vec<F>>, size: nat) -> bool {
    forall|i: int| 0 <= i < cols.len() ==> (#[trigger] cols[i])@.len() == size
}

/// All queries are to columns below `count`.
pub open spec fn queries_below(queries: Seq<(usize, Rotation)>, count: nat) -> bool {
    forall|i: int| 0 <= i < queries.len() ==> (#[trigger] queries[i]).0 < count
}

impl<F: PrimeField> Expression<F> {
    /// Whether the expression has a value in every row of a circuit with the given numbers of
    /// columns and rows, whatever the columns hold.
    pub open spec fn supported(self, fixed: nat, advice: nat, instance: nat, size: nat) -> bool
        decreases self,
    {
        match self {
            Expression::Constant(_) => true,
            Expression::Selector(_) => false,
            Expression::Fixed { column_index, rotation, .. } => column_index < fixed && rotation.0
                + size <= i32::MAX + 1,
            Expression::Advice { column_index, rotation, .. } => column_index < advice && rotation.0
                + size <= i32::MAX + 1,
            Expression::Instance { column_index, rotation, .. } => column_index < instance
                && rotation.0 + size <= i32::MAX + 1,
            Expression::Negated(a) => a.supported(fixed, advice, instance, size),
            Expression::Sum(a, b) => a.supported(fixed, advice, instance, size) && b.supported(
                fixed,
                advice,
                instance,
                size,
            ),
            Expression::Product(a, b) => a.supported(fixed, advice, instance, size) && b.supported(
                fixed,
                advice,
                instance,
                size,
            ),
            Expression::Scaled(a, _) => a.supported(fixed, advice, instance, size),
        }
    }

    /// A supported expression is defined in every row.
    pub proof fn lemma_supported(self, c: Cells, row: int)
        requires
            0 < c.size <= i32::MAX,
            c.rot_scale == 1,
            0 <= row < c.size,
            forall|i: int| 0 <= i < c.fixed.len() ==> (#[trigger] c.fixed[i]).len() == c.size,
            forall|i: int| 0 <= i < c.advice.len() ==> (#[trigger] c.advice[i]).len() == c.size,
            forall|i: int| 0 <= i < c.instance.len() ==> (#[trigger] c.instance[i]).len() == c.size,
            self.supported(c.fixed.len(), c.advice.len(), c.instance.len(), c.size as nat),
        ensures
            self.defined_at(c, row),
        decreases self,
    {
        match self {
            Expression::Negated(a) => a.lemma_supported(c, row),
            Expression::Sum(a, b) => {
                a.lemma_supported(c, row);
                b.lemma_supported(c, row);
            },
            Expression::Product(a, b) => {
                a.lemma_supported(c, row);
                b.lemma_supported(c, row);
            },
            Expression::Scaled(a, _) => a.lemma_supported(c, row),
            _ => {},
        }
    }

    /// More advice columns do no harm.
    pub proof fn lemma_more_advice(
        self,
        fixed: nat,
        advice: nat,
        more: nat,
        instance: nat,
        size: nat,
    )
        requires
            self.supported(fixed, advice, instance, size),
            advice <= more,
        ensures
            self.supported(fixed, more, instance, size),
        decreases self,
    {
        match self {
            Expression::Negated(a) => a.lemma_more_advice(fixed, advice, more, instance, size),
            Expression::Sum(a, b) => {
                a.lemma_more_advice(fixed, advice, more, instance, size);
                b.lemma_more_advice(fixed, advice, more, instance, size);
            },
            Expression::Product(a, b) => {
                a.lemma_more_advice(fixed, advice, more, instance, size);
                b.lemma_more_advice(fixed, advice, more, instance, size);
            },
            Expression::Scaled(a, _) => a.lemma_more_advice(fixed, advice, more, instance, size),
            _ => {},
        }
    }

    fn is_supported(&self, fixed: usize, advice: usize, instance: usize, size: usize) -> (r: bool)
        requires
            0 < size <= 0x40000000,
        ensures
            r == self.supported(fixed as nat, advice as nat, instance as nat, size as nat),
        decreases *self,
    {
        match self {
            Expression::Constant(_) => true,
            Expression::Selector(_) => false,
            Expression::Fixed { column_index, rotation, .. } => *column_index < fixed && rotation.0
                <= i32::MAX - (size as i32 - 1),
            Expression::Advice { column_index, rotation, .. } => *column_index < advice
                && rotation.0 <= i32::MAX - (size as i32 - 1),
            Expression::Instance { column_index, rotation, .. } => *column_index < instance
                && rotation.0 <= i32::MAX - (size as i32 - 1),
            Expression::Negated(a) => a.is_supported(fixed, advice, instance, size),
            Expression::Sum(a, b) => a.is_supported(fixed, advice, instance, size)
                && b.is_supported(fixed, advice, instance, size),
            Expression::Product(a, b) => a.is_supported(fixed, advice, instance, size)
                && b.is_supported(fixed, advice, instance, size),
            Expression::Scaled(a, _) => a.is_supported(fixed, advice, instance, size),
        }
    }
}

fn all_supported<F: PrimeField>(
    expressions: &Vec<Expression<F>>,
    fixed: usize,
    advice: usize,
    instance: usize,
    size: usize,
) -> (r: bool)
    requires
        0 < size <= 0x40000000,
    ensures
        r == (forall|i: int|
            0 <= i < expressions@.len() ==> #[trigger] expressions@[i].supported(
                fixed as nat,
                advice as nat,
                instance as nat,
                size as nat,
            )),
{
    for i in 0..expressions.len()
        invariant
            0 < size <= 0x40000000,
            forall|k: int|
                0 <= k < i ==> #[trigger] expressions@[k].supported(
                    fixed as nat,
                    advice as nat,
                    instance as nat,
                    size as nat,
                ),
    {
        if !expressions[i].is_supported(fixed, advice, instance, size) {
            return false;
        }
    }
    true
}

/// Whether all columns have `size` rows.
pub fn all_have_rows<F>(cols: &Vec<Vec<F>>, size: usize) -> (r: bool)
    ensures
        r == have_rows(cols@, size as nat),
{
    for i in 0..cols.len()
        invariant
            forall|k: int| 0 <= k < i ==> (#[trigger] cols@[k])@.len() == size,
    {
        if cols[i].len() != size {
            return false;
        }
    }
    true
}

fn all_queries_below(queries: &Vec<(usize, Rotation)>, count: usize) -> (r: bool)
    ensures
        r == queries_below(queries@, count as nat),
{
    for i in 0..queries.len()
        invariant
            forall|k: int| 0 <= k < i ==> (#[trigger] queries@[k]).0 < count,
    {
        if queries[i].0 >= count {
            return false;
        }
    }
    true
}

impl<F: PrimeField> ProvingKey<F> {
    /// The number of rows.
    pub open spec fn spec_size(self) -> nat {
        pow2(self.k as nat)
    }

    /// The number of columns of a kind.
    pub open spec fn column_count(self, kind: Any) -> nat {
        match kind {
            Any::Advice => self.cs.num_advice_columns as nat,
            Any::Fixed => self.fixed_values@.len(),
            Any::Instance => self.cs.num_instance_columns as nat,
        }
    }

    pub open spec fn supports(self, e: Expression<F>) -> bool {
        e.supported(
            self.column_count(Any::Fixed),
            self.column_count(Any::Advice),
            self.column_count(Any::Instance),
            self.spec_size(),
        )
    }

    pub open spec fn supports_all(self, es: Seq<Expression<F>>) -> bool {
        forall|i: int| 0 <= i < es.len() ==> self.supports(#[trigger] es[i])
    }

    /// The parts of the key fit together.
    pub open spec fn valid(self) -> bool {
        &&& self.k <= 30
        &&& self.cs.blinding_factors < self.spec_size()
        &&& self.cs.degree >= 3
        &&& self.cs.permutation_columns@.len() > 0 ==> self.k > 0
        &&& self.cs.lookups@.len() <= usize::MAX / 2
        &&& have_rows(self.fixed_values@, self.spec_size())
        &&& have_rows(self.permutations@, self.spec_size())
        &&& self.permutations@.len() == self.cs.permutation_columns@.len()
        &&& forall|i: int|
            0 <= i < self.cs.permutation_columns@.len() ==> (
            #[trigger] self.cs.permutation_columns@[i]).index < self.column_count(
                self.cs.permutation_columns@[i].column_type,
            )
        &&& forall|i: int|
            0 <= i < self.cs.lookups@.len() ==> self.supports_all(
                (#[trigger] self.cs.lookups@[i]).input_expressions@,
            ) && self.supports_all(self.cs.lookups@[i].table_expressions@)
        &&& queries_below(self.cs.instance_queries@, self.cs.num_instance_columns as nat)
        &&& queries_below(self.cs.advice_queries@, self.cs.num_advice_columns as nat)
        &&& queries_below(self.cs.fixed_queries@, self.fixed_polys@.len())
    }

    /// The rows from this one on are left to blinding.
    pub open spec fn spec_unusable_rows_start(self) -> int {
        self.spec_size() - (self.cs.blinding_factors + 1)
    }

    /// The number of rows.
    pub fn size(&self) -> (r: usize)
        requires
            self.k < usize::BITS,
        ensures
            r == self.spec_size(),
    {
        proof {
            lemma_pow2_no_overflow(self.k as nat);
            lemma_usize_shl_is_mul(1, self.k as usize);
        }
        1usize << self.k
    }

    /// The first of the rows that are left to blinding.
    pub fn unusable_rows_start(&self) -> (r: usize)
        requires
            self.k < usize::BITS,
            self.cs.blinding_factors < self.spec_size(),
        ensures
            r == self.spec_unusable_rows_start(),
    {
        self.size() - (self.cs.blinding_factors + 1)
    }

    /// How many columns one product of the permutation argument covers.
    pub fn chunk_len(&self) -> (r: usize)
        requires
            self.cs.degree >= 3,
        ensures
            r == self.cs.degree - 2,
    {
        self.cs.degree - 2
    }

    /// Whether the parts of the key fit together.
    pub fn is_valid(&self) -> (r: bool)
        ensures
            r == self.valid(),
    {
        if self.k > 30 {
            return false;
        }
        proof {
            lemma_pow2_small(self.k as nat);
        }
        let size: usize = self.size();
        let fixed: usize = self.fixed_values.len();
        let advice: usize = self.cs.num_advice_columns;
        let instance: usize = self.cs.num_instance_columns;
        if self.cs.blinding_factors >= size || self.cs.degree < 3
            || self.cs.permutation_columns.len() > 0 && self.k == 0 || self.cs.lookups.len()
            > usize::MAX / 2 || !all_have_rows(&self.fixed_values, size) || !all_have_rows(
            &self.permutations,
            size,
        ) || self.permutations.len() != self.cs.permutation_columns.len() {
            return false;
        }
        for i in 0..self.cs.permutation_columns.len()
            invariant
                fixed == self.fixed_values@.len(),
                advice == self.cs.num_advice_columns,
                instance == self.cs.num_instance_columns,
                forall|k: int|
                    0 <= k < i ==> (#[trigger] self.cs.permutation_columns@[k]).index
                        < self.column_count(self.cs.permutation_columns@[k].column_type),
        {
            let column = self.cs.permutation_columns[i];
            let count = match column.column_type {
                Any::Advice => advice,
                Any::Fixed => fixed,
                Any::Instance => instance,
            };
            if column.index >= count {
                return false;
            }
        }
        for i in 0..self.cs.lookups.len()
            invariant
                fixed == self.fixed_values@.len(),
                advice == self.cs.num_advice_columns,
                instance == self.cs.num_instance_columns,
                size == self.spec_size(),
                0 < size <= 0x40000000,
                forall|k: int|
                    0 <= k < i ==> self.supports_all(
                        (#[trigger] self.cs.lookups@[k]).input_expressions@,
                    ) && self.supports_all(self.cs.lookups@[k].table_expressions@),
        {
            let lookup = &self.cs.lookups[i];
            let inputs = all_supported(&lookup.input_expressions, fixed, advice, instance, size);
            let tables = all_supported(&lookup.table_expressions, fixed, advice, instance, size);
            assert(inputs == self.supports_all(lookup.input_expressions@));
            assert(tables == self.supports_all(lookup.table_expressions@));
            if !inputs || !tables {
                return false;
            }
        }
        all_queries_below(&self.cs.instance_queries, instance) && all_queries_below(
            &self.cs.advice_queries,
            advice,
        ) && all_queries_below(&self.cs.fixed_queries, self.fixed_polys.len())
    }
}

proof fn lemma_pow2_no_overflow(k: nat)
    requires
        k < usize::BITS,
    ensures
        pow2(k) <= usize::MAX,
{
    vstd::bits::lemma_usize_pow2_no_overflow(k);
}

/// `2^k` for the sizes of a circuit.
pub proof fn lemma_pow2_small(k: nat)
    requires
        k <= 30,
    ensures
        0 < pow2(k) <= 0x40000000,
{
    lemma_pow2_pos(k);
    vstd::arithmetic::power2::lemma2_to64();
    if k < 30 {
        lemma_pow2_strictly_increases(k, 30);
    }
}

spec fn is_zero_column<F: PrimeField>(column: Vec<F>, rows: usize) -> bool {
    values(column@) == zeros(rows as nat) && column@.len() == rows
}

fn zero_column<F: PrimeField>(rows: usize) -> (r: Vec<F>)
    ensures
        is_zero_column(r, rows),
{
    let r = repeat(F::zero(), rows);
    assert(values(r@) =~= zeros(rows as nat));
    r
}

/// Empty advice columns for a circuit: all rows zero.
pub fn prepare_advice_buffer<F: PrimeField>(pk: &ProvingKey<F>) -> (r: Vec<Vec<F>>)
    requires
        pk.k < usize::BITS,
    ensures
        r@.len() == pk.cs.num_advice_columns,
        forall|i: int| 0 <= i < r@.len() ==> values((#[trigger] r@[i])@) == zeros(pk.spec_size()),
        have_rows(r@, pk.spec_size()),
        forall|i: int, row: int|
            0 <= i < pk.cs.num_advice_columns && 0 <= row < pow2(pk.k as nat)
                ==> r@[i]@.len() == pow2(pk.k as nat) && (#[trigger] r@[i]@[row]).value() == 0,
{
    let rows: usize = pk.size();
    let fresh = |i: usize| -> (column: Vec<F>)
        ensures
            is_zero_column(column, rows),
    {
        zero_column(rows)
    };
    let r = map_indices(pk.cs.num_advice_columns, fresh);
    proof {
        assert forall|i: int, row: int|
            0 <= i < pk.cs.num_advice_columns && 0 <= row < pow2(pk.k as nat) implies r@[i]@.len()
            == pow2(pk.k as nat) && (#[trigger] r@[i]@[row]).value() == 0 by {
            assert(is_zero_column(r@[i], rows));
            assert(values(r@[i]@)[row] == r@[i]@[row].value());
        }
    }
    r
}

impl<F: PrimeField> Expression<F> {
    /// Law of support: a query is supported if its column is there and 32-bit row arithmetic
    /// suffices in the last row, a selector never is, and the other expressions are if their parts
    /// are.
    pub proof fn lemma_supported_cases(self, fixed: nat, advice: nat, instance: nat, size: nat)
        ensures
            ({
                let r = self.supported(fixed, advice, instance, size);
                match self {
                    Expression::Constant(_) => r,
                    Expression::Selector(_) => !r,
                    Expression::Fixed { column_index, rotation, .. } => r == (column_index < fixed
                        && rotation.0 + (size - 1) <= i32::MAX),
                    Expression::Advice { column_index, rotation, .. } => r == (column_index < advice
                        && rotation.0 + (size - 1) <= i32::MAX),
                    Expression::Instance { column_index, rotation, .. } => r == (column_index
                        < instance && rotation.0 + (size - 1) <= i32::MAX),
                    Expression::Negated(a) => r == a.supported(fixed, advice, instance, size),
                    Expression::Sum(a, b) => r == (a.supported(fixed, advice, instance, size)
                        && b.supported(fixed, advice, instance, size)),
                    Expression::Product(a, b) => r == (a.supported(fixed, advice, instance, size)
                        && b.supported(fixed, advice, instance, size)),
                    Expression::Scaled(a, _) => r == a.supported(fixed, advice, instance, size),
                }
            }),
    {
    }
}

impl<F: PrimeField> ProvingKey<F> {
    /// Law of the rows: there are `2^k`, of which all but the last `blinding_factors + 1` are
    /// usable.
    pub proof fn lemma_rows(self)
        ensures
            self.spec_size() == pow2(self.k as nat),
            self.spec_unusable_rows_start() + self.cs.blinding_factors + 1 == pow2(self.k as nat),
            self.column_count(Any::Advice) == self.cs.num_advice_columns,
            self.column_count(Any::Fixed) == self.fixed_values@.len(),
            self.column_count(Any::Instance) == self.cs.num_instance_columns,
    {
    }

    /// Law of the keys: what makes a key valid. There are at most `2^30` rows, and a usable
    /// remainder; a chunk of the permutation argument covers a column; its columns are there, and
    /// have two rows at least and images; every fixed column and every image has all rows; every
    /// lookup has a value in every row; and every opened column is there.
    pub proof fn lemma_valid(self)
        ensures
            self.valid() == ({
                let size = pow2(self.k as nat);
                let (advice, instance) = (
                    self.cs.num_advice_columns as nat,
                    self.cs.num_instance_columns as nat,
                );
                let fixed = self.fixed_values@.len();
                let columns = self.cs.permutation_columns@;
                let lookups = self.cs.lookups@;
                &&& self.k <= 30
                &&& self.cs.blinding_factors + 1 <= size
                &&& self.cs.degree - 2 >= 1
                &&& columns.len() == 0 || self.k >= 1
                &&& lookups.len() <= usize::MAX / 2
                &&& forall|i: int|
                    0 <= i < fixed ==> (#[trigger] self.fixed_values@[i])@.len() == size
                &&& forall|i: int|
                    0 <= i < self.permutations@.len() ==> (#[trigger] self.permutations@[i])@.len()
                        == size
                &&& self.permutations@.len() == columns.len()
                &&& forall|i: int|
                    0 <= i < columns.len() ==> (#[trigger] columns[i]).index
                        < match columns[i].column_type {
                        Any::Advice => advice,
                        Any::Fixed => fixed,
                        Any::Instance => instance,
                    }
                &&& forall|i: int, k: int|
                    0 <= i < lookups.len() && 0 <= k < lookups[i].input_expressions@.len()
                        ==> #[trigger] lookups[i].input_expressions@[k].supported(
                        fixed,
                        advice,
                        instance,
                        size,
                    )
                &&& forall|i: int, k: int|
                    0 <= i < lookups.len() && 0 <= k < lookups[i].table_expressions@.len()
                        ==> #[trigger] lookups[i].table_expressions@[k].supported(
                        fixed,
                        advice,
                        instance,
                        size,
                    )
                &&& forall|i: int|
                    0 <= i < self.cs.instance_queries@.len() ==> (
                    #[trigger] self.cs.instance_queries@[i]).0 < instance
                &&& forall|i: int|
                    0 <= i < self.cs.advice_queries@.len() ==> (
                    #[trigger] self.cs.advice_queries@[i]).0 < advice
                &&& forall|i: int|
                    0 <= i < self.cs.fixed_queries@.len() ==> (
                    #[trigger] self.cs.fixed_queries@[i]).0 < self.fixed_polys@.len()
            }),
    {
        let (advice, instance) = (
            self.cs.num_advice_columns as nat,
            self.cs.num_instance_columns as nat,
        );
        let fixed = self.fixed_values@.len();
        let size = pow2(self.k as nat);
        let lookups = self.cs.lookups@;
        if self.valid() {
            assert forall|i: int, k: int|
                0 <= i < lookups.len() && 0 <= k
                    < lookups[i].input_expressions@.len() implies #[trigger] lookups[i]
            .input_expressions@[k].supported(fixed, advice, instance, size) by {
                assert(self.supports_all(lookups[i].input_expressions@));
                assert(self.supports(lookups[i].input_expressions@[k]));
            }
            assert forall|i: int, k: int|
                0 <= i < lookups.len() && 0 <= k
                    < lookups[i].table_expressions@.len() implies #[trigger] lookups[i]
            .table_expressions@[k].supported(fixed, advice, instance, size) by {
                assert(self.supports_all(lookups[i].table_expressions@));
                assert(self.supports(lookups[i].table_expressions@[k]));
            }
        }
    }
}

/// Law of the rows of columns: all columns have them, or one has not.
pub proof fn lemma_have_rows<F>(cols: Seq<Vec<F>>, size: nat)
    ensures
        have_rows(cols, size) <==> cols.map_values(|c: Vec<F>| c@.len()) == Seq::new(
            cols.len(),
            |i: int| size,
        ),
{
    let lens = cols.map_values(|c: Vec<F>| c@.len());
    let wanted = Seq::new(cols.len(), |i: int| size);
    if have_rows(cols, size) {
        assert(lens =~= wanted);
    }
    if lens == wanted {
        assert forall|i: int| 0 <= i < cols.len() implies (#[trigger] cols[i])@.len() == size by {
            assert(lens[i] == wanted[i]);
        }
    }
}

} // verus!
