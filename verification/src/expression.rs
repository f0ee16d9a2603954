//! Polynomial expressions over the columns of a circuit, and their evaluation row by row.
use crate::algebra::{add_mod, lemma_add_reduce, lemma_neg_cancels, mul_mod, neg_mod};
use crate::field::{slices, values, PrimeField};
use vstd::arithmetic::div_mod::{lemma_add_mod_noop, lemma_mul_mod_noop_left, lemma_small_mod};
use vstd::arithmetic::power::pow;
use vstd::prelude::*;

verus! {

/// A distance, in rows, from the row that is evaluated.
#[derive(Clone, Copy, Debug, PartialEq, Eq, Structural)]
pub struct Rotation(pub i32);

impl Rotation {
    /// The row itself.
    pub fn cur() -> (r: Rotation)
        ensures
            r.0 == 0,
    {
        Rotation(0)
    }

    /// The row above.
    pub fn prev() -> (r: Rotation)
        ensures
            r.0 == -1,
    {
        Rotation(-1)
    }

    /// The row below.
    pub fn next() -> (r: Rotation)
        ensures
            r.0 == 1,
    {
        Rotation(1)
    }
}

/// A polynomial expression.
#[derive(Debug)]
pub enum Expression<F> {
    /// A constant polynomial.
    Constant(F),
    /// A virtual selector, by its index.
    Selector(usize),
    /// A fixed column at a rotation.
    Fixed { query_index: usize, column_index: usize, rotation: Rotation },
    /// An advice column at a rotation.
    Advice { query_index: usize, column_index: usize, rotation: Rotation },
    /// An instance column at a rotation.
    Instance { query_index: usize, column_index: usize, rotation: Rotation },
    /// A negated polynomial.
    Negated(Box<Expression<F>>),
    /// The sum of two polynomials.
    Sum(Box<Expression<F>>, Box<Expression<F>>),
    /// The product of two polynomials.
    Product(Box<Expression<F>>, Box<Expression<F>>),
    /// A polynomial multiplied by a scalar.
    Scaled(Box<Expression<F>>, F),
}

/// What an expression is evaluated over: the columns, how many rows a rotation wraps around in,
/// and by how much a rotation is scaled.
pub struct Cells {
    pub size: int,
    pub rot_scale: int,
    pub fixed: Seq<Seq<nat>>,
    pub advice: Seq<Seq<nat>>,
    pub instance: Seq<Seq<nat>>,
}

/// The cells that the borrowed columns hold.
pub open spec fn cells<F: PrimeField>(
    size: usize,
    rot_scale: i32,
    fixed: Seq<&[F]>,
    advice: Seq<&[F]>,
    instance: Seq<&[F]>,
) -> Cells {
    Cells {
        size: size as int,
        rot_scale: rot_scale as int,
        fixed: slices(fixed),
        advice: slices(advice),
        instance: slices(instance),
    }
}

impl Cells {
    /// The row that lies `rotation` scaled rows from `row`, around the end of the column.
    pub open spec fn rotated(self, row: int, rotation: Rotation) -> int {
        (row + rotation.0 * self.rot_scale) % self.size
    }

    /// Whether a query reaches a cell, and 32-bit row arithmetic suffices to find it.
    pub open spec fn reaches(
        self,
        cols: Seq<Seq<nat>>,
        column: usize,
        row: int,
        rotation: Rotation,
    ) -> bool {
        &&& 0 < self.size <= i32::MAX
        &&& 0 <= row <= i32::MAX
        &&& i32::MIN <= rotation.0 * self.rot_scale <= i32::MAX
        &&& i32::MIN <= row + rotation.0 * self.rot_scale <= i32::MAX
        &&& column < cols.len()
        &&& self.rotated(row, rotation) < cols[column as int].len()
    }
}

impl<F: PrimeField> Expression<F> {
    /// The value of the expression in a row.
    pub open spec fn value_at(self, c: Cells, row: int) -> nat
        decreases self,
    {
        let p = F::modulus();
        match self {
            Expression::Constant(x) => x.value(),
            Expression::Selector(_) => 0,
            Expression::Fixed { column_index, rotation, .. } => {
                c.fixed[column_index as int][c.rotated(row, rotation)]
            },
            Expression::Advice { column_index, rotation, .. } => {
                c.advice[column_index as int][c.rotated(row, rotation)]
            },
            Expression::Instance { column_index, rotation, .. } => {
                c.instance[column_index as int][c.rotated(row, rotation)]
            },
            Expression::Negated(a) => neg_mod(p, a.value_at(c, row)),
            Expression::Sum(a, b) => add_mod(p, a.value_at(c, row), b.value_at(c, row)),
            Expression::Product(a, b) => mul_mod(p, a.value_at(c, row), b.value_at(c, row)),
            Expression::Scaled(a, x) => mul_mod(p, a.value_at(c, row), x.value()),
        }
    }

    /// Whether the expression has a value in a row: its queries reach cells and no virtual
    /// selector is left in it. A factor beside a zero is not looked at.
    pub open spec fn defined_at(self, c: Cells, row: int) -> bool
        decreases self,
    {
        match self {
            Expression::Constant(_) => true,
            Expression::Selector(_) => false,
            Expression::Fixed { column_index, rotation, .. } => c.reaches(
                c.fixed,
                column_index,
                row,
                rotation,
            ),
            Expression::Advice { column_index, rotation, .. } => c.reaches(
                c.advice,
                column_index,
                row,
                rotation,
            ),
            Expression::Instance { column_index, rotation, .. } => c.reaches(
                c.instance,
                column_index,
                row,
                rotation,
            ),
            Expression::Negated(a) => a.defined_at(c, row),
            Expression::Sum(a, b) => a.defined_at(c, row) && b.defined_at(c, row),
            Expression::Product(a, b) => a.defined_at(c, row) && (a.value_at(c, row) != 0
                ==> b.defined_at(c, row)),
            Expression::Scaled(a, _) => a.defined_at(c, row),
        }
    }

    /// The scalar, where the expression is a constant.
    pub fn is_constant(&self) -> (r: Option<F>)
        ensures
            r == match *self {
                Expression::Constant(x) => Some(x),
                _ => None,
            },
    {
        match self {
            Expression::Constant(x) => Some(*x),
            _ => None,
        }
    }

    /// The column, where the expression is a fixed column in the row itself.
    pub fn is_pure_fixed(&self) -> (r: Option<usize>)
        ensures
            r == match *self {
                Expression::Fixed { column_index, rotation, .. } if rotation.0 == 0 => Some(
                    column_index,
                ),
                _ => None,
            },
    {
        match self {
            Expression::Fixed { column_index, rotation, .. } => if rotation.0 == 0 {
                Some(*column_index)
            } else {
                None
            },
            _ => None,
        }
    }

    /// The column, where the expression is an advice column in the row itself.
    pub fn is_pure_advice(&self) -> (r: Option<usize>)
        ensures
            r == match *self {
                Expression::Advice { column_index, rotation, .. } if rotation.0 == 0 => Some(
                    column_index,
                ),
                _ => None,
            },
    {
        match self {
            Expression::Advice { column_index, rotation, .. } => if rotation.0 == 0 {
                Some(*column_index)
            } else {
                None
            },
            _ => None,
        }
    }

    /// The column, where the expression is an instance column in the row itself.
    pub fn is_pure_instance(&self) -> (r: Option<usize>)
        ensures
            r == match *self {
                Expression::Instance { column_index, rotation, .. } if rotation.0 == 0 => Some(
                    column_index,
                ),
                _ => None,
            },
    {
        match self {
            Expression::Instance { column_index, rotation, .. } => if rotation.0 == 0 {
                Some(*column_index)
            } else {
                None
            },
            _ => None,
        }
    }

    /// The value of the expression in one row.
    pub fn evaluate(
        &self,
        row: usize,
        size: usize,
        rot_scale: i32,
        fixed: &[&[F]],
        advice: &[&[F]],
        instance: &[&[F]],
    ) -> (r: F)
        requires
            self.defined_at(cells(size, rot_scale, fixed@, advice@, instance@), row as int),
        ensures
            r.value() == self.value_at(
                cells(size, rot_scale, fixed@, advice@, instance@),
                row as int,
            ),
        decreases *self,
    {
        match self {
            Expression::Constant(x) => *x,
            Expression::Selector(_) => F::zero(),
            Expression::Fixed { column_index, rotation, .. } => {
                let i = rotation_index(row, *rotation, rot_scale, size);
                fixed[*column_index][i]
            },
            Expression::Advice { column_index, rotation, .. } => {
                let i = rotation_index(row, *rotation, rot_scale, size);
                advice[*column_index][i]
            },
            Expression::Instance { column_index, rotation, .. } => {
                let i = rotation_index(row, *rotation, rot_scale, size);
                instance[*column_index][i]
            },
            Expression::Negated(a) => a.evaluate(
                row,
                size,
                rot_scale,
                fixed,
                advice,
                instance,
            ).neg(),
            Expression::Sum(a, b) => {
                let x = a.evaluate(row, size, rot_scale, fixed, advice, instance);
                let y = b.evaluate(row, size, rot_scale, fixed, advice, instance);
                x.add(y)
            },
            Expression::Product(a, b) => {
                let x = a.evaluate(row, size, rot_scale, fixed, advice, instance);
                if x.equals(F::zero()) {
                    proof {
                        F::lemma_modulus();
                        let y = b.value_at(
                            cells(size, rot_scale, fixed@, advice@, instance@),
                            row as int,
                        );
                        assert(0 * y == 0) by (nonlinear_arith);
                        lemma_small_mod(0, F::modulus());
                    }
                    x
                } else {
                    let y = b.evaluate(row, size, rot_scale, fixed, advice, instance);
                    x.mul(y)
                }
            },
            Expression::Scaled(a, x) => a.evaluate(
                row,
                size,
                rot_scale,
                fixed,
                advice,
                instance,
            ).mul(*x),
        }
    }
}

/// The row that lies `rotation` scaled rows from `row`, around the end of `size` rows.
pub fn rotation_index(row: usize, rotation: Rotation, rot_scale: i32, size: usize) -> (r: usize)
    requires
        0 < size <= i32::MAX,
        row <= i32::MAX,
        i32::MIN <= rotation.0 * rot_scale <= i32::MAX,
        i32::MIN <= row + rotation.0 * rot_scale <= i32::MAX,
    ensures
        r == (row + rotation.0 * rot_scale) % (size as int),
        r < size,
{
    let shifted: i32 = row as i32 + rotation.0 * rot_scale;
    match shifted.checked_rem_euclid(size as i32) {
        Some(r) => r as usize,
        None => 0,
    }
}

/// Writes the value of an expression into each row of `res`.
pub fn evaluate_expr<F: PrimeField>(
    expression: &Expression<F>,
    size: usize,
    rot_scale: i32,
    fixed: &[&[F]],
    advice: &[&[F]],
    instance: &[&[F]],
    res: &mut [F],
)
    requires
        forall|row: int|
            0 <= row < old(res)@.len() ==> #[trigger] expression.defined_at(
                cells(size, rot_scale, fixed@, advice@, instance@),
                row,
            ),
    ensures
        values(final(res)@) == Seq::new(
            old(res)@.len(),
            |row: int|
                expression.value_at(cells(size, rot_scale, fixed@, advice@, instance@), row),
        ),
{
    let ghost c = cells(size, rot_scale, fixed@, advice@, instance@);
    let len: usize = res.len();
    for row in 0..len
        invariant
            len == res@.len(),
            c == cells(size, rot_scale, fixed@, advice@, instance@),
            forall|k: int| 0 <= k < len ==> #[trigger] expression.defined_at(c, k),
            forall|k: int|
                0 <= k < row ==> (#[trigger] res@[k]).value() == expression.value_at(c, k),
    {
        assert(expression.defined_at(c, row as int));
        res[row] = expression.evaluate(row, size, rot_scale, fixed, advice, instance);
    }
    assert(values(res@) =~= Seq::new(len as nat, |row: int| expression.value_at(c, row)));
}

/// `init` and then the expressions, folded with powers of `theta`:
/// `(...(init theta + e_0) theta + ...) theta + e_n`.
pub open spec fn compressed<F: PrimeField>(
    theta: nat,
    init: nat,
    expressions: Seq<Expression<F>>,
    c: Cells,
    row: int,
) -> nat
    decreases expressions.len(),
{
    if expressions.len() == 0 {
        init
    } else {
        add_mod(
            F::modulus(),
            mul_mod(
                F::modulus(),
                compressed(theta, init, expressions.drop_last(), c, row),
                theta,
            ),
            expressions.last().value_at(c, row),
        )
    }
}

/// Folds the values of several expressions, with powers of `theta`, into each row of `res`.
pub fn evaluate_exprs<F: PrimeField>(
    expressions: &[Expression<F>],
    size: usize,
    rot_scale: i32,
    fixed: &[&[F]],
    advice: &[&[F]],
    instance: &[&[F]],
    theta: F,
    res: &mut [F],
)
    requires
        forall|k: int, row: int|
            0 <= k < expressions@.len() && 0 <= row < old(res)@.len()
                ==> #[trigger] expressions@[k].defined_at(
                cells(size, rot_scale, fixed@, advice@, instance@),
                row,
            ),
    ensures
        values(final(res)@) == Seq::new(
            old(res)@.len(),
            |row: int|
                compressed(
                    theta.value(),
                    old(res)@[row].value(),
                    expressions@,
                    cells(size, rot_scale, fixed@, advice@, instance@),
                    row,
                ),
        ),
{
    let ghost c = cells(size, rot_scale, fixed@, advice@, instance@);
    let ghost start = res@;
    let len: usize = res.len();
    for row in 0..len
        invariant
            len == res@.len(),
            len == start.len(),
            c == cells(size, rot_scale, fixed@, advice@, instance@),
            forall|k: int, j: int|
                0 <= k < expressions@.len() && 0 <= j < len
                    ==> #[trigger] expressions@[k].defined_at(c, j),
            forall|k: int|
                0 <= k < row ==> (#[trigger] res@[k]).value() == compressed(
                    theta.value(),
                    start[k].value(),
                    expressions@,
                    c,
                    k,
                ),
            forall|k: int| row <= k < len ==> #[trigger] res@[k] == start[k],
    {
        let mut acc = res[row];
        assert(expressions@.take(0) =~= Seq::empty());
        for k in 0..expressions.len()
            invariant
                row < len,
                c == cells(size, rot_scale, fixed@, advice@, instance@),
                forall|k: int, j: int|
                    0 <= k < expressions@.len() && 0 <= j < len
                        ==> #[trigger] expressions@[k].defined_at(c, j),
                acc.value() == compressed(
                    theta.value(),
                    start[row as int].value(),
                    expressions@.take(k as int),
                    c,
                    row as int,
                ),
        {
            assert(expressions@.take(k as int + 1).drop_last() =~= expressions@.take(k as int));
            assert(expressions@[k as int].defined_at(c, row as int));
            acc = acc.mul(theta);
            acc = acc.add(
                expressions[k].evaluate(row, size, rot_scale, fixed, advice, instance),
            );
        }
        assert(expressions@.take(expressions@.len() as int) =~= expressions@);
        res[row] = acc;
    }
    assert(values(res@) =~= Seq::new(
        len as nat,
        |row: int| compressed(theta.value(), start[row].value(), expressions@, c, row),
    ));
}

impl<F: PrimeField> Expression<F> {
    /// Law of the values: a constant is itself, a query reads its column as many rows away as the
    /// scaled rotation says, around the end, and the other expressions are the arithmetic of the
    /// field on the values of their parts.
    pub proof fn lemma_value_at(self, c: Cells, row: int)
        ensures
            ({
                let p = F::modulus();
                let v = self.value_at(c, row);
                match self {
                    Expression::Constant(x) => v == x.value(),
                    Expression::Selector(_) => v == 0,
                    Expression::Fixed { column_index, rotation, .. } => {
                        v == c.fixed[column_index as int][(row + rotation.0 * c.rot_scale) % c.size]
                    },
                    Expression::Advice { column_index, rotation, .. } => {
                        v == c.advice[column_index as int][(row + rotation.0 * c.rot_scale)
                            % c.size]
                    },
                    Expression::Instance { column_index, rotation, .. } => {
                        v == c.instance[column_index as int][(row + rotation.0 * c.rot_scale)
                            % c.size]
                    },
                    Expression::Negated(a) => v < p && (v + a.value_at(c, row)) % p == 0,
                    Expression::Sum(a, b) => v == (a.value_at(c, row) + b.value_at(c, row)) % p,
                    Expression::Product(a, b) => v == (a.value_at(c, row) * b.value_at(c, row)) % p,
                    Expression::Scaled(a, x) => v == (a.value_at(c, row) * x.value()) % p,
                }
            }),
    {
        F::lemma_modulus();
        match self {
            Expression::Negated(a) => lemma_neg_cancels(F::modulus(), a.value_at(c, row)),
            _ => {},
        }
    }

    /// Law of definedness: a query is defined where 32-bit row arithmetic reaches a cell, a
    /// selector nowhere, and the other expressions where their parts are, but for a factor beside
    /// a zero.
    pub proof fn lemma_defined_at(self, c: Cells, row: int)
        ensures
            ({
                let d = self.defined_at(c, row);
                match self {
                    Expression::Constant(_) => d,
                    Expression::Selector(_) => !d,
                    Expression::Fixed { column_index, rotation, .. } => {
                        let shift = rotation.0 * c.rot_scale;
                        d == (0 < c.size <= i32::MAX && 0 <= row <= i32::MAX && i32::MIN <= shift
                            <= i32::MAX && i32::MIN <= row + shift <= i32::MAX && column_index
                            < c.fixed.len() && (row + shift) % c.size
                            < c.fixed[column_index as int].len())
                    },
                    Expression::Advice { column_index, rotation, .. } => {
                        let shift = rotation.0 * c.rot_scale;
                        d == (0 < c.size <= i32::MAX && 0 <= row <= i32::MAX && i32::MIN <= shift
                            <= i32::MAX && i32::MIN <= row + shift <= i32::MAX && column_index
                            < c.advice.len() && (row + shift) % c.size
                            < c.advice[column_index as int].len())
                    },
                    Expression::Instance { column_index, rotation, .. } => {
                        let shift = rotation.0 * c.rot_scale;
                        d == (0 < c.size <= i32::MAX && 0 <= row <= i32::MAX && i32::MIN <= shift
                            <= i32::MAX && i32::MIN <= row + shift <= i32::MAX && column_index
                            < c.instance.len() && (row + shift) % c.size
                            < c.instance[column_index as int].len())
                    },
                    Expression::Negated(a) => d == a.defined_at(c, row),
                    Expression::Sum(a, b) => d == (a.defined_at(c, row) && b.defined_at(c, row)),
                    Expression::Product(a, b) => d == (a.defined_at(c, row) && (a.value_at(c, row)
                        == 0 || b.defined_at(c, row))),
                    Expression::Scaled(a, _) => d == a.defined_at(c, row),
                }
            }),
    {
    }
}

/// Law of compression, expression by expression: each multiplies what is there by `theta` and
/// adds itself.
pub proof fn lemma_compressed_step<F: PrimeField>(
    theta: nat,
    init: nat,
    es: Seq<Expression<F>>,
    e: Expression<F>,
    c: Cells,
    row: int,
)
    ensures
        compressed(theta, init, Seq::<Expression<F>>::empty(), c, row) == init,
        compressed(theta, init, es.push(e), c, row) == (compressed(theta, init, es, c, row) * theta
            + e.value_at(c, row)) % F::modulus(),
{
    F::lemma_modulus();
    assert(es.push(e).drop_last() =~= es);
    let x = compressed(theta, init, es, c, row) * theta;
    lemma_add_reduce(F::modulus(), x, e.value_at(c, row));
}

/// Law of compression: the polynomial in `theta` that has `init` and the values of the expressions
/// as its coefficients, the first expression at the highest power.
pub proof fn lemma_compressed_is_polynomial<F: PrimeField>(
    theta: nat,
    init: nat,
    es: Seq<Expression<F>>,
    c: Cells,
    row: int,
)
    requires
        init < F::modulus(),
    ensures
        compressed(theta, init, es, c, row) == Seq::new(
            es.len(),
            |k: int| es[k].value_at(c, row) * pow(theta as int, (es.len() - 1 - k) as nat),
        ).fold_left(init * pow(theta as int, es.len()), |x: int, y: int| x + y)
            % F::modulus() as int,
    decreases es.len(),
{
    let p = F::modulus() as int;
    let t = theta as int;
    let n = es.len();
    F::lemma_modulus();
    reveal(pow);
    let add = |x: int, y: int| x + y;
    let terms = Seq::new(n, |k: int| es[k].value_at(c, row) * pow(t, (n - 1 - k) as nat));
    if n == 0 {
        lemma_small_mod(init, F::modulus());
        assert(init * 1 == init) by (nonlinear_arith);
    } else {
        let m = (n - 1) as nat;
        let rest = es.drop_last();
        let lower = Seq::new(m, |k: int| rest[k].value_at(c, row) * pow(t, (m - 1 - k) as nat));
        lemma_compressed_is_polynomial(theta, init, rest, c, row);
        lemma_compressed_step(theta, init, rest, es.last(), c, row);
        assert(rest.push(es.last()) =~= es);
        let before = compressed(theta, init, rest, c, row) as int;
        let sum = lower.fold_left(init * pow(t, m), add);
        let e = es.last().value_at(c, row) as int;
        assert forall|k: int| 0 <= k < m implies #[trigger] terms.drop_last()[k] == lower[k]
            * t by {
            let v = es[k].value_at(c, row) as int;
            let low = pow(t, (m - 1 - k) as nat);
            assert(pow(t, (n - 1 - k) as nat) == t * low);
            assert(v * (t * low) == v * low * t) by (nonlinear_arith);
        }
        let w = pow(t, m);
        assert(init * (t * w) == init * w * t) by (nonlinear_arith);
        lemma_scaled_sum(lower, terms.drop_last(), init * w, t);
        assert(terms.last() == e * pow(t, 0));
        assert(e * 1 == e) by (nonlinear_arith);
        assert(terms.fold_left(init * pow(t, n), add) == sum * t + e);
        lemma_mul_mod_noop_left(sum, t, p);
        lemma_add_mod_noop(before * t, e, p);
        lemma_add_mod_noop(sum * t, e, p);
    }
}

/// A sum whose terms are all multiplied is multiplied.
proof fn lemma_scaled_sum(s: Seq<int>, t: Seq<int>, init: int, factor: int)
    requires
        s.len() == t.len(),
        forall|k: int| 0 <= k < s.len() ==> #[trigger] t[k] == s[k] * factor,
    ensures
        t.fold_left(init * factor, |x: int, y: int| x + y) == s.fold_left(
            init,
            |x: int, y: int| x + y,
        ) * factor,
    decreases s.len(),
{
    if s.len() > 0 {
        let add = |x: int, y: int| x + y;
        assert forall|k: int| 0 <= k < s.len() - 1 implies #[trigger] t.drop_last()[k]
            == s.drop_last()[k] * factor by {
            assert(t[k] == s[k] * factor);
        }
        lemma_scaled_sum(s.drop_last(), t.drop_last(), init, factor);
        let before = s.drop_last().fold_left(init, add);
        let last = s.last();
        assert(t[s.len() - 1] == s[s.len() - 1] * factor);
        assert(before * factor + last * factor == (before + last) * factor) by (nonlinear_arith);
    }
}

/// Law of the cells: the borrowed columns are found by kind, column and row, and nothing else of
/// them matters.
pub proof fn lemma_cells<F: PrimeField>(
    size: usize,
    rot_scale: i32,
    fixed: Seq<&[F]>,
    advice: Seq<&[F]>,
    instance: Seq<&[F]>,
    i: int,
    row: int,
)
    ensures
        ({
            let c = cells(size, rot_scale, fixed, advice, instance);
            &&& c.size == size
            &&& c.rot_scale == rot_scale
            &&& c.fixed.len() == fixed.len()
            &&& c.advice.len() == advice.len()
            &&& c.instance.len() == instance.len()
            &&& 0 <= i < fixed.len() ==> c.fixed[i].len() == fixed[i]@.len()
            &&& 0 <= i < advice.len() ==> c.advice[i].len() == advice[i]@.len()
            &&& 0 <= i < instance.len() ==> c.instance[i].len() == instance[i]@.len()
            &&& 0 <= i < fixed.len() && 0 <= row < fixed[i]@.len() ==> c.fixed[i][row]
                == fixed[i]@[row].value()
            &&& 0 <= i < advice.len() && 0 <= row < advice[i]@.len() ==> c.advice[i][row]
                == advice[i]@[row].value()
            &&& 0 <= i < instance.len() && 0 <= row < instance[i]@.len() ==> c.instance[i][row]
                == instance[i]@[row].value()
        }),
{
}

} // verus!
