//! Functions of sparse matrix inputs, recorded as a tape of scalar
//! operations on the nonzeros of the inputs.
pub mod builder;

use vstd::prelude::*;

use crate::bits::Bits64;
use crate::sparsity::{columns_valid, concat_columns, Sparsity};

verus! {

#[derive(Debug, Clone, Copy, PartialEq, Eq, Hash, Structural)]
pub enum UnaryOp {
    Neg,
    Sin,
    Cos,
    Sqrt,
    Exp,
    Log,
}

#[derive(Debug, Clone, Copy, PartialEq, Eq, Hash, Structural)]
pub enum BinaryOp {
    Add,
    Sub,
    Mul,
    Div,
}

/// Index of a value on a tape.
pub type Value = usize;

#[derive(Debug, Clone, Copy, PartialEq, Eq, Structural)]
pub enum ValueData {
    /// Nonzero `nonzero` of input `input`.
    Input { input: u32, nonzero: u32 },
    /// Constant, by its bit pattern.
    Constant(Bits64),
    Unary(UnaryOp, Value),
    Binary(BinaryOp, Value, Value),
}

/// An output: a sparsity pattern, and the tape value of each of its
/// nonzeros.
pub struct Output {
    pub sparsity: Sparsity,
    pub values: Vec<Value>,
}

#[derive(Debug, Clone, PartialEq, Eq, Structural)]
pub enum VerifyError {
    OperandOutOfOrder { at: Value, operand: Value },
    InputIndexOutOfRange { at: Value, input: u32 },
    NonzeroOutOfRange { at: Value, input: u32, nonzero: u32 },
    OutputValueOutOfRange { output: usize, position: usize, value: Value },
    OutputLengthMismatch { output: usize, expected: usize, got: usize },
}

/// Value `i` reads a value at or after itself.
pub open spec fn out_of_order(d: ValueData, i: int) -> bool {
    match d {
        ValueData::Unary(_, a) => a >= i,
        ValueData::Binary(_, l, r) => l >= i || r >= i,
        _ => false,
    }
}

/// The first operand of value `i` that is not before it.
pub open spec fn late_operand(d: ValueData, i: int) -> Value {
    match d {
        ValueData::Unary(_, a) => a,
        ValueData::Binary(_, l, r) => if l >= i {
            l
        } else {
            r
        },
        _ => 0,
    }
}

/// The first value from `from` on that reads a value at or after itself,
/// or the length of the tape.
pub open spec fn first_out_of_order(tape: Seq<ValueData>, from: int) -> int
    decreases tape.len() - from,
{
    if from < 0 || from >= tape.len() {
        tape.len() as int
    } else if out_of_order(tape[from], from) {
        from
    } else {
        first_out_of_order(tape, from + 1)
    }
}

/// Every value reads only values before it.
pub open spec fn in_order(tape: Seq<ValueData>) -> bool {
    forall|i: int| 0 <= i < tape.len() ==> !out_of_order(#[trigger] tape[i], i)
}

pub struct Function {
    /// Sparsity pattern of each input.
    sparsity_in: Vec<Sparsity>,
    /// The tape.
    tape: Vec<ValueData>,
    /// Function outputs.
    outputs: Vec<Output>,
}

impl Function {
    #[verifier::type_invariant]
    closed spec fn inv(self) -> bool {
        in_order(self.tape@)
    }

    pub closed spec fn spec_sparsity_in(&self) -> Seq<Sparsity> {
        self.sparsity_in@
    }

    pub closed spec fn spec_tape(&self) -> Seq<ValueData> {
        self.tape@
    }

    pub closed spec fn spec_outputs(&self) -> Seq<Output> {
        self.outputs@
    }

    /// A function of inputs with the given patterns, whose tape is in order.
    /// The first value that reads a value at or after itself is refused,
    /// with the first such operand.
    pub fn new(sparsity_in: Vec<Sparsity>, tape: Vec<ValueData>, outputs: Vec<Output>) -> (r: Result<
        Function,
        VerifyError,
    >)
        ensures
            match r {
                Ok(f) => {
                    &&& in_order(tape@)
                    &&& f.spec_sparsity_in() == sparsity_in@
                    &&& f.spec_tape() == tape@
                    &&& f.spec_outputs() == outputs@
                },
                Err(e) => {
                    let at = first_out_of_order(tape@, 0);
                    &&& at < tape@.len()
                    &&& e == VerifyError::OperandOutOfOrder { at: at as Value, operand: late_operand(tape@[at], at) }
                },
            },
    {
        match verify(&tape) {
            Ok(()) => Ok(Function { sparsity_in, tape, outputs }),
            Err(e) => Err(e),
        }
    }

    pub fn num_inputs(&self) -> (r: usize)
        ensures
            r == self.spec_sparsity_in().len(),
    {
        self.sparsity_in.len()
    }

    pub fn num_outputs(&self) -> (r: usize)
        ensures
            r == self.spec_outputs().len(),
    {
        self.outputs.len()
    }
}

/// Checks that the tape is topologically sorted.
fn verify(tape: &Vec<ValueData>) -> (r: Result<(), VerifyError>)
    ensures
        r is Ok <==> in_order(tape@),
        r matches Err(e) ==> {
            let at = first_out_of_order(tape@, 0);
            &&& at < tape@.len()
            &&& e == VerifyError::OperandOutOfOrder { at: at as Value, operand: late_operand(tape@[at], at) }
        },
{
    let mut value: usize = 0;
    while value < tape.len()
        invariant
            value <= tape@.len(),
            forall|i: int| 0 <= i < value ==> !out_of_order(#[trigger] tape@[i], i),
            first_out_of_order(tape@, 0) == first_out_of_order(tape@, value as int),
        decreases tape@.len() - value,
    {
        match tape[value] {
            ValueData::Unary(_, operand) => {
                if operand >= value {
                    return Err(VerifyError::OperandOutOfOrder { at: value, operand });
                }
            },
            ValueData::Binary(_, lhs, rhs) => {
                if lhs >= value {
                    return Err(VerifyError::OperandOutOfOrder { at: value, operand: lhs });
                }
                if rhs >= value {
                    return Err(VerifyError::OperandOutOfOrder { at: value, operand: rhs });
                }
            },
            _ => {},
        }
        value += 1;
    }
    Ok(())
}


/// Nonzeros of the inputs before input `i`: the global column of the
/// first nonzero of input `i`.
pub open spec fn nnz_before(sp: Seq<Sparsity>, i: int) -> int
    decreases i,
{
    if i <= 0 || i > sp.len() {
        0
    } else {
        nnz_before(sp, i - 1) + sp[i - 1].spec_nnz()
    }
}

/// Value `v` depends on the input nonzero of global column `j`: the
/// nonzeros of each input in storage order, inputs one after another.
pub open spec fn depends(tape: Seq<ValueData>, sp: Seq<Sparsity>, v: int, j: int) -> bool
    decreases v,
{
    if v < 0 || v >= tape.len() {
        false
    } else {
        match tape[v] {
            ValueData::Input { input, nonzero } => input < sp.len() && nnz_before(sp, input as int) + nonzero == j,
            ValueData::Constant(_) => false,
            ValueData::Unary(_, a) => a < v && depends(tape, sp, a as int, j),
            ValueData::Binary(_, l, r) => l < v && r < v && (depends(tape, sp, l as int, j) || depends(
                tape,
                sp,
                r as int,
                j,
            )),
        }
    }
}

/// The values of the outputs' nonzeros, outputs one after another.
pub open spec fn flat_values(outs: Seq<Output>) -> Seq<Value>
    decreases outs.len(),
{
    if outs.len() == 0 {
        Seq::empty()
    } else {
        flat_values(outs.drop_last()) + outs.last().values@
    }
}

/// The rows before `upto` whose value depends on column `c`.
pub open spec fn rows_upto(tape: Seq<ValueData>, sp: Seq<Sparsity>, flat: Seq<Value>, c: int, upto: int) -> Seq<u32>
    decreases upto,
{
    if upto <= 0 {
        Seq::empty()
    } else {
        rows_upto(tape, sp, flat, c, upto - 1) + if depends(tape, sp, flat[upto - 1] as int, c) {
            seq![(upto - 1) as u32]
        } else {
            Seq::empty()
        }
    }
}

/// The inputs read name nonzeros of their inputs, the outputs give a
/// value of the tape for each of their nonzeros, and the pattern fits the
/// machine's integers.
pub open spec fn jacobian_ok(f: &Function) -> bool {
    let tape = f.spec_tape();
    let sp = f.spec_sparsity_in();
    let flat = flat_values(f.spec_outputs());
    let num_cols = nnz_before(sp, sp.len() as int);
    &&& forall|v: int|
        0 <= v < tape.len() ==> (#[trigger] tape[v] matches ValueData::Input { input, nonzero } ==> input
            < sp.len() && nonzero < sp[input as int].spec_nnz())
    &&& forall|k: int|
        0 <= k < f.spec_outputs().len() ==> (#[trigger] f.spec_outputs()[k]).values@.len()
            == f.spec_outputs()[k].sparsity.spec_nnz()
    &&& forall|r: int| 0 <= r < flat.len() ==> #[trigger] flat[r] < tape.len()
    &&& num_cols + 64 <= usize::MAX
    &&& jacobian_entries(f, num_cols) <= u32::MAX
    &&& flat.len() <= u32::MAX
}

/// How many entries the first `c` columns of the Jacobian pattern hold.
pub open spec fn jacobian_entries(f: &Function, c: int) -> nat
    decreases c,
{
    if c <= 0 {
        0
    } else {
        let flat = flat_values(f.spec_outputs());
        jacobian_entries(f, c - 1) + rows_upto(f.spec_tape(), f.spec_sparsity_in(), flat, c - 1, flat.len() as int).len()
    }
}

proof fn lemma_concat_entries(f: &Function, columns: Seq<Vec<u32>>, c: int)
    requires
        0 <= c <= columns.len(),
        forall|i: int|
            0 <= i < columns.len() ==> (#[trigger] columns[i])@ == rows_upto(
                f.spec_tape(),
                f.spec_sparsity_in(),
                flat_values(f.spec_outputs()),
                i,
                flat_values(f.spec_outputs()).len() as int,
            ),
    ensures
        concat_columns(columns, c).len() == jacobian_entries(f, c),
    decreases c,
{
    if c > 0 {
        lemma_concat_entries(f, columns, c - 1);
        assert(columns[c - 1]@ == rows_upto(
            f.spec_tape(),
            f.spec_sparsity_in(),
            flat_values(f.spec_outputs()),
            c - 1,
            flat_values(f.spec_outputs()).len() as int,
        ));
    }
}

/// The bit of `x` for column `k` of a block.
pub open spec fn bit(x: u64, k: u64) -> bool {
    (x >> k) & 1u64 == 1u64
}

proof fn lemma_bit_or(x: u64, y: u64, k: u64)
    requires
        k < 64,
    ensures
        bit(x | y, k) == (bit(x, k) || bit(y, k)),
{
    assert(((x | y) >> k) & 1u64 == 1u64 <==> ((x >> k) & 1u64 == 1u64 || (y >> k) & 1u64 == 1u64))
        by (bit_vector)
        requires
            k < 64,
    ;
}

proof fn lemma_bit_single(m: u64, k: u64)
    requires
        m < 64,
        k < 64,
    ensures
        bit(1u64 << m, k) == (m == k),
{
    assert(((1u64 << m) >> k) & 1u64 == 1u64 <==> m == k) by (bit_vector)
        requires
            m < 64,
            k < 64,
    ;
}

proof fn lemma_bit_zero(k: u64)
    ensures
        !bit(0u64, k),
{
    assert((0u64 >> k) & 1u64 != 1u64) by (bit_vector);
}

pub(crate) proof fn lemma_nnz_before_mono(sp: Seq<Sparsity>, a: int, b: int)
    requires
        0 <= a <= b <= sp.len(),
    ensures
        nnz_before(sp, a) <= nnz_before(sp, b),
        nnz_before(sp, a) >= 0,
    decreases b - a,
{
    if a < b {
        lemma_nnz_before_mono(sp, a, b - 1);
    } else {
        lemma_nnz_before_nonneg(sp, a);
    }
}

proof fn lemma_nnz_before_nonneg(sp: Seq<Sparsity>, a: int)
    ensures
        nnz_before(sp, a) >= 0,
    decreases a,
{
    if a > 0 {
        lemma_nnz_before_nonneg(sp, a - 1);
    }
}

/// A value depends only on columns of the input nonzeros.
proof fn lemma_depends_in_range(f: &Function, v: int, j: int)
    requires
        jacobian_ok(f),
        depends(f.spec_tape(), f.spec_sparsity_in(), v, j),
    ensures
        0 <= j < nnz_before(f.spec_sparsity_in(), f.spec_sparsity_in().len() as int),
    decreases v,
{
    let tape = f.spec_tape();
    let sp = f.spec_sparsity_in();
    match tape[v] {
        ValueData::Input { input, nonzero } => {
            assert(tape[v] matches ValueData::Input { input, nonzero });
            lemma_nnz_before_mono(sp, input as int, input + 1);
            lemma_nnz_before_mono(sp, input + 1, sp.len() as int);
        },
        ValueData::Unary(_, a) => {
            lemma_depends_in_range(f, a as int, j);
        },
        ValueData::Binary(_, l, r) => {
            if depends(tape, sp, l as int, j) {
                lemma_depends_in_range(f, l as int, j);
            } else {
                lemma_depends_in_range(f, r as int, j);
            }
        },
        _ => {},
    }
}

/// The rows before `upto` depending on `c` are increasing, below `upto`,
/// and exactly those rows.
proof fn lemma_rows_upto(tape: Seq<ValueData>, sp: Seq<Sparsity>, flat: Seq<Value>, c: int, upto: int)
    requires
        0 <= upto <= u32::MAX + 1,
    ensures
        rows_upto(tape, sp, flat, c, upto).len() <= upto,
        forall|i: int|
            0 <= i < rows_upto(tape, sp, flat, c, upto).len() ==> #[trigger] rows_upto(tape, sp, flat, c, upto)[i]
                < upto,
        forall|i: int, j: int|
            0 <= i < j < rows_upto(tape, sp, flat, c, upto).len() ==> #[trigger] rows_upto(tape, sp, flat, c, upto)[i]
                < #[trigger] rows_upto(tape, sp, flat, c, upto)[j],
        forall|r: u32|
            rows_upto(tape, sp, flat, c, upto).contains(r) <==> (r < upto && depends(tape, sp, flat[r as int] as int, c)),
    decreases upto,
{
    if upto > 0 {
        lemma_rows_upto(tape, sp, flat, c, upto - 1);
        let prev = rows_upto(tape, sp, flat, c, upto - 1);
        let cur = rows_upto(tape, sp, flat, c, upto);
        assert forall|r: u32| cur.contains(r) <==> (r < upto && depends(tape, sp, flat[r as int] as int, c)) by {
            if cur.contains(r) {
                let i = choose|i: int| 0 <= i < cur.len() && cur[i] == r;
                if i < prev.len() {
                    assert(prev.contains(r));
                }
            }
            if r < upto && depends(tape, sp, flat[r as int] as int, c) {
                if r < upto - 1 {
                    assert(prev.contains(r));
                    let i = choose|i: int| 0 <= i < prev.len() && prev[i] == r;
                    assert(cur[i] == r);
                } else {
                    assert(cur[prev.len() as int] == r);
                }
            }
        }
    }
}

fn flatten_values(outputs: &Vec<Output>) -> (r: Vec<Value>)
    ensures
        r@ == flat_values(outputs@),
{
    let mut flat: Vec<Value> = Vec::new();
    let mut k: usize = 0;
    while k < outputs.len()
        invariant
            k <= outputs@.len(),
            flat@ == flat_values(outputs@.take(k as int)),
        decreases outputs@.len() - k,
    {
        let vals = &outputs[k].values;
        let mut i: usize = 0;
        while i < vals.len()
            invariant
                i <= vals@.len(),
                flat@ == flat_values(outputs@.take(k as int)) + vals@.take(i as int),
            decreases vals@.len() - i,
        {
            flat.push(vals[i]);
            proof {
                assert(vals@.take(i + 1) == vals@.take(i as int).push(vals@[i as int]));
            }
            i += 1;
        }
        proof {
            assert(vals@.take(vals@.len() as int) == vals@);
            assert(outputs@.take(k + 1).drop_last() == outputs@.take(k as int));
            assert(outputs@.take(k + 1).last() == outputs@[k as int]);
        }
        k += 1;
    }
    proof {
        assert(outputs@.take(outputs@.len() as int) == outputs@);
    }
    flat
}

impl Function {
    /// Global column of the first nonzero of each input, and the total.
    fn input_nonzero_offsets(&self) -> (r: Vec<usize>)
        requires
            nnz_before(self.spec_sparsity_in(), self.spec_sparsity_in().len() as int) <= usize::MAX,
        ensures
            r@.len() == self.spec_sparsity_in().len() + 1,
            forall|i: int| 0 <= i < r@.len() ==> #[trigger] r@[i] == nnz_before(self.spec_sparsity_in(), i),
    {
        let ghost sp = self.spec_sparsity_in();
        let mut offsets: Vec<usize> = Vec::new();
        let mut sum: usize = 0;
        offsets.push(0);
        let mut i: usize = 0;
        while i < self.sparsity_in.len()
            invariant
                sp == self.sparsity_in@,
                nnz_before(sp, sp.len() as int) <= usize::MAX,
                i <= sp.len(),
                offsets@.len() == i + 1,
                sum == nnz_before(sp, i as int),
                forall|q: int| 0 <= q <= i ==> #[trigger] offsets@[q] == nnz_before(sp, q),
            decreases sp.len() - i,
        {
            proof {
                lemma_nnz_before_mono(sp, i + 1, sp.len() as int);
            }
            sum = sum + self.sparsity_in[i].nnz();
            offsets.push(sum);
            i += 1;
        }
        offsets
    }

    /// `dep[v]` gets the columns `block..block + 64` that value `v` depends
    /// on, one bit each.
    fn block_dependencies(&self, offsets: &Vec<usize>, block: usize, dep: &mut Vec<u64>)
        requires
            jacobian_ok(self),
            offsets@.len() == self.spec_sparsity_in().len() + 1,
            forall|i: int| 0 <= i < offsets@.len() ==> #[trigger] offsets@[i] == nnz_before(self.spec_sparsity_in(), i),
            old(dep)@.len() == self.spec_tape().len(),
        ensures
            final(dep)@.len() == self.spec_tape().len(),
            forall|v: int, k: u64|
                0 <= v < self.spec_tape().len() && k < 64 ==> (#[trigger] bit(final(dep)@[v], k) == depends(
                    self.spec_tape(),
                    self.spec_sparsity_in(),
                    v,
                    block + k,
                )),
    {
        proof {
            use_type_invariant(self);
        }
        let ghost tape = self.spec_tape();
        let ghost sp = self.spec_sparsity_in();
        let mut value: usize = 0;
        while value < self.tape.len()
            invariant
                tape == self.tape@,
                sp == self.sparsity_in@,
                in_order(tape),
                jacobian_ok(self),
                offsets@.len() == sp.len() + 1,
                forall|i: int| 0 <= i < offsets@.len() ==> #[trigger] offsets@[i] == nnz_before(sp, i),
                value <= tape.len(),
                dep@.len() == tape.len(),
                forall|v: int, k: u64|
                    0 <= v < value && k < 64 ==> (#[trigger] bit(dep@[v], k) == depends(tape, sp, v, block + k)),
            decreases tape.len() - value,
        {
            proof {
                assert(!out_of_order(tape[value as int], value as int));
            }
            let b: u64 = match self.tape[value] {
                ValueData::Constant(_) => 0u64,
                ValueData::Input { input, nonzero } => {
                    proof {
                        assert(tape[value as int] matches ValueData::Input { input, nonzero });
                        lemma_nnz_before_mono(sp, input + 1, sp.len() as int);
                    }
                    let j = offsets[input as usize] + nonzero as usize;
                    if block <= j && j - block < 64 {
                        1u64 << ((j - block) as u64)
                    } else {
                        0u64
                    }
                },
                ValueData::Unary(_, a) => dep[a],
                ValueData::Binary(_, l, r) => dep[l] | dep[r],
            };
            proof {
                assert forall|k: u64| k < 64 implies bit(b, k) == depends(tape, sp, value as int, block + k) by {
                    match tape[value as int] {
                        ValueData::Constant(_) => {
                            lemma_bit_zero(k);
                        },
                        ValueData::Input { input, nonzero } => {
                            let j = nnz_before(sp, input as int) + nonzero;
                            if block <= j && j - block < 64 {
                                lemma_bit_single((j - block) as u64, k);
                            } else {
                                lemma_bit_zero(k);
                            }
                        },
                        ValueData::Unary(_, a) => {
                            assert(bit(dep@[a as int], k) == depends(tape, sp, a as int, block + k));
                        },
                        ValueData::Binary(_, l, r) => {
                            assert(bit(dep@[l as int], k) == depends(tape, sp, l as int, block + k));
                            assert(bit(dep@[r as int], k) == depends(tape, sp, r as int, block + k));
                            lemma_bit_or(dep@[l as int], dep@[r as int], k);
                        },
                    }
                }
            }
            let ghost d0 = dep@;
            dep.set(value, b);
            proof {
                assert forall|v: int, k: u64|
                    0 <= v < value + 1 && k < 64 implies (#[trigger] bit(dep@[v], k) == depends(tape, sp, v, block + k)) by {
                    if v < value {
                        assert(dep@[v] == d0[v]);
                    }
                }
            }
            value += 1;
        }
    }
}


impl Function {
    /// The sparsity pattern of the Jacobian of the output nonzeros (rows:
    /// the outputs' nonzeros one after another) with respect to the input
    /// nonzeros (columns: the inputs' nonzeros one after another). Entry
    /// `(r, c)` is present exactly when output nonzero `r` depends on input
    /// nonzero `c`. Columns are processed 64 at a time, one bit each.
    #[verifier::loop_isolation(false)]
    pub fn jacobian_sparsity(&self) -> (j: Sparsity)
        requires
            jacobian_ok(self),
        ensures
            j.spec_num_rows() == flat_values(self.spec_outputs()).len(),
            j.spec_num_cols() == nnz_before(self.spec_sparsity_in(), self.spec_sparsity_in().len() as int),
            forall|r: u32, c: int|
                0 <= c < j.spec_num_cols() ==> (j.contains(r as int, c) <==> (r < flat_values(
                    self.spec_outputs(),
                ).len() && depends(
                    self.spec_tape(),
                    self.spec_sparsity_in(),
                    flat_values(self.spec_outputs())[r as int] as int,
                    c,
                ))),
    {
        let ghost tape = self.spec_tape();
        let ghost sp = self.spec_sparsity_in();
        let flat = flatten_values(&self.outputs);
        let num_rows = flat.len();
        let offsets = self.input_nonzero_offsets();
        let num_cols = offsets[self.sparsity_in.len()];
        let mut columns: Vec<Vec<u32>> = Vec::new();
        let mut c: usize = 0;
        while c < num_cols
            invariant
                c <= num_cols,
                columns@.len() == c,
                forall|i: int| 0 <= i < c ==> (#[trigger] columns@[i])@ == Seq::<u32>::empty(),
            decreases num_cols - c,
        {
            columns.push(Vec::new());
            c += 1;
        }
        let mut dep: Vec<u64> = Vec::new();
        let mut v: usize = 0;
        while v < self.tape.len()
            invariant
                v <= self.tape@.len(),
                dep@.len() == v,
            decreases self.tape@.len() - v,
        {
            dep.push(0);
            v += 1;
        }
        let mut block: usize = 0;
        while block < num_cols
            invariant
                block <= num_cols,
                columns@.len() == num_cols,
                dep@.len() == tape.len(),
                forall|c2: int|
                    0 <= c2 < num_cols ==> (#[trigger] columns@[c2])@ == if c2 < block {
                        rows_upto(tape, sp, flat@, c2, num_rows as int)
                    } else {
                        Seq::<u32>::empty()
                    },
            decreases num_cols - block,
        {
            self.block_dependencies(&offsets, block, &mut dep);
            let mut row: usize = 0;
            while row < num_rows
                invariant
                    row <= num_rows,
                    block < num_cols,
                    columns@.len() == num_cols,
                    dep@.len() == tape.len(),
                    forall|c2: int|
                        0 <= c2 < num_cols ==> (#[trigger] columns@[c2])@ == if c2 < block {
                            rows_upto(tape, sp, flat@, c2, num_rows as int)
                        } else if c2 < block + 64 {
                            rows_upto(tape, sp, flat@, c2, row as int)
                        } else {
                            Seq::<u32>::empty()
                        },
                decreases num_rows - row,
            {
                proof {
                    assert(flat@[row as int] < tape.len());
                }
                let bits = dep[flat[row]];
                let mut k: usize = 0;
                while k < 64
                    invariant
                        k <= 64,
                        row < num_rows,
                        block < num_cols,
                        columns@.len() == num_cols,
                        forall|c2: int|
                            0 <= c2 < num_cols ==> (#[trigger] columns@[c2])@ == if c2 < block {
                                rows_upto(tape, sp, flat@, c2, num_rows as int)
                            } else if c2 < block + k {
                                rows_upto(tape, sp, flat@, c2, row + 1)
                            } else if c2 < block + 64 {
                                rows_upto(tape, sp, flat@, c2, row as int)
                            } else {
                                Seq::<u32>::empty()
                            },
                    decreases 64 - k,
                {
                    let ghost col = block + k;
                    proof {
                        assert(bit(bits, k as u64) == depends(tape, sp, flat@[row as int] as int, block + k));
                    }
                    let ghost c0 = columns@;
                    if (bits >> (k as u64)) & 1u64 == 1u64 {
                        proof {
                            lemma_depends_in_range(self, flat@[row as int] as int, col);
                        }
                        columns[block + k].push(row as u32);
                        proof {
                            assert forall|c2: int| 0 <= c2 < num_cols implies (#[trigger] columns@[c2])@ == if c2 < block {
                                rows_upto(tape, sp, flat@, c2, num_rows as int)
                            } else if c2 < block + k + 1 {
                                rows_upto(tape, sp, flat@, c2, row + 1)
                            } else if c2 < block + 64 {
                                rows_upto(tape, sp, flat@, c2, row as int)
                            } else {
                                Seq::<u32>::empty()
                            } by {
                                if c2 != col {
                                    assert(columns@[c2] == c0[c2]);
                                }
                            }
                        }
                    } else {
                        proof {
                            assert forall|c2: int| 0 <= c2 < num_cols implies (#[trigger] columns@[c2])@ == if c2 < block {
                                rows_upto(tape, sp, flat@, c2, num_rows as int)
                            } else if c2 < block + k + 1 {
                                rows_upto(tape, sp, flat@, c2, row + 1)
                            } else if c2 < block + 64 {
                                rows_upto(tape, sp, flat@, c2, row as int)
                            } else {
                                Seq::<u32>::empty()
                            } by {
                                if c2 == col {
                                    assert(rows_upto(tape, sp, flat@, c2, row + 1) == rows_upto(tape, sp, flat@, c2, row as int));
                                }
                            }
                        }
                    }
                    k += 1;
                }
                row += 1;
            }
            if num_cols - block <= 64 {
                block = num_cols;
            } else {
                block = block + 64;
            }
        }
        proof {
            assert forall|c2: int| 0 <= c2 < num_cols implies (#[trigger] columns@[c2])@.len() <= num_rows by {
                lemma_rows_upto(tape, sp, flat@, c2, num_rows as int);
            }
            assert(columns_valid(num_rows as nat, columns@)) by {
                assert forall|c2: int, i: int|
                    0 <= c2 < columns@.len() && 0 <= i < columns@[c2]@.len() implies #[trigger] columns@[c2]@[i] < num_rows by {
                    lemma_rows_upto(tape, sp, flat@, c2, num_rows as int);
                }
                assert forall|c2: int, i: int, i2: int|
                    0 <= c2 < columns@.len() && 0 <= i < i2 < columns@[c2]@.len() implies #[trigger] columns@[c2]@[i]
                    < #[trigger] columns@[c2]@[i2] by {
                    lemma_rows_upto(tape, sp, flat@, c2, num_rows as int);
                }
            }
            assert forall|c2: int| 0 <= c2 < columns@.len() implies (#[trigger] columns@[c2])@ == rows_upto(
                self.spec_tape(),
                self.spec_sparsity_in(),
                flat_values(self.spec_outputs()),
                c2,
                flat_values(self.spec_outputs()).len() as int,
            ) by {}
            lemma_concat_entries(self, columns@, num_cols as int);
        }
        let j = Sparsity::from_columns(num_rows, num_cols, columns);
        proof {
            assert forall|r: u32, c2: int|
                0 <= c2 < j.spec_num_cols() implies (j.contains(r as int, c2) <==> (r < flat@.len() && depends(
                tape,
                sp,
                flat@[r as int] as int,
                c2,
            ))) by {
                lemma_rows_upto(tape, sp, flat@, c2, num_rows as int);
            }
        }
        j
    }
}

} // verus!
