//! From a program to what a proving backend consumes: the trace matrix of its
//! execution and the polynomial identities that tie each row of that matrix
//! to the program.
use crate::field::field_add;
use crate::field::field_mul;
use crate::field::field_sub;
use crate::field::Felt;
use crate::utils::one_row;
use crate::utils::one_row_col;
use crate::utils::Column;
use crate::vm::ceil_log2;
use crate::vm::lemma_ceil_log2_bound;
use crate::vm::lemma_error_is_final;
use crate::vm::lemma_stack_after_next;
use crate::vm::lemma_top_two;
use crate::vm::lemma_trace_ends_with_result;
use crate::vm::lemma_well_formed_never_underflows;
use crate::vm::memory_trace;
use crate::vm::run_result;
use crate::vm::stack_after;
use crate::vm::values;
use crate::vm::well_formed;
use crate::vm::Op;
use crate::vm::VmError;
use crate::vm::VM;
use vstd::arithmetic::power2::lemma2_to64;
use vstd::arithmetic::power2::lemma2_to64_rest;
use vstd::arithmetic::power2::lemma_pow2_pos;
use vstd::arithmetic::power2::lemma_pow2_strictly_increases;
use vstd::arithmetic::power2::lemma_pow2_unfold;
use vstd::arithmetic::power2::pow2;
use vstd::prelude::*;

verus! {

/// The trace matrix of a memory trace, column by column: column `i` has
/// `rows` rows, holds entry `i` of the trace in row 0 and zero below it.
pub open spec fn trace_matrix(trace: Seq<int>, rows: nat) -> Seq<Seq<int>> {
    Seq::new(trace.len(), |i: int| one_row(trace[i], rows))
}

/// The values of a sequence of columns.
pub open spec fn matrix_values(columns: Seq<Column>) -> Seq<Seq<int>> {
    columns.map_values(|c: Column| c@)
}

/// What a returned matrix says: the values of its columns, or the error.
pub open spec fn matrix_outcome(r: Result<Vec<Column>, VmError>) -> Result<
    Seq<Seq<int>>,
    VmError,
> {
    match r {
        Ok(m) => Ok(matrix_values(m@)),
        Err(e) => Err(e),
    }
}

/// What the trace builder makes of a program. An empty program is invalid; a
/// program without its two seed values is malformed; an execution may divide
/// by zero. Otherwise the result is the trace matrix of the memory trace, with
/// `2^ceil_log2(length)` rows.
pub open spec fn build_result(ops: Seq<Op>) -> Result<Seq<Seq<int>>, VmError> {
    if ops.len() == 0 {
        Err(VmError::InvalidProgram)
    } else if !well_formed(ops) {
        Err(VmError::MalformedProgram)
    } else {
        match stack_after(ops) {
            Err(e) => Err(e),
            Ok(_) => Ok(trace_matrix(memory_trace(ops), pow2(ceil_log2(ops.len())))),
        }
    }
}

/// Two builds of the trace of one program end the same way: with the same
/// matrix or with the same error.
pub proof fn lemma_build_is_deterministic(
    ops: Seq<Op>,
    first: Result<Vec<Column>, VmError>,
    second: Result<Vec<Column>, VmError>,
)
    requires
        matrix_outcome(first) == build_result(ops),
        matrix_outcome(second) == build_result(ops),
    ensures
        matrix_outcome(first) == matrix_outcome(second),
{
}

/// The trace that is built ends with the result of the run: row 0 of the last
/// column of the matrix holds the value that the run returns.
pub proof fn lemma_built_trace_ends_with_result(ops: Seq<Op>)
    requires
        build_result(ops) is Ok,
    ensures
        run_result(ops) is Ok,
        build_result(ops)->Ok_0.len() == ops.len(),
        build_result(ops)->Ok_0.last().len() >= 1,
        build_result(ops)->Ok_0.last()[0] == run_result(ops)->Ok_0,
{
    lemma_well_formed_never_underflows(ops);
    lemma_trace_ends_with_result(ops);
    lemma_pow2_pos(ceil_log2(ops.len()));
}

/// The row count of a program of at most `usize::MAX / 2 + 1` instructions
/// fits in a `usize`.
pub proof fn lemma_rows_fit(n: nat)
    requires
        n <= usize::MAX / 2 + 1,
    ensures
        pow2(ceil_log2(n)) <= usize::MAX,
{
    lemma2_to64();
    lemma2_to64_rest();
    let top = (usize::BITS - 1) as nat;
    lemma_ceil_log2_bound(n, top);
    if ceil_log2(n) < top {
        lemma_pow2_strictly_increases(ceil_log2(n), top);
    }
}

/// `2^k`, where it fits.
fn pow2_usize(k: u32) -> (r: usize)
    requires
        pow2(k as nat) <= usize::MAX,
    ensures
        r == pow2(k as nat),
{
    let mut r: usize = 1;
    let mut j: u32 = 0;
    proof {
        lemma2_to64();
    }
    while j < k
        invariant
            j <= k,
            r == pow2(j as nat),
            pow2(k as nat) <= usize::MAX,
        decreases k - j,
    {
        proof {
            lemma_pow2_unfold((j + 1) as nat);
            if j + 1 < k {
                lemma_pow2_strictly_increases((j + 1) as nat, k as nat);
            }
        }
        r = r * 2;
        j = j + 1;
    }
    r
}

/// Builds the trace matrix of a program: one column per instruction, in step
/// order, each of `2^log_n_rows` rows. The memory trace is derived anew, each
/// step reading its operands from the two entries before it.
pub fn generate_vm_trace(vm: &VM) -> (r: Result<Vec<Column>, VmError>)
    requires
        vm@.len() <= usize::MAX / 2 + 1,
    ensures
        matrix_outcome(r) == build_result(vm@),
{
    let program = vm.program();
    let ghost ops = vm@;
    let n = program.len();
    if n == 0 {
        return Err(VmError::InvalidProgram);
    }
    if n < 2 {
        return Err(VmError::MalformedProgram);
    }
    let mut mem: Vec<Felt> = Vec::new();
    let mut i: usize = 0;
    assert(ops.take(0) == Seq::<Op>::empty());
    while i < n
        invariant
            i <= n,
            2 <= n == ops.len(),
            ops == program@,
            ops == vm@,
            i > 0 ==> ops[0] is Push,
            i > 1 ==> ops[1] is Push,
            stack_after(ops.take(i as int)) is Ok,
            mem@.len() == i,
            forall|k: int| 0 <= k < i ==> (#[trigger] mem@[k])@ == memory_trace(ops)[k],
        decreases n - i,
    {
        let op = program[i];
        proof {
            lemma_stack_after_next(ops, i as int);
        }
        let val = match op {
            Op::Push(v) => v,
            _ => {
                if i < 2 {
                    return Err(VmError::MalformedProgram);
                }
                let b = mem[i - 1];
                let a = mem[i - 2];
                proof {
                    lemma_top_two(ops.take(i as int));
                    assert(ops.take(i as int).drop_last() == ops.take(i - 1));
                }
                match op.apply(a, b) {
                    None => {
                        proof {
                            lemma_error_is_final(ops, i + 1);
                        }
                        return Err(VmError::DivisionByZero);
                    },
                    Some(res) => res,
                }
            },
        };
        mem.push(val);
        i = i + 1;
    }
    assert(ops.take(n as int) == ops);
    proof {
        lemma_rows_fit(ops.len());
    }
    let rows = pow2_usize(vm.log_n_rows());
    let mut trace: Vec<Column> = Vec::new();
    let mut c: usize = 0;
    while c < n
        invariant
            c <= n,
            n == mem@.len() == ops.len(),
            trace@.len() == c,
            rows == pow2(ceil_log2(ops.len())),
            forall|k: int| 0 <= k < n ==> (#[trigger] mem@[k])@ == memory_trace(ops)[k],
            forall|k: int|
                0 <= k < c ==> (#[trigger] trace@[k])@ == one_row(
                    memory_trace(ops)[k],
                    rows as nat,
                ),
        decreases n - c,
    {
        trace.push(one_row_col(mem[c], rows));
        c = c + 1;
    }
    assert(matrix_values(trace@) == trace_matrix(memory_trace(ops), rows as nat));
    Ok(trace)
}

/// A polynomial over the columns of the trace, evaluated row by row.
#[derive(Debug, PartialEq, Eq)]
pub enum Expr {
    /// The value of the column with this index.
    Column(usize),
    /// The sum of two expressions.
    Add(Box<Expr>, Box<Expr>),
    /// The first expression minus the second.
    Sub(Box<Expr>, Box<Expr>),
    /// The product of two expressions.
    Mul(Box<Expr>, Box<Expr>),
}

impl Expr {
    /// The value of the expression on a row, given as one value per column.
    pub open spec fn eval(self, row: Seq<int>) -> int
        decreases self,
    {
        match self {
            Expr::Column(i) => row[i as int],
            Expr::Add(x, y) => field_add(x.eval(row), y.eval(row)),
            Expr::Sub(x, y) => field_sub(x.eval(row), y.eval(row)),
            Expr::Mul(x, y) => field_mul(x.eval(row), y.eval(row)),
        }
    }

    /// Whether the expression refers only to columns below `width`.
    pub open spec fn within(self, width: nat) -> bool
        decreases self,
    {
        match self {
            Expr::Column(i) => i < width,
            Expr::Add(x, y) => x.within(width) && y.within(width),
            Expr::Sub(x, y) => x.within(width) && y.within(width),
            Expr::Mul(x, y) => x.within(width) && y.within(width),
        }
    }

    /// An upper bound on the total degree of the expression as a polynomial
    /// in the columns.
    pub open spec fn degree(self) -> nat
        decreases self,
    {
        match self {
            Expr::Column(_) => 1,
            Expr::Add(x, y) => if x.degree() >= y.degree() {
                x.degree()
            } else {
                y.degree()
            },
            Expr::Sub(x, y) => if x.degree() >= y.degree() {
                x.degree()
            } else {
                y.degree()
            },
            Expr::Mul(x, y) => x.degree() + y.degree(),
        }
    }

    /// Evaluates the expression on a row.
    pub fn eval_row(&self, row: &Vec<Felt>) -> (r: Felt)
        requires
            self.within(row@.len()),
        ensures
            r@ == self.eval(values(row@)),
        decreases self,
    {
        match self {
            Expr::Column(i) => row[*i],
            Expr::Add(x, y) => x.eval_row(row).add(y.eval_row(row)),
            Expr::Sub(x, y) => x.eval_row(row).sub(y.eval_row(row)),
            Expr::Mul(x, y) => x.eval_row(row).mul(y.eval_row(row)),
        }
    }
}

/// The identity that a binary operation imposes on the columns `a` and `b` of
/// its operands and the column `c` of its result. Division is stated through
/// multiplication, `a - c * b`, so that every identity is a polynomial of
/// degree at most two. A `Push` imposes nothing.
pub open spec fn identity_of(op: Op, a: usize, b: usize, c: usize) -> Option<Expr> {
    match op {
        Op::Push(_) => None,
        Op::Add => Some(
            Expr::Sub(
                Box::new(Expr::Column(c)),
                Box::new(Expr::Add(Box::new(Expr::Column(a)), Box::new(Expr::Column(b)))),
            ),
        ),
        Op::Sub => Some(
            Expr::Sub(
                Box::new(Expr::Column(c)),
                Box::new(Expr::Sub(Box::new(Expr::Column(a)), Box::new(Expr::Column(b)))),
            ),
        ),
        Op::Mul => Some(
            Expr::Sub(
                Box::new(Expr::Column(c)),
                Box::new(Expr::Mul(Box::new(Expr::Column(a)), Box::new(Expr::Column(b)))),
            ),
        ),
        Op::Div => Some(
            Expr::Sub(
                Box::new(Expr::Column(a)),
                Box::new(Expr::Mul(Box::new(Expr::Column(c)), Box::new(Expr::Column(b)))),
            ),
        ),
    }
}

/// The identities of the first `n` steps of a program, in step order, over
/// columns numbered from `base`: one for each binary operation at a step
/// `k >= 2`, over the columns `k - 2`, `k - 1` and `k`.
pub open spec fn identities_upto(ops: Seq<Op>, base: nat, n: nat) -> Seq<Expr>
    decreases n,
{
    if n <= 2 {
        Seq::empty()
    } else {
        let before = identities_upto(ops, base, (n - 1) as nat);
        let k = n - 1;
        match identity_of(
            ops[k],
            (base + k - 2) as usize,
            (base + k - 1) as usize,
            (base + k) as usize,
        ) {
            None => before,
            Some(e) => before.push(e),
        }
    }
}

/// The identities of a program, over columns numbered from `base`.
pub open spec fn identities_of(ops: Seq<Op>, base: nat) -> Seq<Expr> {
    identities_upto(ops, base, ops.len())
}

/// Whether an instruction is a binary operation.
pub open spec fn is_binary(op: Op) -> bool {
    !(op is Push)
}

/// An expression within some width is within every greater width.
pub proof fn lemma_within_grows(e: Expr, width: nat, wider: nat)
    requires
        e.within(width),
        width <= wider,
    ensures
        e.within(wider),
    decreases e,
{
    match e {
        Expr::Column(_) => {},
        Expr::Add(x, y) => {
            lemma_within_grows(*x, width, wider);
            lemma_within_grows(*y, width, wider);
        },
        Expr::Sub(x, y) => {
            lemma_within_grows(*x, width, wider);
            lemma_within_grows(*y, width, wider);
        },
        Expr::Mul(x, y) => {
            lemma_within_grows(*x, width, wider);
            lemma_within_grows(*y, width, wider);
        },
    }
}

/// Every identity has degree at most two.
pub proof fn lemma_identity_degree(op: Op, a: usize, b: usize, c: usize)
    ensures
        identity_of(op, a, b, c) matches Some(e) ==> e.degree() <= 2,
{
    reveal_with_fuel(Expr::degree, 3);
}

/// An identity refers to no column beyond the three it is made of.
pub proof fn lemma_identity_within(op: Op, a: usize, b: usize, c: usize)
    requires
        a < c,
        b < c,
    ensures
        identity_of(op, a, b, c) matches Some(e) ==> e.within((c + 1) as nat),
{
    reveal_with_fuel(Expr::within, 3);
}

/// The identities of the first `n` steps refer to no column beyond those of
/// these steps.
pub proof fn lemma_identities_within(ops: Seq<Op>, base: nat, n: nat, j: int)
    requires
        base + n <= usize::MAX,
        0 <= j < identities_upto(ops, base, n).len(),
    ensures
        identities_upto(ops, base, n)[j].within(base + n),
    decreases n,
{
    let before = identities_upto(ops, base, (n - 1) as nat);
    if j < before.len() {
        lemma_identities_within(ops, base, (n - 1) as nat, j);
        lemma_within_grows(before[j], (base + n - 1) as nat, base + n);
    } else {
        let k = n - 1;
        lemma_identity_within(
            ops[k],
            (base + k - 2) as usize,
            (base + k - 1) as usize,
            (base + k) as usize,
        );
    }
}

/// Among the first `n` instructions of a program that starts with two `Push`
/// instructions, there are as many identities as binary operations.
pub proof fn lemma_identity_count_upto(ops: Seq<Op>, base: nat, n: nat)
    requires
        well_formed(ops),
        2 <= n <= ops.len(),
    ensures
        identities_upto(ops, base, n).len() == ops.take(n as int).filter(
            |op: Op| is_binary(op),
        ).len(),
    decreases n,
{
    let binary = |op: Op| is_binary(op);
    let upto = ops.take(n as int);
    assert(upto == ops.take(n - 1).push(ops[n - 1]));
    ops.take(n - 1).lemma_filter_len_push(binary, ops[n - 1]);
    if n == 2 {
        assert(ops.take(1) == Seq::<Op>::empty().push(ops[0]));
        Seq::<Op>::empty().lemma_filter_len_push(binary, ops[0]);
        Seq::<Op>::empty().lemma_filter_len(binary);
    } else {
        lemma_identity_count_upto(ops, base, (n - 1) as nat);
    }
}

/// A well-formed program has one identity for each of its binary operations.
pub proof fn lemma_identity_count(ops: Seq<Op>, base: nat)
    requires
        well_formed(ops),
    ensures
        identities_of(ops, base).len() == ops.filter(|op: Op| is_binary(op)).len(),
{
    lemma_identity_count_upto(ops, base, ops.len());
    assert(ops.take(ops.len() as int) == ops);
}

impl Op {
    /// Whether the instruction is a `Push`.
    pub fn is_push(&self) -> (r: bool)
        ensures
            r == (self is Push),
    {
        match self {
            Op::Push(_) => true,
            _ => false,
        }
    }

    /// The identity that the instruction imposes on the columns `a`, `b` of
    /// its operands and `c` of its result, if it imposes one.
    pub fn identity(&self, a: usize, b: usize, c: usize) -> (r: Option<Expr>)
        ensures
            r == identity_of(*self, a, b, c),
    {
        match self {
            Op::Push(_) => None,
            Op::Add => Some(
                Expr::Sub(
                    Box::new(Expr::Column(c)),
                    Box::new(Expr::Add(Box::new(Expr::Column(a)), Box::new(Expr::Column(b)))),
                ),
            ),
            Op::Sub => Some(
                Expr::Sub(
                    Box::new(Expr::Column(c)),
                    Box::new(Expr::Sub(Box::new(Expr::Column(a)), Box::new(Expr::Column(b)))),
                ),
            ),
            Op::Mul => Some(
                Expr::Sub(
                    Box::new(Expr::Column(c)),
                    Box::new(Expr::Mul(Box::new(Expr::Column(a)), Box::new(Expr::Column(b)))),
                ),
            ),
            Op::Div => Some(
                Expr::Sub(
                    Box::new(Expr::Column(a)),
                    Box::new(Expr::Mul(Box::new(Expr::Column(c)), Box::new(Expr::Column(b)))),
                ),
            ),
        }
    }
}

/// The evaluation context of the constraint evaluator. It hands out one
/// fresh column reference per trace column, in column order, and records the
/// identities that it is given.
#[derive(Debug)]
pub struct Recorder {
    /// How many column references have been handed out.
    pub n_columns: usize,
    /// The identities given so far, in order.
    pub identities: Vec<Expr>,
}

impl Recorder {
    /// A context that has handed out no column and holds no identity.
    pub fn new() -> (r: Recorder)
        ensures
            r.n_columns == 0,
            r.identities@ == Seq::<Expr>::empty(),
    {
        Recorder { n_columns: 0, identities: Vec::new() }
    }

    /// Hands out the reference to the next column: its index.
    pub fn next_column_ref(&mut self) -> (col: usize)
        requires
            old(self).n_columns < usize::MAX,
        ensures
            col == old(self).n_columns,
            final(self).n_columns == old(self).n_columns + 1,
            final(self).identities@ == old(self).identities@,
    {
        let col = self.n_columns;
        self.n_columns = col + 1;
        col
    }

    /// Records an identity.
    pub fn add_identity(&mut self, identity: Expr)
        ensures
            final(self).n_columns == old(self).n_columns,
            final(self).identities@ == old(self).identities@.push(identity),
    {
        self.identities.push(identity);
    }
}

impl VM {
    /// Walks the program once and hands its identities to `eval`. It asks for
    /// one column reference per instruction, in step order, and keeps only the
    /// last two: each binary operation from step 2 on yields one identity over
    /// the two columns before it and its own. A program with fewer than two
    /// instructions, or whose first two are not both `Push`, is malformed.
    pub fn evaluate(&self, eval: Recorder) -> (r: Result<Recorder, VmError>)
        requires
            eval.n_columns + self@.len() <= usize::MAX,
        ensures
            match r {
                Ok(e) => {
                    &&& well_formed(self@)
                    &&& e.n_columns == eval.n_columns + self@.len()
                    &&& e.identities@ == eval.identities@ + identities_of(
                        self@,
                        eval.n_columns as nat,
                    )
                    &&& forall|j: int|
                        eval.identities@.len() <= j < e.identities@.len() ==> (
                        #[trigger] e.identities@[j]).within(e.n_columns as nat)
                },
                Err(e) => e == VmError::MalformedProgram && !well_formed(self@),
            },
    {
        let program = self.program();
        let n = program.len();
        if n < 2 || !program[0].is_push() || !program[1].is_push() {
            return Err(VmError::MalformedProgram);
        }
        let ghost ops = self@;
        let ghost base = eval.n_columns as nat;
        let ghost given = eval.identities@;
        let mut eval = eval;
        let mut a = eval.next_column_ref();
        let mut b = eval.next_column_ref();
        let mut i: usize = 2;
        assert(given + identities_upto(ops, base, 2) == given);
        while i < n
            invariant
                2 <= i <= n,
                n == ops.len(),
                ops == program@,
                base + n <= usize::MAX,
                a == base + i - 2,
                b == base + i - 1,
                eval.n_columns == base + i,
                eval.identities@ == given + identities_upto(ops, base, i as nat),
            decreases n - i,
        {
            let c = eval.next_column_ref();
            match program[i].identity(a, b, c) {
                None => {},
                Some(identity) => {
                    eval.add_identity(identity);
                    assert(eval.identities@ == given + identities_upto(
                        ops,
                        base,
                        (i + 1) as nat,
                    ));
                },
            }
            a = b;
            b = c;
            i = i + 1;
        }
        proof {
            assert forall|j: int| given.len() <= j < eval.identities@.len() implies (
            #[trigger] eval.identities@[j]).within(eval.n_columns as nat) by {
                lemma_identities_within(ops, base, n as nat, j - given.len());
            }
        }
        Ok(eval)
    }

    /// The exponent of the number of rows of the trace.
    pub fn log_size(&self) -> (k: u32)
        ensures
            k == ceil_log2(self@.len()),
            k <= usize::BITS,
    {
        self.log_n_rows()
    }

    /// The bound on the degree of the identities that the backend is told:
    /// one more than the exponent of the row count.
    pub fn max_constraint_log_degree_bound(&self) -> (k: u32)
        ensures
            k == ceil_log2(self@.len()) + 1,
    {
        self.log_size() + 1
    }
}

} // verus!
