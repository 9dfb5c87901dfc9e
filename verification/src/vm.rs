//! The stack machine: its instruction set, its execution semantics and the
//! memory trace that an execution leaves behind.
use crate::field::canonical;
use crate::field::field_add;
use crate::field::field_div;
use crate::field::field_mul;
use crate::field::field_sub;
use crate::field::Felt;
use vstd::arithmetic::power2::lemma2_to64;
use vstd::arithmetic::power2::lemma2_to64_rest;
use vstd::arithmetic::power2::lemma_pow2_unfold;
use vstd::arithmetic::power2::pow2;
use vstd::prelude::*;
use vstd::std_specs::convert::FromSpecImpl;

verus! {

/// One instruction of the machine.
#[derive(Debug, Clone, Copy, PartialEq, Eq)]
pub enum Op {
    /// Pushes a literal onto the stack.
    Push(Felt),
    /// Adds the two values on top of the stack.
    Add,
    /// Subtracts the top value from the one below it.
    Sub,
    /// Multiplies the two values on top of the stack.
    Mul,
    /// Divides the value below the top by the top value.
    Div,
}

/// The ways in which a program can fail.
#[derive(Debug, Clone, Copy, PartialEq, Eq)]
pub enum VmError {
    /// The program has fewer than two instructions, or one of its first two
    /// instructions is not a `Push`.
    MalformedProgram,
    /// The program is empty, so there is no trace to build.
    InvalidProgram,
    /// A binary operation found fewer than two values on the stack, or the
    /// stack was empty when the result was read.
    StackUnderflow,
    /// A division had the zero element as its divisor.
    DivisionByZero,
}

/// The values of a sequence of field elements.
pub open spec fn values(s: Seq<Felt>) -> Seq<int> {
    s.map_values(|f: Felt| f@)
}

/// What an instruction produces from the left operand `a` and the right
/// operand `b`: `None` when it divides by zero. A `Push` produces its literal
/// whatever the operands are.
pub open spec fn apply(op: Op, a: int, b: int) -> Option<int> {
    match op {
        Op::Push(v) => Some(v@),
        Op::Add => Some(field_add(a, b)),
        Op::Sub => Some(field_sub(a, b)),
        Op::Mul => Some(field_mul(a, b)),
        Op::Div => if b == 0 {
            None
        } else {
            Some(field_div(a, b))
        },
    }
}

/// One step of the engine. A `Push` grows the stack by its literal. A binary
/// operation on a stack `.., a, b` leaves `.., b, r` where `r` is its result:
/// the right operand stays available as the left operand of the next step.
pub open spec fn step(stack: Seq<int>, op: Op) -> Result<Seq<int>, VmError> {
    if op is Push {
        Ok(stack.push(op->Push_0@))
    } else if stack.len() < 2 {
        Err(VmError::StackUnderflow)
    } else {
        let b = stack[stack.len() - 1];
        let a = stack[stack.len() - 2];
        match apply(op, a, b) {
            None => Err(VmError::DivisionByZero),
            Some(r) => Ok(stack.take(stack.len() - 2).push(b).push(r)),
        }
    }
}

/// The operand stack after executing `ops` in order from an empty stack, or
/// the error of the first step that fails.
pub open spec fn stack_after(ops: Seq<Op>) -> Result<Seq<int>, VmError>
    decreases ops.len(),
{
    if ops.len() == 0 {
        Ok(Seq::empty())
    } else {
        match stack_after(ops.drop_last()) {
            Err(e) => Err(e),
            Ok(s) => step(s, ops.last()),
        }
    }
}

/// What a returned result says: the value of the element, or the error.
pub open spec fn outcome(r: Result<Felt, VmError>) -> Result<int, VmError> {
    match r {
        Ok(v) => Ok(v@),
        Err(e) => Err(e),
    }
}

/// The result of a run: the top of the stack after the last instruction.
pub open spec fn run_result(ops: Seq<Op>) -> Result<int, VmError> {
    match stack_after(ops) {
        Err(e) => Err(e),
        Ok(s) => if s.len() == 0 {
            Err(VmError::StackUnderflow)
        } else {
            Ok(s.last())
        },
    }
}

/// The smallest exponent `k` with `2^k >= n`.
pub open spec fn ceil_log2(n: nat) -> nat
    decreases n,
{
    if n <= 1 {
        0
    } else {
        1 + ceil_log2((n + 1) / 2)
    }
}

/// [`ceil_log2`] is the least exponent whose power of two reaches `n`.
pub proof fn lemma_ceil_log2_is_least(n: nat)
    ensures
        pow2(ceil_log2(n)) >= n,
        ceil_log2(n) > 0 ==> pow2((ceil_log2(n) - 1) as nat) < n,
    decreases n,
{
    lemma2_to64();
    if n > 1 {
        let h = (n + 1) / 2;
        lemma_ceil_log2_is_least(h);
        lemma_pow2_unfold(ceil_log2(n));
        if ceil_log2(h) > 0 {
            lemma_pow2_unfold(ceil_log2(h));
        }
    }
}

/// A number below `2^b` has a [`ceil_log2`] of at most `b`.
pub proof fn lemma_ceil_log2_bound(n: nat, b: nat)
    requires
        n <= pow2(b),
    ensures
        ceil_log2(n) <= b,
    decreases n,
{
    lemma2_to64();
    if n > 1 {
        if b == 0 {
        } else {
            lemma_pow2_unfold(b);
            lemma_ceil_log2_bound((n + 1) / 2, (b - 1) as nat);
        }
    }
}

/// Every `usize` is below two to the power of its width.
proof fn lemma_usize_has_bits()
    ensures
        usize::MAX < pow2(usize::BITS as nat),
{
    lemma2_to64();
    lemma2_to64_rest();
}

/// Once a step has failed, the rest of the program does not change the error.
pub proof fn lemma_error_is_final(ops: Seq<Op>, i: int)
    requires
        0 <= i <= ops.len(),
        stack_after(ops.take(i)) is Err,
    ensures
        stack_after(ops) == stack_after(ops.take(i)),
    decreases ops.len(),
{
    if i == ops.len() {
        assert(ops.take(i) == ops);
    } else {
        assert(ops.drop_last().take(i) == ops.take(i));
        lemma_error_is_final(ops.drop_last(), i);
    }
}

/// The stack after `i + 1` steps is one step from the stack after `i` steps.
pub proof fn lemma_stack_after_next(ops: Seq<Op>, i: int)
    requires
        0 <= i < ops.len(),
    ensures
        stack_after(ops.take(i + 1)) == match stack_after(ops.take(i)) {
            Err(e) => Err(e),
            Ok(s) => step(s, ops[i]),
        },
{
    assert(ops.take(i + 1).drop_last() == ops.take(i));
}

/// Whether a program starts with the two seed values that every later step
/// looks back to: it has at least two instructions and the first two are `Push`.
pub open spec fn well_formed(ops: Seq<Op>) -> bool {
    ops.len() >= 2 && ops[0] is Push && ops[1] is Push
}

/// The value on top of the stack after executing `ops`, where there is one.
pub open spec fn top_after(ops: Seq<Op>) -> int {
    match run_result(ops) {
        Ok(v) => v,
        Err(_) => 0,
    }
}

/// The memory trace of an execution: entry `k` is the value on top of the
/// stack after step `k`, that is the literal pushed or the result computed by
/// that step.
pub open spec fn memory_trace(ops: Seq<Op>) -> Seq<int> {
    Seq::new(ops.len(), |k: int| top_after(ops.take(k + 1)))
}

/// A run that succeeds has succeeded after each of its steps.
pub proof fn lemma_prefixes_succeed(ops: Seq<Op>, i: int)
    requires
        0 <= i <= ops.len(),
        stack_after(ops) is Ok,
    ensures
        stack_after(ops.take(i)) is Ok,
{
    if stack_after(ops.take(i)) is Err {
        lemma_error_is_final(ops, i);
    }
}

/// A stack that exists after two or more steps holds at least two values, its
/// top is the value that the last step produced, and the value below the top
/// is the one that the step before produced.
pub proof fn lemma_top_two(ops: Seq<Op>)
    requires
        ops.len() >= 2,
        stack_after(ops) is Ok,
    ensures
        stack_after(ops)->Ok_0.len() >= 2,
        stack_after(ops)->Ok_0[stack_after(ops)->Ok_0.len() - 1] == top_after(ops),
        stack_after(ops)->Ok_0[stack_after(ops)->Ok_0.len() - 2] == top_after(ops.drop_last()),
    decreases ops.len(),
{
    let one = ops.drop_last();
    let none = one.drop_last();
    if ops.len() == 2 {
        assert(none == Seq::<Op>::empty());
    } else {
        lemma_top_two(one);
    }
}

/// Every entry of the memory trace of a run that succeeds is canonical.
pub proof fn lemma_trace_is_canonical(ops: Seq<Op>, k: int)
    requires
        stack_after(ops) is Ok,
        0 <= k < ops.len(),
    ensures
        canonical(memory_trace(ops)[k]),
{
    if ops[k] is Push {
        ops[k]->Push_0.lemma_canonical();
    }
    let upto = ops.take(k + 1);
    lemma_prefixes_succeed(ops, k + 1);
    lemma_prefixes_succeed(ops, k);
    assert(upto.drop_last() == ops.take(k));
    assert(upto.last() == ops[k]);
}

/// Two runs of one program end the same way: with the same value or with
/// the same error.
pub proof fn lemma_run_is_deterministic(
    ops: Seq<Op>,
    first: Result<Felt, VmError>,
    second: Result<Felt, VmError>,
)
    requires
        outcome(first) == run_result(ops),
        outcome(second) == run_result(ops),
    ensures
        outcome(first) == outcome(second),
{
}

/// The last entry of the memory trace is the value that the run returns.
pub proof fn lemma_trace_ends_with_result(ops: Seq<Op>)
    requires
        run_result(ops) is Ok,
    ensures
        memory_trace(ops).len() == ops.len(),
        ops.len() > 0,
        memory_trace(ops).last() == run_result(ops)->Ok_0,
{
    assert(ops.take(ops.len() as int) == ops);
}

/// Two steps of lookback. In a run that succeeds, the two values on top of
/// the stack before any step `k >= 2` are the entries `k - 2` and `k - 1` of
/// the memory trace, so the operands that a binary operation at step `k`
/// consumes are exactly those two entries, and entry `k` is what the
/// instruction makes of them.
pub proof fn lemma_lookback(ops: Seq<Op>, k: int)
    requires
        stack_after(ops) is Ok,
        2 <= k < ops.len(),
    ensures
        stack_after(ops.take(k)) is Ok,
        well_formed(ops),
        ({
            let stack = stack_after(ops.take(k))->Ok_0;
            let trace = memory_trace(ops);
            &&& stack.len() >= 2
            &&& stack[stack.len() - 2] == trace[k - 2]
            &&& stack[stack.len() - 1] == trace[k - 1]
            &&& apply(ops[k], trace[k - 2], trace[k - 1]) == Some(trace[k])
        }),
{
    lemma_prefixes_succeed(ops, k);
    lemma_prefixes_succeed(ops, k + 1);
    lemma_top_two(ops.take(k));
    assert(ops.take(k).drop_last() == ops.take(k - 1));
    lemma_stack_after_next(ops, k);
    lemma_header_is_push(ops);
}

/// A run that succeeds on two or more instructions started with two `Push`
/// instructions: anything else would have found the stack too short.
pub proof fn lemma_header_is_push(ops: Seq<Op>)
    requires
        stack_after(ops) is Ok,
        ops.len() >= 2,
    ensures
        well_formed(ops),
{
    lemma_prefixes_succeed(ops, 1);
    lemma_prefixes_succeed(ops, 2);
    lemma_stack_after_next(ops, 0);
    lemma_stack_after_next(ops, 1);
    assert(ops.take(0) == Seq::<Op>::empty());
}

/// A well-formed program never finds its stack too short: it can only fail
/// by dividing by zero.
pub proof fn lemma_well_formed_never_underflows(ops: Seq<Op>)
    requires
        well_formed(ops),
    ensures
        stack_after(ops) is Ok || stack_after(ops) == Err::<Seq<int>, VmError>(
            VmError::DivisionByZero,
        ),
        run_result(ops) is Ok <==> stack_after(ops) is Ok,
    decreases ops.len(),
{
    let one = ops.drop_last();
    if ops.len() == 2 {
        assert(one.drop_last() == Seq::<Op>::empty());
    } else {
        lemma_well_formed_never_underflows(one);
        if stack_after(one) is Ok {
            lemma_top_two(one);
        }
    }
    if stack_after(ops) is Ok {
        lemma_top_two(ops);
    }
}

/// Whether a program starts as a run needs it to: it is not empty, and its
/// first two instructions, as far as it has them, are `Push`.
pub open spec fn starts_with_pushes(ops: Seq<Op>) -> bool {
    &&& ops.len() >= 1
    &&& ops[0] is Push
    &&& ops.len() >= 2 ==> ops[1] is Push
}

/// Whether step `k` divides by zero: the steps before it succeed, the
/// instruction is a division, and the value on top of the stack, its right
/// operand, is the zero element.
pub open spec fn divides_by_zero_at(ops: Seq<Op>, k: int) -> bool {
    &&& 0 <= k < ops.len()
    &&& ops[k] is Div
    &&& stack_after(ops.take(k)) matches Ok(s) && s.len() >= 2 && s[s.len() - 1] == 0
}

/// When the stack exists after a program and when it does not, with which
/// error. It is the statement of [`lemma_run_outcomes`] for the stack, which
/// unlike the result exists for the empty program.
proof fn lemma_stack_outcomes(ops: Seq<Op>)
    ensures
        stack_after(ops) == Err::<Seq<int>, VmError>(VmError::StackUnderflow) <==> ops.len() > 0
            && !starts_with_pushes(ops),
        stack_after(ops) == Err::<Seq<int>, VmError>(VmError::DivisionByZero)
            <==> starts_with_pushes(ops) && exists|k: int| divides_by_zero_at(ops, k),
        stack_after(ops) is Ok <==> (ops.len() == 0 || starts_with_pushes(ops)) && forall|k: int|
            !divides_by_zero_at(ops, k),
        stack_after(ops) matches Ok(s) ==> s.len() <= ops.len() && (s.len() == 0 <==> ops.len()
            == 0) && (ops.len() >= 2 ==> s.len() >= 2),
    decreases ops.len(),
{
    if ops.len() > 0 {
        let one = ops.drop_last();
        let last = ops.len() - 1;
        let op = ops[last];
        lemma_stack_outcomes(one);
        assert(ops.take(last) == one);
        assert forall|k: int| k != last implies divides_by_zero_at(ops, k) == divides_by_zero_at(
            one,
            k,
        ) by {
            if 0 <= k < last {
                assert(ops.take(k) == one.take(k));
            }
        }
        let in_one = exists|k: int| divides_by_zero_at(one, k);
        let in_ops = exists|k: int| divides_by_zero_at(ops, k);
        assert(in_ops <==> in_one || divides_by_zero_at(ops, last)) by {
            if in_one {
                let k = choose|k: int| divides_by_zero_at(one, k);
                assert(divides_by_zero_at(ops, k));
            }
            if in_ops {
                let k = choose|k: int| divides_by_zero_at(ops, k);
                if k != last {
                    assert(divides_by_zero_at(one, k));
                }
            }
        }
        assert((forall|k: int| !divides_by_zero_at(ops, k)) == !in_ops);
        assert((forall|k: int| !divides_by_zero_at(one, k)) == !in_one);
    }
}

/// When a run succeeds and when it fails with which error. The stack is too
/// short exactly if the program does not start with its pushes; otherwise the
/// run divides by zero exactly if one of its steps does, and succeeds exactly
/// if none does.
pub proof fn lemma_run_outcomes(ops: Seq<Op>)
    ensures
        run_result(ops) == Err::<int, VmError>(VmError::StackUnderflow) <==> !starts_with_pushes(
            ops,
        ),
        run_result(ops) == Err::<int, VmError>(VmError::DivisionByZero) <==> starts_with_pushes(
            ops,
        ) && exists|k: int| divides_by_zero_at(ops, k),
        run_result(ops) is Ok <==> starts_with_pushes(ops) && forall|k: int|
            !divides_by_zero_at(ops, k),
{
    lemma_stack_outcomes(ops);
}

impl Op {
    /// Applies the instruction to the operands `a` (left) and `b` (right).
    pub fn apply(self, a: Felt, b: Felt) -> (r: Option<Felt>)
        ensures
            match r {
                Some(v) => apply(self, a@, b@) == Some(v@),
                None => apply(self, a@, b@) is None,
            },
    {
        match self {
            Op::Push(v) => Some(v),
            Op::Add => Some(a.add(b)),
            Op::Sub => Some(a.sub(b)),
            Op::Mul => Some(a.mul(b)),
            Op::Div => if b.is_zero() {
                None
            } else {
                Some(a.div(b))
            },
        }
    }
}

/// A program together with the exponent of its trace's row count.
pub struct VM {
    _program: Vec<Op>,
    _log_n_rows: u32,
}

impl View for VM {
    type V = Seq<Op>;

    closed spec fn view(&self) -> Seq<Op> {
        self._program@
    }
}

impl VM {
    #[verifier::type_invariant]
    spec fn rows_fit_program(self) -> bool {
        self._log_n_rows == ceil_log2(self._program@.len())
    }

    /// The machine that [`VM::new`] makes of `program`.
    pub closed spec fn spec_new(program: Vec<Op>) -> VM {
        VM { _program: program, _log_n_rows: ceil_log2(program@.len()) as u32 }
    }

    /// Wraps a program and derives the exponent of its trace's row count.
    pub fn new(program: Vec<Op>) -> (vm: VM)
        ensures
            vm == VM::spec_new(program),
            vm@ == program@,
    {
        let len = program.len();
        let mut n: usize = len;
        let mut k: u32 = 0;
        proof {
            lemma_usize_has_bits();
            lemma_ceil_log2_bound(len as nat, usize::BITS as nat);
        }
        while n > 1
            invariant
                k + ceil_log2(n as nat) == ceil_log2(len as nat),
                ceil_log2(len as nat) <= usize::BITS,
            decreases n,
        {
            n = n - n / 2;
            k = k + 1;
        }
        VM { _program: program, _log_n_rows: k }
    }

    /// The program.
    pub fn program(&self) -> (p: &Vec<Op>)
        ensures
            p@ == self@,
    {
        &self._program
    }

    /// The exponent of the trace's row count: the least `k` with
    /// `2^k >= program length`.
    pub fn log_n_rows(&self) -> (k: u32)
        ensures
            k == ceil_log2(self@.len()),
            k <= usize::BITS,
    {
        proof {
            use_type_invariant(self);
            lemma_usize_has_bits();
            lemma_ceil_log2_bound(self._program.len() as nat, usize::BITS as nat);
        }
        self._log_n_rows
    }

    /// Executes the program on an empty stack and returns the value on top of
    /// the stack after the last instruction.
    pub fn run(&self) -> (r: Result<Felt, VmError>)
        ensures
            outcome(r) == run_result(self@),
    {
        let n = self._program.len();
        let ghost ops = self._program@;
        let mut stack: Vec<Felt> = Vec::new();
        let mut i: usize = 0;
        assert(ops.take(0) == Seq::<Op>::empty());
        assert(values(stack@) == Seq::<int>::empty());
        while i < n
            invariant
                i <= n,
                n == ops.len(),
                ops == self._program@,
                stack_after(ops.take(i as int)) == Ok::<Seq<int>, VmError>(values(stack@)),
            decreases n - i,
        {
            let op = self._program[i];
            proof {
                lemma_stack_after_next(ops, i as int);
            }
            let ghost before = values(stack@);
            match op {
                Op::Push(v) => {
                    stack.push(v);
                    assert(values(stack@) == before.push(v@));
                },
                _ => {
                    if stack.len() < 2 {
                        proof {
                            lemma_error_is_final(ops, i + 1);
                        }
                        return Err(VmError::StackUnderflow);
                    }
                    let b = stack.pop().unwrap();
                    let a = stack.pop().unwrap();
                    match op.apply(a, b) {
                        None => {
                            proof {
                                lemma_error_is_final(ops, i + 1);
                            }
                            return Err(VmError::DivisionByZero);
                        },
                        Some(res) => {
                            stack.push(b);
                            stack.push(res);
                            assert(values(stack@) == before.take(before.len() - 2).push(b@).push(
                                res@,
                            ));
                        },
                    }
                },
            }
            i = i + 1;
        }
        assert(ops.take(n as int) == ops);
        match stack.pop() {
            Some(v) => Ok(v),
            None => Err(VmError::StackUnderflow),
        }
    }
}

impl From<Vec<Op>> for VM {
    fn from(program: Vec<Op>) -> (vm: VM)
        ensures
            vm@ == program@,
    {
        VM::new(program)
    }
}

impl FromSpecImpl<Vec<Op>> for VM {
    open spec fn obeys_from_spec() -> bool {
        true
    }

    open spec fn from_spec(program: Vec<Op>) -> VM {
        VM::spec_new(program)
    }
}

} // verus!
