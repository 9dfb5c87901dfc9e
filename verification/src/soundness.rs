//! What the identities say about a trace: an honest execution satisfies all of
//! them, and a single changed value is caught exactly when an identity binds
//! it.
use crate::field::canonical;
use crate::field::field_add;
use crate::field::field_mul;
use crate::field::field_sub;
use crate::field::lemma_add_cancels;
use crate::field::lemma_div_is_quotient;
use crate::field::lemma_mul_cancels;
use crate::field::lemma_sub_cancels;
use crate::field::lemma_sub_is_zero;
use crate::prover::build_result;
use crate::prover::identities_of;
use crate::prover::identities_upto;
use crate::prover::identity_of;
use crate::prover::trace_matrix;
use crate::prover::Expr;
use crate::utils::one_row;
use crate::vm::apply;
use crate::vm::ceil_log2;
use crate::vm::lemma_lookback;
use crate::vm::lemma_trace_is_canonical;
use crate::vm::memory_trace;
use crate::vm::stack_after;
use crate::vm::Op;
use vstd::arithmetic::power2::pow2;
use vstd::prelude::*;

verus! {

/// The value of the identity of `op` on a row that holds `a` and `b` in the
/// columns of the operands and `c` in the column of the result.
pub open spec fn residual(op: Op, a: int, b: int, c: int) -> int {
    match op {
        Op::Push(_) => 0,
        Op::Add => field_sub(c, field_add(a, b)),
        Op::Sub => field_sub(c, field_sub(a, b)),
        Op::Mul => field_sub(c, field_mul(a, b)),
        Op::Div => field_sub(a, field_mul(c, b)),
    }
}

/// Row `r` of a matrix that is given column by column.
pub open spec fn matrix_row(m: Seq<Seq<int>>, r: int) -> Seq<int> {
    Seq::new(m.len(), |c: int| m[c][r])
}

/// Whether the identity of `op` binds its right operand when the left
/// operand is `left`: a sum or a difference always does, a product or a
/// quotient only if the left operand is not zero.
pub open spec fn binds_right(op: Op, left: int) -> bool {
    match op {
        Op::Push(_) => false,
        Op::Add => true,
        Op::Sub => true,
        Op::Mul => left != 0,
        Op::Div => left != 0,
    }
}

/// Whether the identity of `op` binds its left operand when the right
/// operand is `right`: all do but a product with zero.
pub open spec fn binds_left(op: Op, right: int) -> bool {
    match op {
        Op::Push(_) => false,
        Op::Add => true,
        Op::Sub => true,
        Op::Mul => right != 0,
        Op::Div => true,
    }
}

/// Whether some identity binds entry `j` of the memory trace: the entry is
/// the result of a binary operation, or the step after it or the one after
/// that is a binary operation whose identity binds the operand that the
/// entry is.
pub open spec fn constrained(ops: Seq<Op>, j: int) -> bool {
    let t = memory_trace(ops);
    ||| 2 <= j && !(ops[j] is Push)
    ||| 1 <= j && j + 1 < ops.len() && binds_right(ops[j + 1], t[j - 1])
    ||| j + 2 < ops.len() && binds_left(ops[j + 2], t[j + 1])
}

/// An identity evaluates to the residual of its operation on the three
/// columns it refers to.
pub proof fn lemma_identity_eval(op: Op, a: usize, b: usize, c: usize, row: Seq<int>)
    ensures
        identity_of(op, a, b, c) matches Some(e) ==> e.eval(row) == residual(
            op,
            row[a as int],
            row[b as int],
            row[c as int],
        ),
{
    reveal_with_fuel(Expr::eval, 3);
}

/// Each identity among those of the first `n` steps comes from a binary
/// operation at some step `k` with `2 <= k < n`.
pub proof fn lemma_identity_has_step(ops: Seq<Op>, base: nat, n: nat, j: int) -> (k: int)
    requires
        0 <= j < identities_upto(ops, base, n).len(),
    ensures
        2 <= k < n,
        identity_of(
            ops[k],
            (base + k - 2) as usize,
            (base + k - 1) as usize,
            (base + k) as usize,
        ) == Some(identities_upto(ops, base, n)[j]),
    decreases n,
{
    let before = identities_upto(ops, base, (n - 1) as nat);
    if j < before.len() {
        lemma_identity_has_step(ops, base, (n - 1) as nat, j)
    } else {
        n - 1
    }
}

/// Each binary operation at a step `k` with `2 <= k < n` has its identity
/// among those of the first `n` steps.
pub proof fn lemma_step_has_identity(ops: Seq<Op>, base: nat, n: nat, k: int) -> (j: int)
    requires
        2 <= k < n,
        !(ops[k] is Push),
    ensures
        0 <= j < identities_upto(ops, base, n).len(),
        identity_of(
            ops[k],
            (base + k - 2) as usize,
            (base + k - 1) as usize,
            (base + k) as usize,
        ) == Some(identities_upto(ops, base, n)[j]),
    decreases n,
{
    let before = identities_upto(ops, base, (n - 1) as nat);
    if k == n - 1 {
        before.len() as int
    } else {
        lemma_step_has_identity(ops, base, (n - 1) as nat, k)
    }
}

/// On the memory trace of a run that succeeds, the residual of every step
/// from the third on is zero.
pub proof fn lemma_honest_step(ops: Seq<Op>, k: int)
    requires
        stack_after(ops) is Ok,
        2 <= k < ops.len(),
    ensures
        ({
            let t = memory_trace(ops);
            residual(ops[k], t[k - 2], t[k - 1], t[k]) == 0
        }),
{
    let t = memory_trace(ops);
    lemma_lookback(ops, k);
    lemma_trace_is_canonical(ops, k - 2);
    lemma_trace_is_canonical(ops, k - 1);
    lemma_trace_is_canonical(ops, k);
    if ops[k] is Div {
        lemma_div_is_quotient(t[k - 2], t[k - 1], t[k]);
    }
}

/// An honest execution satisfies its identities: every identity of a program
/// evaluates to zero on the memory trace of a run that succeeds.
pub proof fn lemma_trace_satisfies_identities(ops: Seq<Op>, j: int)
    requires
        ops.len() <= usize::MAX,
        stack_after(ops) is Ok,
        0 <= j < identities_of(ops, 0).len(),
    ensures
        identities_of(ops, 0)[j].eval(memory_trace(ops)) == 0,
{
    let k = lemma_identity_has_step(ops, 0, ops.len(), j);
    lemma_identity_eval(ops[k], (k - 2) as usize, (k - 1) as usize, k as usize, memory_trace(ops));
    lemma_honest_step(ops, k);
}

/// The identities vanish on every row of the trace matrix that is built for
/// a program: on row 0, which holds the memory trace, and on the rows of
/// zeros below it.
pub proof fn lemma_matrix_satisfies_identities(ops: Seq<Op>, j: int, r: int)
    requires
        ops.len() <= usize::MAX,
        build_result(ops) is Ok,
        0 <= j < identities_of(ops, 0).len(),
        0 <= r < pow2(ceil_log2(ops.len())),
    ensures
        identities_of(ops, 0)[j].eval(matrix_row(build_result(ops)->Ok_0, r)) == 0,
{
    let t = memory_trace(ops);
    let rows = pow2(ceil_log2(ops.len()));
    let row = matrix_row(trace_matrix(t, rows), r);
    let k = lemma_identity_has_step(ops, 0, ops.len(), j);
    lemma_identity_eval(ops[k], (k - 2) as usize, (k - 1) as usize, k as usize, row);
    assert(row[k - 2] == one_row(t[k - 2], rows)[r]);
    assert(row[k - 1] == one_row(t[k - 1], rows)[r]);
    assert(row[k] == one_row(t[k], rows)[r]);
    if r == 0 {
        lemma_honest_step(ops, k);
    }
}

/// What a changed value does to the identity of one honest step, where `c`
/// is what `op` makes of `a` and `b`. A changed result always leaves a
/// non-zero residual; a changed operand does so exactly if the identity binds
/// that operand.
pub proof fn lemma_changed_residual(op: Op, a: int, b: int, c: int, v: int)
    requires
        canonical(a),
        canonical(b),
        canonical(c),
        canonical(v),
        !(op is Push),
        apply(op, a, b) == Some(c),
    ensures
        v != c ==> residual(op, a, b, v) != 0,
        v != b ==> (residual(op, a, v, c) != 0 <==> binds_right(op, a)),
        v != a ==> (residual(op, v, b, c) != 0 <==> binds_left(op, b)),
{
    match op {
        Op::Push(_) => {},
        Op::Add => {
            lemma_sub_is_zero(v, c);
            lemma_sub_is_zero(c, field_add(a, v));
            lemma_sub_is_zero(c, field_add(v, b));
            lemma_add_cancels(a, v, b);
            lemma_add_cancels(b, v, a);
        },
        Op::Sub => {
            lemma_sub_is_zero(v, c);
            lemma_sub_is_zero(c, field_sub(a, v));
            lemma_sub_is_zero(c, field_sub(v, b));
            lemma_sub_cancels(a, v, b);
            lemma_sub_cancels(b, v, a);
        },
        Op::Mul => {
            lemma_sub_is_zero(v, c);
            lemma_sub_is_zero(c, field_mul(a, v));
            lemma_sub_is_zero(c, field_mul(v, b));
            lemma_mul_cancels(a, v, b);
            lemma_mul_cancels(b, v, a);
        },
        Op::Div => {
            // Here `a == c * b` in the field, and `b` is not zero.
            lemma_div_is_quotient(a, b, c);
            lemma_sub_is_zero(a, field_mul(v, b));
            lemma_sub_is_zero(a, field_mul(c, v));
            lemma_sub_is_zero(v, field_mul(c, b));
            lemma_mul_cancels(b, v, c);
            lemma_mul_cancels(c, v, b);
            if c == 0 {
                assert(c * b == 0) by (nonlinear_arith)
                    requires
                        c == 0,
                ;
            }
        },
    }
}

/// What a change of entry `j` of an honest trace to another value `v` does
/// to the residual of step `k`: it becomes non-zero exactly if the entry is
/// the result of that step, or an operand that the step's identity binds.
pub proof fn lemma_changed_step(ops: Seq<Op>, j: int, v: int, k: int)
    requires
        stack_after(ops) is Ok,
        0 <= j < ops.len(),
        canonical(v),
        v != memory_trace(ops)[j],
        2 <= k < ops.len(),
        !(ops[k] is Push),
    ensures
        ({
            let t = memory_trace(ops);
            let u = t.update(j, v);
            residual(ops[k], u[k - 2], u[k - 1], u[k]) != 0 <==> {
                ||| k == j
                ||| k == j + 1 && binds_right(ops[k], t[k - 2])
                ||| k == j + 2 && binds_left(ops[k], t[k - 1])
            }
        }),
{
    let t = memory_trace(ops);
    lemma_honest_step(ops, k);
    lemma_lookback(ops, k);
    lemma_trace_is_canonical(ops, k - 2);
    lemma_trace_is_canonical(ops, k - 1);
    lemma_trace_is_canonical(ops, k);
    lemma_changed_residual(ops[k], t[k - 2], t[k - 1], t[k], v);
}

/// A single changed value is caught exactly when it is constrained. Take the
/// memory trace of a run that succeeds and replace entry `j` by another field
/// element. Then some identity evaluates to a non-zero value if and only if
/// an identity binds that entry. A literal that no later step consumes is
/// free, and so is an operand of a product whose other factor is zero (and of
/// a quotient whose dividend is zero): those changes leave every identity at
/// zero.
pub proof fn lemma_change_is_caught_iff_constrained(ops: Seq<Op>, j: int, v: int)
    requires
        ops.len() <= usize::MAX,
        stack_after(ops) is Ok,
        0 <= j < ops.len(),
        canonical(v),
        v != memory_trace(ops)[j],
    ensures
        constrained(ops, j) <==> exists|i: int|
            0 <= i < identities_of(ops, 0).len() && #[trigger] identities_of(ops, 0)[i].eval(
                memory_trace(ops).update(j, v),
            ) != 0,
{
    let t = memory_trace(ops);
    let u = t.update(j, v);
    let ids = identities_of(ops, 0);
    if constrained(ops, j) {
        let k = if 2 <= j && !(ops[j] is Push) {
            j
        } else if 1 <= j && j + 1 < ops.len() && binds_right(ops[j + 1], t[j - 1]) {
            j + 1
        } else {
            j + 2
        };
        lemma_changed_step(ops, j, v, k);
        let i = lemma_step_has_identity(ops, 0, ops.len(), k);
        lemma_identity_eval(ops[k], (k - 2) as usize, (k - 1) as usize, k as usize, u);
        assert(ids[i].eval(u) != 0);
    }
    if exists|i: int| 0 <= i < ids.len() && #[trigger] ids[i].eval(u) != 0 {
        let i = choose|i: int| 0 <= i < ids.len() && #[trigger] ids[i].eval(u) != 0;
        let k = lemma_identity_has_step(ops, 0, ops.len(), i);
        lemma_identity_eval(ops[k], (k - 2) as usize, (k - 1) as usize, k as usize, u);
        lemma_changed_step(ops, j, v, k);
    }
}

} // verus!
