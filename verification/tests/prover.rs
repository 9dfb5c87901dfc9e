use stack_vm::field::Felt;
use stack_vm::prover::generate_vm_trace;
use stack_vm::prover::Expr;
use stack_vm::prover::Recorder;
use stack_vm::utils::dummy_program;
use stack_vm::utils::felt;
use stack_vm::utils::one_row_col;
use stack_vm::utils::Column;
use stack_vm::vm::Op;
use stack_vm::vm::VmError;
use stack_vm::vm::VM;

fn col(i: usize) -> Box<Expr> {
    Box::new(Expr::Column(i))
}

fn identities(vm: &VM) -> Vec<Expr> {
    vm.evaluate(Recorder::new()).unwrap().identities
}

fn row(columns: &[Column], r: usize) -> Vec<Felt> {
    columns.iter().map(|c| c.data[r]).collect()
}

fn values(row: &[u32]) -> Vec<Felt> {
    row.iter().map(|v| felt(*v)).collect()
}

fn residuals(vm: &VM, row: &[u32]) -> Vec<u32> {
    let row = values(row);
    identities(vm).iter().map(|e| e.eval_row(&row).value()).collect()
}

#[test]
fn test_vm_constraints() {
    let vm = dummy_program();
    let trace = generate_vm_trace(&vm).unwrap();
    let n_rows = trace[0].data.len();
    assert_eq!(n_rows, 1 << vm.log_size());
    let identities = identities(&vm);
    assert_eq!(identities.len(), 4);
    for r in 0..n_rows {
        let values = row(&trace, r);
        for identity in &identities {
            assert_eq!(identity.eval_row(&values), Felt::zero());
        }
    }
}

#[test]
fn trace_matrix_has_one_padded_column_per_step() {
    let vm = dummy_program();
    let trace = generate_vm_trace(&vm).unwrap();
    let expected = [3u32, 7, 10, 6, 60, 4, 15, 1, 14];
    assert_eq!(trace.len(), 9);
    for (column, value) in trace.iter().zip(expected) {
        assert_eq!(column.data.len(), 16);
        assert_eq!(column.data[0], felt(value));
        assert!(column.data[1..].iter().all(|cell| cell.is_zero()));
    }
}

#[test]
fn trace_matrix_of_two_pushes_has_two_rows() {
    let vm = VM::new(vec![Op::Push(felt(8)), Op::Push(felt(9))]);
    let trace = generate_vm_trace(&vm).unwrap();
    assert_eq!(trace.len(), 2);
    assert_eq!(trace[0], Column { data: vec![felt(8), felt(0)] });
    assert_eq!(trace[1], Column { data: vec![felt(9), felt(0)] });
}

#[test]
fn trace_of_empty_program_is_invalid() {
    let vm = VM::new(Vec::new());
    assert_eq!(generate_vm_trace(&vm), Err(VmError::InvalidProgram));
}

#[test]
fn trace_of_short_program_is_malformed() {
    let vm = VM::new(vec![Op::Push(felt(1))]);
    assert_eq!(generate_vm_trace(&vm), Err(VmError::MalformedProgram));
}

#[test]
fn trace_of_program_without_seed_values_is_malformed() {
    let vm = VM::new(vec![Op::Add, Op::Push(felt(1))]);
    assert_eq!(generate_vm_trace(&vm), Err(VmError::MalformedProgram));
    let vm = VM::new(vec![Op::Push(felt(1)), Op::Add, Op::Push(felt(1))]);
    assert_eq!(generate_vm_trace(&vm), Err(VmError::MalformedProgram));
}

#[test]
fn trace_reports_division_by_zero() {
    let vm = VM::new(vec![Op::Push(felt(5)), Op::Push(felt(0)), Op::Div]);
    assert_eq!(generate_vm_trace(&vm), Err(VmError::DivisionByZero));
}

#[test]
fn malformed_program_comes_before_division_by_zero() {
    let vm = VM::new(vec![Op::Push(felt(5)), Op::Div, Op::Push(felt(0)), Op::Div]);
    assert_eq!(generate_vm_trace(&vm), Err(VmError::MalformedProgram));
}

#[test]
fn trace_is_deterministic() {
    let vm = dummy_program();
    assert_eq!(generate_vm_trace(&vm), generate_vm_trace(&vm));
    assert_eq!(generate_vm_trace(&vm), generate_vm_trace(&dummy_program()));
}

#[test]
fn evaluate_rejects_malformed_header() {
    let vm = VM::new(vec![Op::Add, Op::Push(felt(1))]);
    assert_eq!(vm.evaluate(Recorder::new()).err(), Some(VmError::MalformedProgram));
    let vm = VM::new(vec![Op::Push(felt(1)), Op::Mul, Op::Push(felt(1))]);
    assert_eq!(vm.evaluate(Recorder::new()).err(), Some(VmError::MalformedProgram));
}

#[test]
fn evaluate_rejects_short_programs() {
    let vm = VM::new(Vec::new());
    assert_eq!(vm.evaluate(Recorder::new()).err(), Some(VmError::MalformedProgram));
    let vm = VM::new(vec![Op::Push(felt(1))]);
    assert_eq!(vm.evaluate(Recorder::new()).err(), Some(VmError::MalformedProgram));
}

#[test]
fn evaluate_emits_one_identity_per_binary_operation() {
    let vm = dummy_program();
    let recorder = vm.evaluate(Recorder::new()).unwrap();
    assert_eq!(recorder.n_columns, 9);
    assert_eq!(
        recorder.identities,
        vec![
            Expr::Sub(col(2), Box::new(Expr::Add(col(0), col(1)))),
            Expr::Sub(col(4), Box::new(Expr::Mul(col(2), col(3)))),
            Expr::Sub(col(4), Box::new(Expr::Mul(col(6), col(5)))),
            Expr::Sub(col(8), Box::new(Expr::Sub(col(6), col(7)))),
        ]
    );
}

#[test]
fn evaluate_emits_nothing_for_pushes() {
    let vm = VM::new(vec![Op::Push(felt(1)), Op::Push(felt(2)), Op::Push(felt(3))]);
    let recorder = vm.evaluate(Recorder::new()).unwrap();
    assert_eq!(recorder.n_columns, 3);
    assert!(recorder.identities.is_empty());
}

#[test]
fn evaluate_numbers_columns_after_those_already_handed_out() {
    let vm = VM::new(vec![Op::Push(felt(1)), Op::Push(felt(2)), Op::Sub]);
    let used = Recorder { n_columns: 5, identities: vec![Expr::Column(0)] };
    let recorder = vm.evaluate(used).unwrap();
    assert_eq!(recorder.n_columns, 8);
    assert_eq!(
        recorder.identities,
        vec![Expr::Column(0), Expr::Sub(col(7), Box::new(Expr::Sub(col(5), col(6))))]
    );
}

#[test]
fn each_operation_has_its_identity() {
    assert_eq!(Op::Push(felt(1)).identity(0, 1, 2), None);
    assert_eq!(
        Op::Add.identity(0, 1, 2),
        Some(Expr::Sub(col(2), Box::new(Expr::Add(col(0), col(1)))))
    );
    assert_eq!(
        Op::Sub.identity(0, 1, 2),
        Some(Expr::Sub(col(2), Box::new(Expr::Sub(col(0), col(1)))))
    );
    assert_eq!(
        Op::Mul.identity(0, 1, 2),
        Some(Expr::Sub(col(2), Box::new(Expr::Mul(col(0), col(1)))))
    );
    assert_eq!(
        Op::Div.identity(0, 1, 2),
        Some(Expr::Sub(col(0), Box::new(Expr::Mul(col(2), col(1)))))
    );
    assert!(Op::Push(felt(1)).is_push());
    assert!(!Op::Div.is_push());
}

#[test]
fn expressions_evaluate_in_the_field() {
    let row = values(&[20, 4, 2147483646]);
    assert_eq!(Expr::Column(1).eval_row(&row), felt(4));
    assert_eq!(Expr::Add(col(0), col(1)).eval_row(&row), felt(24));
    assert_eq!(Expr::Add(col(2), col(1)).eval_row(&row), felt(3));
    assert_eq!(Expr::Sub(col(0), col(1)).eval_row(&row), felt(16));
    assert_eq!(Expr::Sub(col(1), col(0)).eval_row(&row), felt(2147483631));
    assert_eq!(Expr::Mul(col(0), col(1)).eval_row(&row), felt(80));
    assert_eq!(Expr::Mul(col(2), col(1)).eval_row(&row), felt(2147483643));
}

#[test]
fn honest_trace_satisfies_every_identity() {
    let vm = dummy_program();
    assert_eq!(residuals(&vm, &[3, 7, 10, 6, 60, 4, 15, 1, 14]), vec![0, 0, 0, 0]);
}

#[test]
fn changed_result_is_caught() {
    let vm = dummy_program();
    // Entry 2 is the sum; it is also the left operand of the product.
    assert_eq!(residuals(&vm, &[3, 7, 11, 6, 60, 4, 15, 1, 14]), vec![1, 2147483641, 0, 0]);
    // Entry 6 is the quotient: 60 - 16 * 4.
    assert_eq!(
        residuals(&vm, &[3, 7, 10, 6, 60, 4, 16, 1, 14]),
        vec![0, 0, 2147483643, 2147483646]
    );
    // Entry 8 is the last result.
    assert_eq!(residuals(&vm, &[3, 7, 10, 6, 60, 4, 15, 1, 15]), vec![0, 0, 0, 1]);
}

#[test]
fn changed_operand_is_caught() {
    let vm = dummy_program();
    assert_eq!(residuals(&vm, &[4, 7, 10, 6, 60, 4, 15, 1, 14]), vec![2147483646, 0, 0, 0]);
    assert_eq!(residuals(&vm, &[3, 7, 10, 6, 60, 5, 15, 1, 14]), vec![0, 0, 2147483632, 0]);
    assert_eq!(residuals(&vm, &[3, 7, 10, 6, 60, 4, 15, 2, 14]), vec![0, 0, 0, 1]);
}

#[test]
fn changed_literal_without_dependents_is_not_caught() {
    let vm = VM::new(vec![
        Op::Push(felt(3)),
        Op::Push(felt(7)),
        Op::Add,
        Op::Push(felt(1)),
        Op::Push(felt(2)),
        Op::Push(felt(5)),
    ]);
    assert_eq!(residuals(&vm, &[3, 7, 10, 1, 2, 5]), vec![0]);
    assert_eq!(residuals(&vm, &[3, 7, 10, 1, 2, 6]), vec![0]);
    assert_eq!(residuals(&vm, &[3, 7, 10, 9, 2, 5]), vec![0]);
}

#[test]
fn changed_factor_of_a_product_with_zero_is_not_caught() {
    let vm = VM::new(vec![Op::Push(felt(0)), Op::Push(felt(5)), Op::Mul]);
    assert_eq!(vm.run(), Ok(felt(0)));
    assert_eq!(residuals(&vm, &[0, 5, 0]), vec![0]);
    assert_eq!(residuals(&vm, &[0, 6, 0]), vec![0]);
    assert_eq!(residuals(&vm, &[1, 5, 0]), vec![2147483642]);
}

#[test]
fn changed_divisor_of_a_zero_dividend_is_not_caught() {
    let vm = VM::new(vec![Op::Push(felt(0)), Op::Push(felt(5)), Op::Div]);
    assert_eq!(vm.run(), Ok(felt(0)));
    assert_eq!(residuals(&vm, &[0, 5, 0]), vec![0]);
    assert_eq!(residuals(&vm, &[0, 6, 0]), vec![0]);
    assert_eq!(residuals(&vm, &[0, 5, 1]), vec![2147483642]);
}

#[test]
fn one_row_col_pads_with_zeros() {
    assert_eq!(one_row_col(felt(9), 4), Column { data: vec![felt(9), felt(0), felt(0), felt(0)] });
    assert_eq!(one_row_col(felt(9), 1), Column { data: vec![felt(9)] });
    assert_eq!(one_row_col(felt(9), 0), Column { data: Vec::new() });
    assert_eq!(one_row_col(felt(0), 2), Column { data: vec![felt(0), felt(0)] });
}

#[test]
fn degree_bound_is_one_more_than_log_size() {
    let vm = dummy_program();
    assert_eq!(vm.log_size(), 4);
    assert_eq!(vm.max_constraint_log_degree_bound(), 5);
    let vm = VM::new(vec![Op::Push(felt(1))]);
    assert_eq!(vm.log_size(), 0);
    assert_eq!(vm.max_constraint_log_degree_bound(), 1);
}

#[test]
fn recorder_starts_empty() {
    let recorder = Recorder::new();
    assert_eq!(recorder.n_columns, 0);
    assert!(recorder.identities.is_empty());
}
