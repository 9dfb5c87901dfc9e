//! Small helpers: field literals, single-value columns and a sample program.
use crate::field::Felt;
use crate::field::P;
use crate::vm::values;
use crate::vm::Op;
use crate::vm::VM;
use vstd::prelude::*;

verus! {

/// One column of a trace matrix, from row 0 downwards.
#[derive(Debug, PartialEq, Eq)]
pub struct Column {
    pub data: Vec<Felt>,
}

impl View for Column {
    type V = Seq<int>;

    open spec fn view(&self) -> Seq<int> {
        values(self.data@)
    }
}

/// The column of `length` rows that holds `val` in row 0 and zero elsewhere.
pub open spec fn one_row(val: int, length: nat) -> Seq<int> {
    Seq::new(
        length,
        |r: int|
            if r == 0 {
                val
            } else {
                0
            },
    )
}

/// Whether `op` pushes the literal `v`.
pub open spec fn is_push_of(op: Op, v: int) -> bool {
    op matches Op::Push(f) && f@ == v
}

/// The field element `val mod P`. Values of `P` and above are reduced, not
/// rejected.
pub fn felt(val: u32) -> (r: Felt)
    ensures
        r@ == val % P,
{
    Felt::new(val)
}

/// The sample program `((3 + 7) * 6) / 4 - 1`.
pub fn dummy_program() -> (vm: VM)
    ensures
        vm@.len() == 9,
        is_push_of(vm@[0], 3),
        is_push_of(vm@[1], 7),
        vm@[2] == Op::Add,
        is_push_of(vm@[3], 6),
        vm@[4] == Op::Mul,
        is_push_of(vm@[5], 4),
        vm@[6] == Op::Div,
        is_push_of(vm@[7], 1),
        vm@[8] == Op::Sub,
{
    VM::new(
        vec![
            Op::Push(felt(3)),
            Op::Push(felt(7)),
            Op::Add,
            Op::Push(felt(6)),
            Op::Mul,
            Op::Push(felt(4)),
            Op::Div,
            Op::Push(felt(1)),
            Op::Sub,
        ],
    )
}

/// Builds the column of `length` rows that holds `val` in row 0 and the zero
/// element in every other row.
pub fn one_row_col(val: Felt, length: usize) -> (col: Column)
    ensures
        col@ == one_row(val@, length as nat),
{
    let mut data: Vec<Felt> = Vec::new();
    let mut r: usize = 0;
    while r < length
        invariant
            r <= length,
            values(data@) == one_row(val@, r as nat),
        decreases length - r,
    {
        let ghost before = values(data@);
        let cell = if r == 0 {
            val
        } else {
            Felt::zero()
        };
        data.push(cell);
        assert(values(data@) == before.push(cell@));
        r = r + 1;
    }
    Column { data }
}

} // verus!
