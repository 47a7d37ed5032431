use vstd::prelude::*;

use crate::ast::{OpModel, MEMORY_SIZE};

verus! {

/// The abstract state of one program run: the tape, the data pointer, the
/// bytes still to be read, and the bytes written so far.
#[verifier::ext_equal]
pub struct MachineState {
    pub tape: Seq<u8>,
    pub ptr: int,
    pub inp: Seq<u8>,
    pub out: Seq<u8>,
}

pub open spec fn st_wf(m: MachineState) -> bool {
    &&& m.tape.len() == MEMORY_SIZE
    &&& 0 <= m.ptr < MEMORY_SIZE
}

pub open spec fn init_state(inp: Seq<u8>) -> MachineState {
    MachineState { tape: Seq::new(MEMORY_SIZE as nat, |i: int| 0u8), ptr: 0, inp, out: Seq::empty() }
}

/// The cell the data pointer rests on.
pub open spec fn cell(m: MachineState) -> u8 {
    m.tape[m.ptr]
}

/// Cell arithmetic wraps modulo 256, in both directions, for any count.
pub open spec fn cell_add(v: u8, n: int) -> u8 {
    ((v + n) % 256) as u8
}

/// Pointer arithmetic wraps modulo the tape length, in both directions.
pub open spec fn ptr_add(p: int, n: int) -> int {
    (p + n) % (MEMORY_SIZE as int)
}

/// The decimal digits of a cell value, as ASCII bytes, no leading zeros.
pub open spec fn u8_decimal(v: u8) -> Seq<u8>
    decreases v,
{
    if v < 10 {
        seq![(0x30 + v) as u8]
    } else {
        u8_decimal(v / 10).push((0x30 + (v as int) % 10) as u8)
    }
}

pub open spec fn move_result(m: MachineState, n: int) -> MachineState {
    MachineState { ptr: ptr_add(m.ptr, n), ..m }
}

pub open spec fn add_result(m: MachineState, n: int) -> MachineState {
    MachineState { tape: m.tape.update(m.ptr, cell_add(cell(m), n)), ..m }
}

/// Reading one byte moves it into the current cell; at the end of the input
/// the cell is set to zero and the input is left as it is.
pub open spec fn input_result(m: MachineState) -> MachineState {
    if m.inp.len() > 0 {
        MachineState { tape: m.tape.update(m.ptr, m.inp[0]), inp: m.inp.drop_first(), ..m }
    } else {
        MachineState { tape: m.tape.update(m.ptr, 0u8), ..m }
    }
}

pub open spec fn output_result(m: MachineState) -> MachineState {
    MachineState { out: m.out.push(cell(m)), ..m }
}

pub open spec fn debug_result(m: MachineState) -> MachineState {
    MachineState { out: m.out + u8_decimal(cell(m)), ..m }
}

/// Executes one operation. `fuel` bounds loop repetition: entering one more
/// pass of a loop body costs one unit, and the body runs on what is left.
/// `None` means the bound was reached; every terminating run of a program is
/// reproduced exactly by all large enough fuels.
pub open spec fn run_op(op: OpModel, m: MachineState, fuel: nat) -> Option<MachineState>
    decreases fuel, op, 0int,
{
    match op {
        OpModel::Move(n) => Some(move_result(m, n)),
        OpModel::Add(n) => Some(add_result(m, n)),
        OpModel::Input => Some(input_result(m)),
        OpModel::Output => Some(output_result(m)),
        OpModel::Debug => Some(debug_result(m)),
        OpModel::Loop(body) => {
            if cell(m) == 0 {
                Some(m)
            } else if fuel == 0 {
                None
            } else {
                match run_ops_from(body, 0, m, (fuel - 1) as nat) {
                    None => None,
                    Some(m2) => run_op(op, m2, (fuel - 1) as nat),
                }
            }
        },
    }
}

/// Executes `ops[i..]` in order.
pub open spec fn run_ops_from(ops: Seq<OpModel>, i: nat, m: MachineState, fuel: nat) -> Option<
    MachineState,
>
    decreases fuel, ops, ops.len() - i,
{
    if i >= ops.len() {
        Some(m)
    } else {
        match run_op(ops[i as int], m, fuel) {
            None => None,
            Some(m2) => run_ops_from(ops, i + 1, m2, fuel),
        }
    }
}

/// Executes a whole operation sequence from state `m`.
pub open spec fn run_seq(ops: Seq<OpModel>, m: MachineState, fuel: nat) -> Option<MachineState> {
    run_ops_from(ops, 0, m, fuel)
}

/// Fuel only decides whether a run finishes, never what it computes: a run
/// that finishes under some fuel finishes identically under any larger one.
pub proof fn lemma_run_op_mono(op: OpModel, m: MachineState, f1: nat, f2: nat)
    requires
        f1 <= f2,
        run_op(op, m, f1) is Some,
    ensures
        run_op(op, m, f2) == run_op(op, m, f1),
    decreases f1, op, 0int,
{
    match op {
        OpModel::Loop(body) => {
            if cell(m) != 0 {
                let m2 = run_ops_from(body, 0, m, (f1 - 1) as nat)->Some_0;
                lemma_run_ops_mono(body, 0, m, (f1 - 1) as nat, (f2 - 1) as nat);
                lemma_run_op_mono(op, m2, (f1 - 1) as nat, (f2 - 1) as nat);
            }
        },
        _ => {},
    }
}

pub proof fn lemma_run_ops_mono(ops: Seq<OpModel>, i: nat, m: MachineState, f1: nat, f2: nat)
    requires
        f1 <= f2,
        run_ops_from(ops, i, m, f1) is Some,
    ensures
        run_ops_from(ops, i, m, f2) == run_ops_from(ops, i, m, f1),
    decreases f1, ops, ops.len() - i,
{
    if i < ops.len() {
        let m2 = run_op(ops[i as int], m, f1)->Some_0;
        lemma_run_op_mono(ops[i as int], m, f1, f2);
        lemma_run_ops_mono(ops, i + 1, m2, f1, f2);
    }
}

/// The whole-sequence form of fuel monotonicity.
pub proof fn lemma_run_seq_mono(ops: Seq<OpModel>, m: MachineState, f1: nat, f2: nat)
    requires
        f1 <= f2,
        run_seq(ops, m, f1) is Some,
    ensures
        run_seq(ops, m, f2) == run_seq(ops, m, f1),
{
    lemma_run_ops_mono(ops, 0, m, f1, f2);
}

} // verus!
