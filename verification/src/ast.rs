use vstd::prelude::*;

verus! {

/// Number of cells on the tape.
pub const MEMORY_SIZE: usize = 30_000;

/// One recognized source character. `Unknown` stands for any character that is
/// not part of the instruction set; the lexer drops it from its output.
#[derive(Copy, Clone, PartialEq, Eq, Structural, Debug)]
pub enum Token {
    Increment,
    Decrement,
    MoveLeft,
    MoveRight,
    Input,
    Output,
    Debug,
    LoopStart,
    LoopEnd,
    Unknown,
}

/// A parsed instruction. Consecutive pointer moves and cell changes are merged
/// into a single counted `Move` or `Add`, and a `Loop` owns its body outright,
/// so unmatched brackets are not representable.
#[derive(PartialEq, Eq, Debug)]
pub enum Operation {
    Move(isize),
    Add(isize),
    Input,
    Output,
    Debug,
    Loop(Vec<Operation>),
}

/// The mathematical shape of an `Operation`: counts are unbounded integers and
/// a loop body is a sequence.
pub enum OpModel {
    Move(int),
    Add(int),
    Input,
    Output,
    Debug,
    Loop(Seq<OpModel>),
}

/// How a run of the interpreter ended: the whole operation sequence was
/// executed, or the fuel bound on loop repetitions was reached first.
#[derive(Copy, Clone, PartialEq, Eq, Structural, Debug)]
pub enum RunStatus {
    Done,
    OutOfFuel,
}

/// The errors the interpreter reports.
#[derive(Debug)]
pub enum InterpreterError {
    /// Error parsing source
    ParseError(String),
    /// Memory overflow
    MemoryOverflow,
    /// Pointer is out of memory bounds
    PointerOverflow,
    /// Error using stdio
    StdioError(String),
}

pub open spec fn op_view(op: Operation) -> OpModel
    decreases op,
{
    match op {
        Operation::Move(n) => OpModel::Move(n as int),
        Operation::Add(n) => OpModel::Add(n as int),
        Operation::Input => OpModel::Input,
        Operation::Output => OpModel::Output,
        Operation::Debug => OpModel::Debug,
        Operation::Loop(body) => OpModel::Loop(ops_view(body@)),
    }
}

pub open spec fn ops_view(ops: Seq<Operation>) -> Seq<OpModel>
    decreases ops, ops.len(),
{
    if ops.len() == 0 {
        Seq::empty()
    } else {
        seq![op_view(ops[0])] + ops_view(ops.subrange(1, ops.len() as int))
    }
}

pub proof fn lemma_ops_view_props(ops: Seq<Operation>)
    ensures
        ops_view(ops).len() == ops.len(),
        forall|i: int| 0 <= i < ops.len() ==> #[trigger] ops_view(ops)[i] == op_view(ops[i]),
    decreases ops.len(),
{
    if ops.len() > 0 {
        let tail = ops.subrange(1, ops.len() as int);
        lemma_ops_view_props(tail);
        assert forall|i: int| 0 <= i < ops.len() implies #[trigger] ops_view(ops)[i] == op_view(
            ops[i],
        ) by {
            if i > 0 {
                assert(ops_view(ops)[i] == ops_view(tail)[i - 1]);
                assert(tail[i - 1] == ops[i]);
            }
        }
    }
}

pub proof fn lemma_ops_view_push(ops: Seq<Operation>, op: Operation)
    ensures
        ops_view(ops.push(op)) == ops_view(ops).push(op_view(op)),
{
    lemma_ops_view_props(ops);
    lemma_ops_view_props(ops.push(op));
    assert(ops_view(ops.push(op)) =~= ops_view(ops).push(op_view(op)));
}

pub proof fn lemma_ops_view_update(ops: Seq<Operation>, i: int, op: Operation)
    requires
        0 <= i < ops.len(),
    ensures
        ops_view(ops.update(i, op)) == ops_view(ops).update(i, op_view(op)),
{
    lemma_ops_view_props(ops);
    lemma_ops_view_props(ops.update(i, op));
    assert(ops_view(ops.update(i, op)) =~= ops_view(ops).update(i, op_view(op)));
}

/// All merged counts in the tree lie within `bound` of zero.
pub open spec fn op_bounded(op: OpModel, bound: int) -> bool
    decreases op,
{
    match op {
        OpModel::Move(n) => -bound <= n <= bound,
        OpModel::Add(n) => -bound <= n <= bound,
        OpModel::Input => true,
        OpModel::Output => true,
        OpModel::Debug => true,
        OpModel::Loop(body) => ops_bounded(body, bound),
    }
}

pub open spec fn ops_bounded(ops: Seq<OpModel>, bound: int) -> bool
    decreases ops, ops.len(),
{
    if ops.len() == 0 {
        true
    } else {
        op_bounded(ops[0], bound) && ops_bounded(ops.subrange(1, ops.len() as int), bound)
    }
}

pub proof fn lemma_ops_bounded_iff(ops: Seq<OpModel>, bound: int)
    ensures
        ops_bounded(ops, bound) == (forall|i: int|
            0 <= i < ops.len() ==> #[trigger] op_bounded(ops[i], bound)),
    decreases ops.len(),
{
    if ops.len() > 0 {
        let tail = ops.subrange(1, ops.len() as int);
        lemma_ops_bounded_iff(tail, bound);
        if ops_bounded(ops, bound) {
            assert forall|i: int| 0 <= i < ops.len() implies #[trigger] op_bounded(
                ops[i],
                bound,
            ) by {
                if i > 0 {
                    assert(tail[i - 1] == ops[i]);
                    assert(op_bounded(tail[i - 1], bound));
                }
            }
        }
        if forall|i: int| 0 <= i < ops.len() ==> #[trigger] op_bounded(ops[i], bound) {
            assert(op_bounded(ops[0], bound));
            assert forall|j: int| 0 <= j < tail.len() implies #[trigger] op_bounded(
                tail[j],
                bound,
            ) by {
                assert(tail[j] == ops[j + 1]);
                assert(op_bounded(ops[j + 1], bound));
            }
            assert(ops_bounded(tail, bound));
        }
    }
}

pub proof fn lemma_op_bounded_widen(op: OpModel, b1: int, b2: int)
    requires
        op_bounded(op, b1),
        b1 <= b2,
    ensures
        op_bounded(op, b2),
    decreases op,
{
    match op {
        OpModel::Loop(body) => {
            lemma_ops_bounded_iff(body, b1);
            lemma_ops_bounded_iff(body, b2);
            assert forall|i: int| 0 <= i < body.len() implies #[trigger] op_bounded(
                body[i],
                b2,
            ) by {
                lemma_op_bounded_widen(body[i], b1, b2);
            }
        },
        _ => {},
    }
}

pub proof fn lemma_ops_bounded_widen(ops: Seq<OpModel>, b1: int, b2: int)
    requires
        ops_bounded(ops, b1),
        b1 <= b2,
    ensures
        ops_bounded(ops, b2),
{
    lemma_ops_bounded_iff(ops, b1);
    lemma_ops_bounded_iff(ops, b2);
    assert forall|i: int| 0 <= i < ops.len() implies #[trigger] op_bounded(ops[i], b2) by {
        lemma_op_bounded_widen(ops[i], b1, b2);
    }
}

} // verus!
