use vstd::prelude::*;

use crate::ast::{
    lemma_op_bounded_widen, lemma_ops_bounded_iff, lemma_ops_bounded_widen, lemma_ops_view_props,
    lemma_ops_view_push, lemma_ops_view_update, op_bounded, ops_bounded, ops_view, op_view,
    InterpreterError, OpModel, Operation, Token,
};
use crate::machine::Program;

verus! {

/// How far the parser's stack machine has come: still going, or stopped on a
/// stray loop end or an unrecognized token.
pub enum ParseProgress {
    Going(Seq<Seq<OpModel>>),
    FailedEnd,
    FailedToken,
}

/// What parsing a token sequence yields: the operations of the program root,
/// or the message of the error reported.
pub enum ParseModel {
    Parsed(Seq<OpModel>),
    Rejected(Seq<char>),
}

/// Appends an operation to the sequence on top of the stack.
pub open spec fn top_pushed(stack: Seq<Seq<OpModel>>, op: OpModel) -> Seq<Seq<OpModel>>
    recommends
        stack.len() >= 1,
{
    stack.update(stack.len() - 1, stack.last().push(op))
}

/// A cell change merges into a trailing `Add`; otherwise it starts one.
pub open spec fn merge_add(stack: Seq<Seq<OpModel>>, d: int) -> Seq<Seq<OpModel>>
    recommends
        stack.len() >= 1,
{
    let top = stack.last();
    if top.len() == 0 {
        top_pushed(stack, OpModel::Add(d))
    } else {
        match top.last() {
            OpModel::Add(c) => stack.update(
                stack.len() - 1,
                top.update(top.len() - 1, OpModel::Add(c + d)),
            ),
            _ => top_pushed(stack, OpModel::Add(d)),
        }
    }
}

/// A pointer move merges into a trailing `Move`; otherwise it starts one.
pub open spec fn merge_move(stack: Seq<Seq<OpModel>>, d: int) -> Seq<Seq<OpModel>>
    recommends
        stack.len() >= 1,
{
    let top = stack.last();
    if top.len() == 0 {
        top_pushed(stack, OpModel::Move(d))
    } else {
        match top.last() {
            OpModel::Move(c) => stack.update(
                stack.len() - 1,
                top.update(top.len() - 1, OpModel::Move(c + d)),
            ),
            _ => top_pushed(stack, OpModel::Move(d)),
        }
    }
}

/// One token against the stack of in-progress sequences.
pub open spec fn tok_step(stack: Seq<Seq<OpModel>>, t: Token) -> ParseProgress
    recommends
        stack.len() >= 1,
{
    match t {
        Token::Increment => ParseProgress::Going(merge_add(stack, 1)),
        Token::Decrement => ParseProgress::Going(merge_add(stack, -1)),
        Token::MoveLeft => ParseProgress::Going(merge_move(stack, -1)),
        Token::MoveRight => ParseProgress::Going(merge_move(stack, 1)),
        Token::Input => ParseProgress::Going(top_pushed(stack, OpModel::Input)),
        Token::Output => ParseProgress::Going(top_pushed(stack, OpModel::Output)),
        Token::Debug => ParseProgress::Going(top_pushed(stack, OpModel::Debug)),
        Token::LoopStart => ParseProgress::Going(stack.push(Seq::empty())),
        Token::LoopEnd => if stack.len() >= 2 {
            ParseProgress::Going(top_pushed(stack.drop_last(), OpModel::Loop(stack.last())))
        } else {
            ParseProgress::FailedEnd
        },
        Token::Unknown => ParseProgress::FailedToken,
    }
}

/// The stack after the first `i` tokens, starting from one empty root
/// sequence; a failure, once reached, is final.
pub open spec fn parse_stack(tokens: Seq<Token>, i: nat) -> ParseProgress
    decreases i,
{
    if i == 0 {
        ParseProgress::Going(seq![Seq::empty()])
    } else {
        match parse_stack(tokens, (i - 1) as nat) {
            ParseProgress::Going(stack) => tok_step(stack, tokens[i - 1]),
            p => p,
        }
    }
}

/// The parse of a whole token sequence. A stray `]` and an unrecognized
/// token are reported where they occur; a `[` still open at the end is
/// reported after all tokens are consumed.
pub open spec fn spec_parse(tokens: Seq<Token>) -> ParseModel {
    match parse_stack(tokens, tokens.len()) {
        ParseProgress::FailedEnd => ParseModel::Rejected("Unexpected end of loop"@),
        ParseProgress::FailedToken => ParseModel::Rejected("Unexpected token Unknown"@),
        ParseProgress::Going(stack) => if stack.len() == 1 {
            ParseModel::Parsed(stack[0])
        } else {
            ParseModel::Rejected("Expected end of loop"@)
        },
    }
}

/// The stack of in-progress operation sequences, as the model sees it.
pub open spec fn stacks_view(st: Seq<Vec<Operation>>) -> Seq<Seq<OpModel>> {
    Seq::new(st.len(), |j: int| ops_view(st[j]@))
}

/// Every sequence on the stack has all its merged counts within `b`.
pub open spec fn bounded_stack(st: Seq<Seq<OpModel>>, b: int) -> bool {
    forall|j: int| 0 <= j < st.len() ==> ops_bounded(#[trigger] st[j], b)
}

pub proof fn lemma_bounded_stack_widen(st: Seq<Seq<OpModel>>, b1: int, b2: int)
    requires
        bounded_stack(st, b1),
        b1 <= b2,
    ensures
        bounded_stack(st, b2),
{
    assert forall|j: int| 0 <= j < st.len() implies ops_bounded(#[trigger] st[j], b2) by {
        lemma_ops_bounded_widen(st[j], b1, b2);
    }
}

/// Once the stack machine has failed it stays failed.
pub proof fn lemma_parse_stack_stuck(tokens: Seq<Token>, i: nat, j: nat)
    requires
        i <= j,
        !(parse_stack(tokens, i) matches ParseProgress::Going(_)),
    ensures
        parse_stack(tokens, j) == parse_stack(tokens, i),
    decreases j - i,
{
    if j > i {
        lemma_parse_stack_stuck(tokens, i, (j - 1) as nat);
    }
}

/// Appends one leaf operation to the sequence on top of the stack.
fn apply_leaf(stack: &mut Vec<Vec<Operation>>, op: Operation, Ghost(b): Ghost<int>)
    requires
        old(stack)@.len() >= 1,
        bounded_stack(stacks_view(old(stack)@), b),
        0 <= b,
        (op matches Operation::Input || op matches Operation::Output || op
            matches Operation::Debug),
    ensures
        final(stack)@.len() >= 1,
        stacks_view(final(stack)@) == top_pushed(stacks_view(old(stack)@), op_view(op)),
        bounded_stack(stacks_view(final(stack)@), b + 1),
{
    let ghost st0 = stack@;
    let ghost pre = stacks_view(st0);
    let mut top: Vec<Operation> = stack.pop().unwrap();
    let ghost top0 = top@;
    top.push(op);
    stack.push(top);
    proof {
        lemma_ops_view_push(top0, op);
        assert(pre.last() == ops_view(top0));
        assert(stacks_view(stack@) =~= top_pushed(pre, op_view(op)));
        lemma_ops_bounded_iff(pre.last(), b);
        lemma_ops_bounded_iff(pre.last().push(op_view(op)), b + 1);
        assert forall|k: int| 0 <= k < pre.last().len() + 1 implies #[trigger] op_bounded(
            pre.last().push(op_view(op))[k],
            b + 1,
        ) by {
            if k < pre.last().len() {
                lemma_op_bounded_widen(pre.last()[k], b, b + 1);
            }
        }
        assert forall|j: int| 0 <= j < stacks_view(stack@).len() implies ops_bounded(
            #[trigger] stacks_view(stack@)[j],
            b + 1,
        ) by {
            if j + 1 < stacks_view(stack@).len() {
                lemma_ops_bounded_widen(pre[j], b, b + 1);
            }
        }
    }
}

/// Merges one cell change or pointer move into the sequence on top of the
/// stack, extending a trailing operation of the same kind or starting one.
fn apply_count(stack: &mut Vec<Vec<Operation>>, is_move: bool, positive: bool, Ghost(b): Ghost<
    int,
>)
    requires
        old(stack)@.len() >= 1,
        bounded_stack(stacks_view(old(stack)@), b),
        0 <= b,
        b + 1 <= isize::MAX as int,
    ensures
        final(stack)@.len() >= 1,
        stacks_view(final(stack)@) == (if is_move {
            merge_move(stacks_view(old(stack)@), (if positive { 1int } else { -1int }))
        } else {
            merge_add(stacks_view(old(stack)@), (if positive { 1int } else { -1int }))
        }),
        bounded_stack(stacks_view(final(stack)@), b + 1),
{
    let ghost st0 = stack@;
    let ghost pre = stacks_view(st0);
    let ghost d: int = if positive { 1int } else { -1int };
    let mut top: Vec<Operation> = stack.pop().unwrap();
    let ghost top0 = top@;
    proof {
        lemma_ops_view_props(top0);
        assert(pre.last() == ops_view(top0));
        assert(ops_bounded(pre.last(), b));
        lemma_ops_bounded_iff(pre.last(), b);
    }
    let n: usize = top.len();
    let mut merged: bool = false;
    if n > 0 {
        let (can_merge, cur): (bool, isize) = if is_move {
            match &top[n - 1] {
                Operation::Move(c) => (true, *c),
                _ => (false, 0),
            }
        } else {
            match &top[n - 1] {
                Operation::Add(c) => (true, *c),
                _ => (false, 0),
            }
        };
        if can_merge {
            proof {
                assert(op_bounded(pre.last()[n - 1], b));
            }
            let c1: isize = if positive {
                cur + 1
            } else {
                cur - 1
            };
            let repl: Operation = if is_move {
                Operation::Move(c1)
            } else {
                Operation::Add(c1)
            };
            proof {
                lemma_ops_view_update(top0, n - 1, (if is_move {
                    Operation::Move(c1)
                } else {
                    Operation::Add(c1)
                }));
            }
            top[n - 1] = repl;
            merged = true;
        }
    }
    if !merged {
        let unit: isize = if positive {
            1
        } else {
            -1
        };
        let fresh: Operation = if is_move {
            Operation::Move(unit)
        } else {
            Operation::Add(unit)
        };
        proof {
            lemma_ops_view_push(top0, (if is_move {
                Operation::Move(if positive { 1isize } else { -1isize })
            } else {
                Operation::Add(if positive { 1isize } else { -1isize })
            }));
        }
        top.push(fresh);
    }
    stack.push(top);
    proof {
        let post = stacks_view(stack@);
        let want = if is_move {
            merge_move(pre, d)
        } else {
            merge_add(pre, d)
        };
        assert(post =~= want);
        lemma_ops_bounded_iff(post.last(), b + 1);
        assert forall|k: int| 0 <= k < post.last().len() implies #[trigger] op_bounded(
            post.last()[k],
            b + 1,
        ) by {
            if k < pre.last().len() && post.last()[k] == pre.last()[k] {
                lemma_op_bounded_widen(pre.last()[k], b, b + 1);
            }
        }
        assert forall|j: int| 0 <= j < post.len() implies ops_bounded(#[trigger] post[j], b + 1) by {
            if j + 1 < post.len() {
                lemma_ops_bounded_widen(pre[j], b, b + 1);
            }
        }
    }
}

/// Closes the innermost open loop: the finished body comes off the stack and
/// becomes a `Loop` operation of the sequence below it.
fn close_loop(stack: &mut Vec<Vec<Operation>>, Ghost(b): Ghost<int>)
    requires
        old(stack)@.len() >= 2,
        bounded_stack(stacks_view(old(stack)@), b),
        0 <= b,
    ensures
        final(stack)@.len() >= 1,
        stacks_view(final(stack)@) == top_pushed(
            stacks_view(old(stack)@).drop_last(),
            OpModel::Loop(stacks_view(old(stack)@).last()),
        ),
        bounded_stack(stacks_view(final(stack)@), b + 1),
{
    let ghost st0 = stack@;
    let ghost pre = stacks_view(st0);
    let top: Vec<Operation> = stack.pop().unwrap();
    let mut dst: Vec<Operation> = stack.pop().unwrap();
    let ghost dst0 = dst@;
    dst.push(Operation::Loop(top));
    stack.push(dst);
    proof {
        let looped = OpModel::Loop(pre.last());
        lemma_ops_view_push(dst0, Operation::Loop(st0.last()));
        assert(pre.last() == ops_view(st0.last()@));
        assert(pre[pre.len() - 2] == ops_view(dst0));
        assert(stacks_view(stack@) =~= top_pushed(pre.drop_last(), looped));
        lemma_ops_bounded_iff(pre[pre.len() - 2], b);
        lemma_ops_bounded_iff(pre[pre.len() - 2].push(looped), b + 1);
        assert forall|k: int| 0 <= k < pre[pre.len() - 2].len() + 1 implies #[trigger] op_bounded(
            pre[pre.len() - 2].push(looped)[k],
            b + 1,
        ) by {
            if k < pre[pre.len() - 2].len() {
                lemma_op_bounded_widen(pre[pre.len() - 2][k], b, b + 1);
            } else {
                lemma_ops_bounded_widen(pre.last(), b, b + 1);
            }
        }
        assert forall|j: int| 0 <= j < stacks_view(stack@).len() implies ops_bounded(
            #[trigger] stacks_view(stack@)[j],
            b + 1,
        ) by {
            if j + 1 < stacks_view(stack@).len() {
                lemma_ops_bounded_widen(pre[j], b, b + 1);
            }
        }
    }
}

impl Program {
    /// Builds the operation tree from the token sequence, merging runs of
    /// cell changes and of pointer moves and resolving bracket nesting, or
    /// reports the first unmatched bracket or unrecognized token.
    pub fn parse(tokens: &Vec<Token>) -> (r: Result<Vec<Operation>, InterpreterError>)
        requires
            tokens@.len() <= isize::MAX as int,
        ensures
            (match spec_parse(tokens@) {
                ParseModel::Parsed(opsm) => r matches Ok(ops) && ops_view(ops@) == opsm
                    && ops_bounded(opsm, isize::MAX as int),
                ParseModel::Rejected(msg) => r matches Err(e) && (e
                    matches InterpreterError::ParseError(s) && s@ == msg),
            }),
    {
        let mut stack: Vec<Vec<Operation>> = Vec::new();
        stack.push(Vec::new());
        proof {
            assert(stacks_view(stack@) =~= seq![Seq::<OpModel>::empty()]);
        }
        let mut i: usize = 0;
        while i < tokens.len()
            invariant
                tokens@.len() <= isize::MAX as int,
                i <= tokens@.len(),
                stack@.len() >= 1,
                parse_stack(tokens@, i as nat) == ParseProgress::Going(stacks_view(stack@)),
                bounded_stack(stacks_view(stack@), i as int),
            decreases tokens@.len() - i,
        {
            let t: Token = tokens[i];
            let ghost pre = stacks_view(stack@);
            match t {
                Token::Increment => {
                    apply_count(&mut stack, false, true, Ghost(i as int));
                },
                Token::Decrement => {
                    apply_count(&mut stack, false, false, Ghost(i as int));
                },
                Token::MoveLeft => {
                    apply_count(&mut stack, true, false, Ghost(i as int));
                },
                Token::MoveRight => {
                    apply_count(&mut stack, true, true, Ghost(i as int));
                },
                Token::Input => {
                    apply_leaf(&mut stack, Operation::Input, Ghost(i as int));
                },
                Token::Output => {
                    apply_leaf(&mut stack, Operation::Output, Ghost(i as int));
                },
                Token::Debug => {
                    apply_leaf(&mut stack, Operation::Debug, Ghost(i as int));
                },
                Token::LoopStart => {
                    stack.push(Vec::new());
                    proof {
                        assert(stacks_view(stack@) =~= pre.push(Seq::empty()));
                        assert forall|j: int|
                            0 <= j < stacks_view(stack@).len() implies ops_bounded(
                            #[trigger] stacks_view(stack@)[j],
                            i + 1,
                        ) by {
                            if j < pre.len() {
                                lemma_ops_bounded_widen(pre[j], i as int, i + 1);
                            }
                        }
                    }
                },
                Token::LoopEnd => {
                    if stack.len() == 1 {
                        proof {
                            assert(parse_stack(tokens@, (i + 1) as nat)
                                == ParseProgress::FailedEnd);
                            lemma_parse_stack_stuck(tokens@, (i + 1) as nat, tokens@.len());
                        }
                        return Err(
                            InterpreterError::ParseError("Unexpected end of loop".to_owned()),
                        );
                    }
                    close_loop(&mut stack, Ghost(i as int));
                },
                Token::Unknown => {
                    proof {
                        assert(parse_stack(tokens@, (i + 1) as nat) == ParseProgress::FailedToken);
                        lemma_parse_stack_stuck(tokens@, (i + 1) as nat, tokens@.len());
                    }
                    return Err(InterpreterError::ParseError("Unexpected token Unknown".to_owned()));
                },
            }
            i = i + 1;
        }
        let ghost fin = stacks_view(stack@);
        if stack.len() == 1 {
            let ops: Vec<Operation> = stack.pop().unwrap();
            proof {
                assert(ops_view(ops@) == fin[0]);
                lemma_ops_bounded_widen(ops_view(ops@), tokens@.len() as int, isize::MAX as int);
            }
            Ok(ops)
        } else {
            Err(InterpreterError::ParseError("Expected end of loop".to_owned()))
        }
    }
}

} // verus!
