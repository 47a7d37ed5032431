use vstd::prelude::*;

use crate::ast::{OpModel, Token, MEMORY_SIZE};
use crate::lexer::spec_tokenize;
use crate::parser::{
    merge_add, parse_stack, spec_parse, tok_step, top_pushed, ParseModel, ParseProgress,
};
use crate::semantics::{
    add_result, cell, cell_add, move_result, run_op, run_ops_from, run_seq, st_wf, MachineState,
};

verus! {

/// How a token changes the bracket nesting depth.
pub open spec fn delta(t: Token) -> int {
    match t {
        Token::LoopStart => 1,
        Token::LoopEnd => -1,
        _ => 0,
    }
}

/// The bracket nesting depth left open by a token sequence.
pub open spec fn depth(tokens: Seq<Token>) -> int
    decreases tokens.len(),
{
    if tokens.len() == 0 {
        0
    } else {
        depth(tokens.drop_last()) + delta(tokens.last())
    }
}

/// No prefix closes more loops than it has opened.
pub open spec fn prefixes_ok(tokens: Seq<Token>) -> bool {
    forall|j: int| 0 <= j <= tokens.len() ==> depth(#[trigger] tokens.take(j)) >= 0
}

/// Brackets match: no prefix dips below zero and nothing stays open.
pub open spec fn balanced(tokens: Seq<Token>) -> bool {
    prefixes_ok(tokens) && depth(tokens) == 0
}

/// The parser's stack, on tokens free of `Unknown`, tracks the bracket
/// depth exactly: it is one deeper than the open loops, and it fails if and
/// only if some prefix closes an unopened loop.
pub proof fn lemma_parse_stack_depth(tokens: Seq<Token>, i: nat)
    requires
        i <= tokens.len(),
        forall|j: int| 0 <= j < i ==> tokens[j] != Token::Unknown,
    ensures
        (forall|j: int| 0 <= j <= i ==> depth(#[trigger] tokens.take(j)) >= 0) ==> (parse_stack(
            tokens,
            i,
        ) matches ParseProgress::Going(st) && st.len() == depth(tokens.take(i as int)) + 1),
        !(forall|j: int| 0 <= j <= i ==> depth(#[trigger] tokens.take(j)) >= 0) ==> parse_stack(
            tokens,
            i,
        ) == ParseProgress::FailedEnd,
    decreases i,
{
    if i == 0 {
        assert(tokens.take(0) =~= Seq::<Token>::empty());
        assert(depth(tokens.take(0)) == 0);
    } else {
        lemma_parse_stack_depth(tokens, (i - 1) as nat);
        let t = tokens[i - 1];
        let prior = tokens.take(i - 1);
        let here = tokens.take(i as int);
        assert(here.drop_last() =~= prior);
        assert(here.last() == t);
        assert(depth(here) == depth(prior) + delta(t));
        if forall|j: int| 0 <= j <= i - 1 ==> depth(#[trigger] tokens.take(j)) >= 0 {
            let st = parse_stack(tokens, (i - 1) as nat)->Going_0;
            assert(st.len() == depth(prior) + 1);
            if depth(here) >= 0 {
                match t {
                    Token::LoopEnd => {
                        assert(st.len() >= 2);
                    },
                    _ => {},
                }
                assert(parse_stack(tokens, i) matches ParseProgress::Going(st2)
                    && st2.len() == depth(here) + 1);
                assert forall|j: int| 0 <= j <= i implies depth(#[trigger] tokens.take(j))
                    >= 0 by {
                    if j == i {
                        assert(depth(here) >= 0);
                    }
                }
            } else {
                assert(delta(t) == -1 && depth(prior) == 0);
                assert(st.len() == 1);
                assert(tok_step(st, t) == ParseProgress::FailedEnd);
                assert(!(forall|j: int| 0 <= j <= i ==> depth(#[trigger] tokens.take(j)) >= 0))
                    by {
                    assert(depth(tokens.take(i as int)) < 0);
                }
            }
        } else {
            let j0 = choose|j: int| 0 <= j <= i - 1 && depth(#[trigger] tokens.take(j)) < 0;
            assert(parse_stack(tokens, (i - 1) as nat) == ParseProgress::FailedEnd);
            assert(!(forall|j: int| 0 <= j <= i ==> depth(#[trigger] tokens.take(j)) >= 0)) by {
                assert(depth(tokens.take(j0)) < 0);
            }
        }
    }
}

/// The parser accepts exactly the balanced token sequences, however deeply
/// nested; a stray `]` is "Unexpected end of loop", an unclosed `[` is
/// "Expected end of loop".
pub proof fn lemma_parse_balanced(tokens: Seq<Token>)
    requires
        forall|j: int| 0 <= j < tokens.len() ==> tokens[j] != Token::Unknown,
    ensures
        (spec_parse(tokens) matches ParseModel::Parsed(_)) <==> balanced(tokens),
        !prefixes_ok(tokens) ==> spec_parse(tokens) == ParseModel::Rejected(
            "Unexpected end of loop"@,
        ),
        prefixes_ok(tokens) && depth(tokens) != 0 ==> spec_parse(tokens) == ParseModel::Rejected(
            "Expected end of loop"@,
        ),
{
    lemma_parse_stack_depth(tokens, tokens.len());
    assert(tokens.take(tokens.len() as int) =~= tokens);
}

/// A run of `+` tokens parses to the single merged operation `Add(i)`.
pub proof fn lemma_increment_stack(n: nat, i: nat)
    requires
        1 <= i <= n,
    ensures
        parse_stack(Seq::new(n, |k: int| Token::Increment), i) matches ParseProgress::Going(st)
            && st == seq![seq![OpModel::Add(i as int)]],
    decreases i,
{
    let toks = Seq::new(n, |k: int| Token::Increment);
    if i == 1 {
        let st0: Seq<Seq<OpModel>> = seq![Seq::empty()];
        assert(parse_stack(toks, 0) == ParseProgress::Going(st0));
        assert(merge_add(st0, 1) =~~= seq![seq![OpModel::Add(1int)]]);
    } else {
        lemma_increment_stack(n, (i - 1) as nat);
        let prev: Seq<Seq<OpModel>> = seq![seq![OpModel::Add((i - 1) as int)]];
        assert(merge_add(prev, 1) =~~= seq![seq![OpModel::Add(i as int)]]);
    }
}

/// Any number of consecutive `+` tokens becomes one `Add` of that count.
pub proof fn lemma_parse_increments(n: nat)
    requires
        n >= 1,
    ensures
        spec_parse(Seq::new(n, |k: int| Token::Increment)) == ParseModel::Parsed(
            seq![OpModel::Add(n as int)],
        ),
{
    lemma_increment_stack(n, n);
}

/// Adding 256 to a zero cell brings it back to zero: the whole state is
/// unchanged, for every fuel.
pub proof fn lemma_increment_wraparound(m: MachineState, fuel: nat)
    requires
        st_wf(m),
        cell(m) == 0,
    ensures
        run_seq(seq![OpModel::Add(256)], m, fuel) == Some(m),
{
    let ops = seq![OpModel::Add(256)];
    assert(cell_add(cell(m), 256) == 0);
    assert(add_result(m, 256) =~= m);
    assert(run_op(ops[0], m, fuel) == Some(add_result(m, 256)));
    assert(run_ops_from(ops, 1, m, fuel) == Some(m));
    assert(run_ops_from(ops, 0, m, fuel) == Some(m));
}

/// Decrementing a zero cell once wraps it to 255.
pub proof fn lemma_decrement_wraps(m: MachineState, fuel: nat)
    requires
        st_wf(m),
        cell(m) == 0,
    ensures
        run_seq(seq![OpModel::Add(-1)], m, fuel) == Some(add_result(m, -1)),
        cell(add_result(m, -1)) == 255,
{
    let ops = seq![OpModel::Add(-1)];
    assert(cell_add(cell(m), -1) == 255);
    assert(run_op(ops[0], m, fuel) == Some(add_result(m, -1)));
    assert(run_ops_from(ops, 1, add_result(m, -1), fuel) == Some(add_result(m, -1)));
    assert(run_ops_from(ops, 0, m, fuel) == Some(add_result(m, -1)));
}

/// The pointer wraps at both ends of the tape: one step right from the last
/// index lands on index 0, one step left from index 0 lands on the last.
pub proof fn lemma_pointer_wraparound(m: MachineState, fuel: nat)
    requires
        st_wf(m),
    ensures
        m.ptr == MEMORY_SIZE - 1 ==> run_seq(seq![OpModel::Move(1)], m, fuel) == Some(
            move_result(m, 1),
        ) && move_result(m, 1).ptr == 0,
        m.ptr == 0 ==> run_seq(seq![OpModel::Move(-1)], m, fuel) == Some(move_result(m, -1))
            && move_result(m, -1).ptr == MEMORY_SIZE - 1,
{
    if m.ptr == MEMORY_SIZE - 1 {
        let ops = seq![OpModel::Move(1)];
        assert(run_op(ops[0], m, fuel) == Some(move_result(m, 1)));
        assert(run_ops_from(ops, 1, move_result(m, 1), fuel) == Some(move_result(m, 1)));
        assert(run_ops_from(ops, 0, m, fuel) == Some(move_result(m, 1)));
    }
    if m.ptr == 0 {
        let ops = seq![OpModel::Move(-1)];
        assert(run_op(ops[0], m, fuel) == Some(move_result(m, -1)));
        assert(run_ops_from(ops, 1, move_result(m, -1), fuel) == Some(move_result(m, -1)));
        assert(run_ops_from(ops, 0, m, fuel) == Some(move_result(m, -1)));
    }
}

/// The state left by the clearing loop: the current cell at zero, all else
/// as it was.
pub open spec fn cleared(m: MachineState) -> MachineState {
    MachineState { tape: m.tape.update(m.ptr, 0u8), ..m }
}

/// The loop `[-]` on a cell holding N terminates and clears the cell, and
/// consumes exactly N passes of its body: fuel N suffices, fuel N - 1 does
/// not.
pub proof fn lemma_clear_loop(m: MachineState, fuel: nat)
    requires
        st_wf(m),
    ensures
        fuel >= cell(m) ==> run_op(OpModel::Loop(seq![OpModel::Add(-1)]), m, fuel) == Some(
            cleared(m),
        ),
        fuel < cell(m) ==> run_op(OpModel::Loop(seq![OpModel::Add(-1)]), m, fuel) is None,
    decreases cell(m),
{
    let lp = OpModel::Loop(seq![OpModel::Add(-1)]);
    let body = seq![OpModel::Add(-1)];
    if cell(m) == 0 {
        assert(run_op(lp, m, fuel) == Some(m));
        assert(cleared(m) =~= m);
    } else if fuel == 0 {
        assert(run_op(lp, m, fuel) is None);
    } else {
        let m1 = add_result(m, -1);
        assert(cell_add(cell(m), -1) == (cell(m) - 1) as u8);
        assert(cell(m1) == cell(m) - 1);
        assert(run_op(body[0], m, (fuel - 1) as nat) == Some(m1));
        assert(run_ops_from(body, 1, m1, (fuel - 1) as nat) == Some(m1));
        assert(run_ops_from(body, 0, m, (fuel - 1) as nat) == Some(m1));
        assert(run_seq(body, m, (fuel - 1) as nat) == Some(m1));
        lemma_clear_loop(m1, (fuel - 1) as nat);
        assert(run_op(lp, m, fuel) == run_op(lp, m1, (fuel - 1) as nat));
        assert(cleared(m1) =~= cleared(m));
    }
}

/// The source text `[-]` lexes and parses to exactly the clearing loop.
pub proof fn lemma_clear_loop_source()
    ensures
        spec_parse(spec_tokenize("[-]"@)) == ParseModel::Parsed(
            seq![OpModel::Loop(seq![OpModel::Add(-1)])],
        ),
{
    reveal_strlit("[-]");
    reveal_with_fuel(spec_tokenize, 5);
    let s = "[-]"@;
    assert(s.len() == 3);
    let s2 = s.drop_last();
    let s1 = s2.drop_last();
    let s0 = s1.drop_last();
    assert(s0 =~= Seq::<char>::empty());
    assert(s1.len() == 1 && s1[0] == '[');
    assert(s2.len() == 2 && s2[1] == '-');
    assert(s.last() == ']' && s2.last() == '-' && s1.last() == '[');
    let toks = spec_tokenize(s);
    assert(spec_tokenize(s0) =~= Seq::<Token>::empty());
    assert(spec_tokenize(s1) =~= seq![Token::LoopStart]);
    assert(spec_tokenize(s2) =~= seq![Token::LoopStart, Token::Decrement]);
    assert(toks =~= seq![Token::LoopStart, Token::Decrement, Token::LoopEnd]);
    let st0: Seq<Seq<OpModel>> = seq![Seq::empty()];
    assert(parse_stack(toks, 0) == ParseProgress::Going(st0));
    let st1: Seq<Seq<OpModel>> = seq![Seq::empty(), Seq::empty()];
    assert(tok_step(st0, Token::LoopStart) == ParseProgress::Going(st0.push(Seq::empty())));
    assert(st0.push(Seq::empty()) =~~= st1);
    assert(parse_stack(toks, 1) == ParseProgress::Going(st0.push(Seq::empty())));
    let st2: Seq<Seq<OpModel>> = seq![Seq::empty(), seq![OpModel::Add(-1)]];
    assert(merge_add(st1, -1) =~~= st2);
    assert(parse_stack(toks, 2) == ParseProgress::Going(merge_add(st0.push(Seq::empty()), -1)));
    assert(merge_add(st0.push(Seq::empty()), -1) =~~= st2);
    let st3: Seq<Seq<OpModel>> = seq![seq![OpModel::Loop(seq![OpModel::Add(-1)])]];
    assert(parse_stack(toks, 3) == tok_step(st2, Token::LoopEnd));
    assert(top_pushed(st2.drop_last(), OpModel::Loop(st2.last())) =~~= st3);
    assert(spec_parse(toks) == ParseModel::Parsed(st3[0]));
    assert(st3[0] =~~= seq![OpModel::Loop(seq![OpModel::Add(-1)])]);
}

} // verus!
