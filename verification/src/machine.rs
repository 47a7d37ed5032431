use vstd::prelude::*;

use vstd::arithmetic::div_mod::{
    lemma_fundamental_div_mod, lemma_fundamental_div_mod_converse, lemma_mod_multiples_vanish,
};

use crate::ast::{
    lemma_ops_bounded_iff, lemma_ops_view_props, op_bounded, ops_bounded, ops_view, op_view,
    InterpreterError, OpModel, Operation, RunStatus, MEMORY_SIZE,
};
use crate::semantics::{
    add_result, cell, debug_result, init_state, input_result, move_result, output_result, run_op,
    run_ops_from, run_seq, u8_decimal, MachineState,
};

verus! {

/// One program run: the tape, the data pointer, and the two byte streams,
/// held as plain buffers. Input is consumed from `input_pos` on; everything
/// written goes to `output`.
pub struct Program {
    memory: Vec<u8>,
    pointer: usize,
    input: Vec<u8>,
    input_pos: usize,
    output: Vec<u8>,
}

impl View for Program {
    type V = MachineState;

    closed spec fn view(&self) -> MachineState {
        MachineState {
            tape: self.memory@,
            ptr: self.pointer as int,
            inp: self.input@.skip(self.input_pos as int),
            out: self.output@,
        }
    }
}

proof fn lemma_mod_shift(v: int, n: int, m: int)
    requires
        m > 0,
    ensures
        (v + n % m) % m == (v + n) % m,
{
    lemma_fundamental_div_mod(n, m);
    assert(v + n == m * (n / m) + (v + n % m));
    lemma_mod_multiples_vanish(n / m, v + n % m, m);
}

/// The least nonnegative residue of `n` modulo `m`.
fn wrap_mod(n: isize, m: usize) -> (k: usize)
    requires
        1 <= m,
        n != isize::MIN,
    ensures
        k < m,
        k as int == (n as int) % (m as int),
{
    if n >= 0 {
        (n as usize) % m
    } else {
        let a: usize = (-n) as usize;
        let r: usize = a % m;
        proof {
            lemma_fundamental_div_mod(a as int, m as int);
            let d = (a as int) / (m as int);
            if r == 0 {
                assert((n as int) == (m as int) * (-d) + 0) by (nonlinear_arith)
                    requires
                        (a as int) == (m as int) * d,
                        (n as int) == -(a as int),
                ;
                lemma_fundamental_div_mod_converse(n as int, m as int, -d, 0);
            } else {
                assert((n as int) == (m as int) * (-d - 1) + ((m as int) - (r as int)))
                    by (nonlinear_arith)
                    requires
                        (a as int) == (m as int) * d + (r as int),
                        (n as int) == -(a as int),
                ;
                lemma_fundamental_div_mod_converse(
                    n as int,
                    m as int,
                    -d - 1,
                    (m as int) - (r as int),
                );
            }
        }
        if r == 0 {
            0
        } else {
            m - r
        }
    }
}

/// The decimal digits of `v` as ASCII bytes.
fn decimal_digits(v: u8) -> (d: Vec<u8>)
    ensures
        d@ == u8_decimal(v),
{
    let mut d: Vec<u8> = Vec::new();
    if v < 10 {
        d.push(0x30 + v);
        proof {
            assert(d@ =~= u8_decimal(v));
        }
    } else {
        let tens: u8 = v / 10;
        let ones: u8 = v % 10;
        if tens < 10 {
            d.push(0x30 + tens);
            proof {
                reveal_with_fuel(u8_decimal, 2);
                assert(d@ =~= u8_decimal(tens));
            }
        } else {
            d.push(0x30 + tens / 10);
            d.push(0x30 + tens % 10);
            proof {
                reveal_with_fuel(u8_decimal, 3);
                assert(u8_decimal(tens / 10) =~= seq![(0x30 + (tens / 10)) as u8]);
                assert(d@ =~= u8_decimal(tens));
            }
        }
        d.push(0x30 + ones);
        proof {
            assert(d@ =~= u8_decimal(v));
        }
    }
    d
}

impl Program {
    pub closed spec fn wf(&self) -> bool {
        &&& self.memory@.len() == MEMORY_SIZE
        &&& self.pointer < MEMORY_SIZE
        &&& self.input_pos <= self.input@.len()
    }

    /// A fresh run: every cell zero, the pointer at the first cell, the given
    /// bytes waiting as input, nothing written yet.
    pub fn new(input: Vec<u8>) -> (p: Program)
        ensures
            p.wf(),
            p@ == init_state(input@),
    {
        let mut memory: Vec<u8> = Vec::new();
        let mut i: usize = 0;
        while i < MEMORY_SIZE
            invariant
                i <= MEMORY_SIZE,
                memory@.len() == i,
                forall|j: int| 0 <= j < i ==> memory@[j] == 0u8,
            decreases MEMORY_SIZE - i,
        {
            memory.push(0u8);
            i = i + 1;
        }
        let p = Program { memory, pointer: 0, input, input_pos: 0, output: Vec::new() };
        proof {
            assert(p@ =~= init_state(p.input@));
        }
        p
    }

    /// The value of the cell the data pointer rests on.
    fn cell_value(&self) -> (v: u8)
        requires
            self.wf(),
        ensures
            v == cell(self@),
    {
        self.memory[self.pointer]
    }

    fn op_add(&mut self, n: isize)
        requires
            old(self).wf(),
            n != isize::MIN,
        ensures
            final(self).wf(),
            final(self)@ == add_result(old(self)@, n as int),
    {
        let k: usize = wrap_mod(n, 256);
        let v: u8 = self.memory[self.pointer];
        let nv: usize = ((v as usize) + k) % 256;
        proof {
            lemma_mod_shift(v as int, n as int, 256);
        }
        self.memory[self.pointer] = nv as u8;
        proof {
            assert(self@ =~= add_result(old(self)@, n as int));
        }
    }

    fn op_move(&mut self, n: isize)
        requires
            old(self).wf(),
            n != isize::MIN,
        ensures
            final(self).wf(),
            final(self)@ == move_result(old(self)@, n as int),
    {
        let k: usize = wrap_mod(n, MEMORY_SIZE);
        let np: usize = (self.pointer + k) % MEMORY_SIZE;
        proof {
            lemma_mod_shift(self.pointer as int, n as int, MEMORY_SIZE as int);
        }
        self.pointer = np;
        proof {
            assert(self@ =~= move_result(old(self)@, n as int));
        }
    }

    fn op_input(&mut self)
        requires
            old(self).wf(),
        ensures
            final(self).wf(),
            final(self)@ == input_result(old(self)@),
    {
        if self.input_pos < self.input.len() {
            let b: u8 = self.input[self.input_pos];
            self.memory[self.pointer] = b;
            self.input_pos = self.input_pos + 1;
            proof {
                assert(old(self)@.inp[0] == b);
                assert(self@.inp =~= old(self)@.inp.drop_first());
                assert(self@ =~= input_result(old(self)@));
            }
        } else {
            self.memory[self.pointer] = 0;
            proof {
                assert(self@ =~= input_result(old(self)@));
            }
        }
    }

    fn op_output(&mut self)
        requires
            old(self).wf(),
        ensures
            final(self).wf(),
            final(self)@ == output_result(old(self)@),
    {
        let v: u8 = self.memory[self.pointer];
        self.output.push(v);
        proof {
            assert(self@ =~= output_result(old(self)@));
        }
    }

    fn op_debug(&mut self)
        requires
            old(self).wf(),
        ensures
            final(self).wf(),
            final(self)@ == debug_result(old(self)@),
    {
        let v: u8 = self.memory[self.pointer];
        let mut d = decimal_digits(v);
        self.output.append(&mut d);
        proof {
            assert(self@ =~= debug_result(old(self)@));
        }
    }

    /// Executes the operations in order against the tape, recursing into loop
    /// bodies. A loop repeats while the current cell is nonzero; each pass
    /// costs one unit of `fuel`, and the body runs on what remains, so the
    /// run either finishes exactly as the fuel-indexed semantics says, or
    /// reports that the fuel bound was reached.
    pub fn execute(&mut self, operations: &Vec<Operation>, fuel: u64) -> (r: Result<
        RunStatus,
        InterpreterError,
    >)
        requires
            old(self).wf(),
            ops_bounded(ops_view(operations@), isize::MAX as int),
        ensures
            final(self).wf(),
            (match run_seq(ops_view(operations@), old(self)@, fuel as nat) {
                Some(m) => r == Ok::<RunStatus, InterpreterError>(RunStatus::Done)
                    && final(self)@ == m,
                None => r == Ok::<RunStatus, InterpreterError>(RunStatus::OutOfFuel),
            }),
        decreases fuel,
    {
        let ghost opsm = ops_view(operations@);
        proof {
            lemma_ops_view_props(operations@);
        }
        let mut i: usize = 0;
        while i < operations.len()
            invariant
                self.wf(),
                i <= operations.len(),
                opsm == ops_view(operations@),
                opsm.len() == operations@.len(),
                ops_bounded(opsm, isize::MAX as int),
                run_ops_from(opsm, 0, old(self)@, fuel as nat) == run_ops_from(
                    opsm,
                    i as nat,
                    self@,
                    fuel as nat,
                ),
            decreases operations.len() - i,
        {
            proof {
                lemma_ops_view_props(operations@);
                lemma_ops_bounded_iff(opsm, isize::MAX as int);
            }
            let ghost before = self@;
            let op = &operations[i];
            proof {
                assert(opsm[i as int] == op_view(operations@[i as int]));
                assert(op_bounded(opsm[i as int], isize::MAX as int));
            }
            match op {
                Operation::Add(n) => {
                    proof {
                        assert(opsm[i as int] == OpModel::Add(*n as int));
                    }
                    self.op_add(*n);
                },
                Operation::Move(n) => {
                    proof {
                        assert(opsm[i as int] == OpModel::Move(*n as int));
                    }
                    self.op_move(*n);
                },
                Operation::Input => {
                    self.op_input();
                },
                Operation::Output => {
                    self.op_output();
                },
                Operation::Debug => {
                    self.op_debug();
                },
                Operation::Loop(body) => {
                    let ghost opm = opsm[i as int];
                    let ghost entry = self@;
                    proof {
                        assert(opm == OpModel::Loop(ops_view(body@)));
                        assert(ops_bounded(ops_view(body@), isize::MAX as int));
                    }
                    let mut b: u64 = fuel;
                    while self.cell_value() != 0
                        invariant
                            self.wf(),
                            b <= fuel,
                            i < opsm.len(),
                            opsm == ops_view(operations@),
                            opm == opsm[i as int],
                            opm == OpModel::Loop(ops_view(body@)),
                            ops_bounded(ops_view(body@), isize::MAX as int),
                            run_op(opm, entry, fuel as nat) == run_op(opm, self@, b as nat),
                            run_ops_from(opsm, 0, old(self)@, fuel as nat) == run_ops_from(
                                opsm,
                                i as nat,
                                entry,
                                fuel as nat,
                            ),
                        decreases b,
                    {
                        if b == 0 {
                            proof {
                                assert(cell(self@) != 0);
                                assert(run_op(opm, self@, 0) is None);
                                assert(run_op(opm, entry, fuel as nat) is None);
                                assert(run_ops_from(opsm, i as nat, entry, fuel as nat) is None);
                            }
                            return Ok(RunStatus::OutOfFuel);
                        }
                        let ghost cur = self@;
                        let res = self.execute(body, b - 1);
                        proof {
                            assert(cell(cur) != 0);
                            assert(run_op(opm, cur, b as nat) == (match run_seq(
                                ops_view(body@),
                                cur,
                                (b - 1) as nat,
                            ) {
                                None => None::<MachineState>,
                                Some(m2) => run_op(opm, m2, (b - 1) as nat),
                            }));
                        }
                        match res {
                            Ok(RunStatus::Done) => {
                                b = b - 1;
                            },
                            Ok(RunStatus::OutOfFuel) => {
                                proof {
                                    assert(run_op(opm, cur, b as nat) is None);
                                    assert(run_op(opm, entry, fuel as nat) is None);
                                    assert(run_ops_from(opsm, i as nat, entry, fuel as nat)
                                        is None);
                                }
                                return Ok(RunStatus::OutOfFuel);
                            },
                            Err(e) => {
                                return Err(e);
                            },
                        }
                    }
                    proof {
                        assert(cell(self@) == 0);
                        assert(run_op(opm, self@, b as nat) == Some(self@));
                        assert(run_op(opsm[i as int], before, fuel as nat) == Some(self@));
                    }
                },
            }
            proof {
                assert(run_op(opsm[i as int], before, fuel as nat) == Some(self@));
                assert(run_ops_from(opsm, i as nat, before, fuel as nat) == run_ops_from(
                    opsm,
                    (i + 1) as nat,
                    self@,
                    fuel as nat,
                ));
            }
            i = i + 1;
        }
        Ok(RunStatus::Done)
    }

    /// The whole pipeline on one source text: lex, parse, then run against a
    /// fresh tape with the given input bytes, under the given fuel bound on
    /// loop repetitions. Returns the bytes written, or the parse error; a run
    /// cut short by the fuel bound is reported as such, not as an error.
    pub fn interpret(source: &str, input: Vec<u8>, fuel: u64) -> (r: Result<
        (RunStatus, Vec<u8>),
        InterpreterError,
    >)
        requires
            source@.len() <= isize::MAX as int,
        ensures
            (match crate::parser::spec_parse(crate::lexer::spec_tokenize(source@)) {
                crate::parser::ParseModel::Parsed(opsm) => (match run_seq(
                    opsm,
                    init_state(input@),
                    fuel as nat,
                ) {
                    Some(m) => r matches Ok(p) && p.0 == RunStatus::Done && p.1@ == m.out,
                    None => r matches Ok(p) && p.0 == RunStatus::OutOfFuel,
                }),
                crate::parser::ParseModel::Rejected(msg) => r matches Err(e) && (e
                    matches InterpreterError::ParseError(s) && s@ == msg),
            }),
    {
        let tokens = match Self::tokenize(source) {
            Ok(ts) => ts,
            Err(e) => {
                return Err(e);
            },
        };
        proof {
            crate::lexer::lemma_tokenize_props(source@);
        }
        let ops = match Self::parse(&tokens) {
            Ok(o) => o,
            Err(e) => {
                return Err(e);
            },
        };
        let mut prog = Program::new(input);
        match prog.execute(&ops, fuel) {
            Ok(status) => Ok((status, prog.output)),
            Err(e) => Err(e),
        }
    }
}

} // verus!
