//! Tree-walking execution against a fixed-size byte tape.
//!
//! The machine state is a tape of unsigned 8-bit cells, a pointer into it,
//! an input byte stream consumed one byte per `Read`, and an output byte
//! stream grown one byte per `Write`. The conventions this executor fixes:
//! the caller chooses the tape length and the pointer's starting offset;
//! moving the pointer outside the tape halts with [`RuntimeError::PointerOutOfRange`]
//! (no wrapping, no clamping); an exhausted input stream on `Read` halts with
//! [`RuntimeError::InputExhausted`] (no zero fill).
//!
//! Source-language loops may legitimately never terminate, so [`execute`]
//! takes an explicit iteration budget and reports [`ExecStatus::OutOfSteps`]
//! when the budget is hit. The budget is only a cutoff: by
//! [`lemma_run_prog_deterministic`], any two budgets large enough for the run
//! to complete (successfully or with a runtime error) give the same outcome
//! and the same final state.

use vstd::prelude::*;
use crate::parser::Instruction;

verus! {

/// A fatal runtime error; execution halts immediately.
#[derive(Clone, Copy, PartialEq, Eq, Structural, Debug)]
pub enum RuntimeError {
    /// The pointer was moved outside the tape's valid index range.
    PointerOutOfRange,
    /// The input stream was exhausted during a `Read`.
    InputExhausted,
}

/// How a call to [`execute`] ended.
#[derive(Clone, Copy, PartialEq, Eq, Structural, Debug)]
pub enum ExecStatus {
    /// The whole program ran to completion.
    Finished,
    /// The iteration budget ran out before the program finished.
    OutOfSteps,
    /// A runtime error halted execution.
    Failed(RuntimeError),
}

/// The executor's state: tape, pointer, and the two byte streams.
pub struct State {
    /// The fixed-length cell buffer; only its contents change.
    pub tape: Vec<u8>,
    /// The current cell index; always within the tape.
    pub pointer: usize,
    /// The whole input stream.
    pub input: Vec<u8>,
    /// How many input bytes have been consumed.
    pub in_pos: usize,
    /// Everything written so far.
    pub output: Vec<u8>,
}

/// The mathematical view of a [`State`].
pub struct StateModel {
    pub tape: Seq<u8>,
    pub pointer: int,
    pub input: Seq<u8>,
    pub in_pos: int,
    pub output: Seq<u8>,
}

impl StateModel {
    /// The pointer is on the tape and the input position is within the input.
    pub open spec fn wf(self) -> bool {
        &&& 0 <= self.pointer < self.tape.len()
        &&& 0 <= self.in_pos <= self.input.len()
    }
}

impl View for State {
    type V = StateModel;

    open spec fn view(&self) -> StateModel {
        StateModel {
            tape: self.tape@,
            pointer: self.pointer as int,
            input: self.input@,
            in_pos: self.in_pos as int,
            output: self.output@,
        }
    }
}

/// One increment with unsigned 8-bit wraparound: 255 + 1 = 0.
pub open spec fn wrap_inc(b: u8) -> u8 {
    if b == 255 {
        0
    } else {
        (b + 1) as u8
    }
}

/// One decrement with unsigned 8-bit wraparound: 0 - 1 = 255.
pub open spec fn wrap_dec(b: u8) -> u8 {
    if b == 0 {
        255
    } else {
        (b - 1) as u8
    }
}

/// The outcome of running instructions from a state with a given iteration
/// budget. `Done` and `Fail` carry the state reached; `OutOfFuel` means the
/// budget ran out first.
pub enum RunOutcome {
    Done(StateModel),
    Fail(RuntimeError, StateModel),
    OutOfFuel,
}

/// The effect of one leaf instruction (meaningful on well-formed states;
/// callers never apply it to `Loop`).
pub open spec fn run_leaf(inst: Instruction, st: StateModel) -> RunOutcome {
    match inst {
        Instruction::MovRight => if st.pointer + 1 < st.tape.len() {
            RunOutcome::Done(StateModel { pointer: st.pointer + 1, ..st })
        } else {
            RunOutcome::Fail(RuntimeError::PointerOutOfRange, st)
        },
        Instruction::MovLeft => if st.pointer >= 1 {
            RunOutcome::Done(StateModel { pointer: st.pointer - 1, ..st })
        } else {
            RunOutcome::Fail(RuntimeError::PointerOutOfRange, st)
        },
        Instruction::Inc => RunOutcome::Done(
            StateModel {
                tape: st.tape.update(st.pointer, wrap_inc(st.tape[st.pointer])),
                ..st
            },
        ),
        Instruction::Dec => RunOutcome::Done(
            StateModel {
                tape: st.tape.update(st.pointer, wrap_dec(st.tape[st.pointer])),
                ..st
            },
        ),
        Instruction::Write => RunOutcome::Done(
            StateModel { output: st.output.push(st.tape[st.pointer]), ..st },
        ),
        Instruction::Read => if st.in_pos < st.input.len() {
            RunOutcome::Done(
                StateModel {
                    tape: st.tape.update(st.pointer, st.input[st.in_pos]),
                    in_pos: st.in_pos + 1,
                    ..st
                },
            )
        } else {
            RunOutcome::Fail(RuntimeError::InputExhausted, st)
        },
        Instruction::Loop(_) => RunOutcome::Done(st),
    }
}

/// Runs an instruction sequence in order. The budget is spent only on loop
/// iterations; sequencing passes it through unchanged.
pub open spec fn run_prog(prog: Seq<Instruction>, st: StateModel, fuel: nat) -> RunOutcome
    decreases fuel, prog, 1int,
{
    if prog.len() == 0 {
        RunOutcome::Done(st)
    } else {
        let first = match prog[0] {
            Instruction::Loop(body) => run_loop(body@, st, fuel),
            leaf => run_leaf(leaf, st),
        };
        match first {
            RunOutcome::Done(st2) => run_prog(prog.drop_first(), st2, fuel),
            o => o,
        }
    }
}

/// Re-runs a loop body while the current cell is nonzero, testing before
/// each iteration; each iteration costs one unit of budget.
pub open spec fn run_loop(body: Seq<Instruction>, st: StateModel, fuel: nat) -> RunOutcome
    decreases fuel, body, 0int,
{
    if st.tape[st.pointer] == 0 {
        RunOutcome::Done(st)
    } else if fuel == 0 {
        RunOutcome::OutOfFuel
    } else {
        match run_prog(body, st, (fuel - 1) as nat) {
            RunOutcome::Done(st2) => run_loop(body, st2, (fuel - 1) as nat),
            o => o,
        }
    }
}

/// Raising the budget never changes a completed run of a sequence: it can
/// only turn `OutOfFuel` into an answer.
pub proof fn lemma_run_prog_mono(prog: Seq<Instruction>, st: StateModel, f1: nat, f2: nat)
    requires
        f1 <= f2,
        !(run_prog(prog, st, f1) is OutOfFuel),
    ensures
        run_prog(prog, st, f2) == run_prog(prog, st, f1),
    decreases f1, prog, 1int,
{
    if prog.len() > 0 {
        match prog[0] {
            Instruction::Loop(body) => {
                lemma_run_loop_mono(body@, st, f1, f2);
                match run_loop(body@, st, f1) {
                    RunOutcome::Done(st2) => {
                        lemma_run_prog_mono(prog.drop_first(), st2, f1, f2);
                    },
                    _ => {},
                }
            },
            leaf => {
                match run_leaf(leaf, st) {
                    RunOutcome::Done(st2) => {
                        lemma_run_prog_mono(prog.drop_first(), st2, f1, f2);
                    },
                    _ => {},
                }
            },
        }
    }
}

/// Raising the budget never changes a completed run of a loop.
pub proof fn lemma_run_loop_mono(body: Seq<Instruction>, st: StateModel, f1: nat, f2: nat)
    requires
        f1 <= f2,
        !(run_loop(body, st, f1) is OutOfFuel),
    ensures
        run_loop(body, st, f2) == run_loop(body, st, f1),
    decreases f1, body, 0int,
{
    if st.tape[st.pointer] != 0 {
        lemma_run_prog_mono(body, st, (f1 - 1) as nat, (f2 - 1) as nat);
        match run_prog(body, st, (f1 - 1) as nat) {
            RunOutcome::Done(st2) => {
                lemma_run_loop_mono(body, st2, (f1 - 1) as nat, (f2 - 1) as nat);
            },
            _ => {},
        }
    }
}

/// The iteration budget is only a cutoff: any two budgets with which a run
/// completes — successfully or with a runtime error — give the same outcome,
/// final state included.
pub proof fn lemma_run_prog_deterministic(
    prog: Seq<Instruction>,
    st: StateModel,
    f1: nat,
    f2: nat,
)
    requires
        !(run_prog(prog, st, f1) is OutOfFuel),
        !(run_prog(prog, st, f2) is OutOfFuel),
    ensures
        run_prog(prog, st, f1) == run_prog(prog, st, f2),
{
    if f1 <= f2 {
        lemma_run_prog_mono(prog, st, f1, f2);
    } else {
        lemma_run_prog_mono(prog, st, f2, f1);
    }
}

/// Splitting a sequence splits its run: the second part starts where the
/// first part successfully ended, under the same budget.
pub proof fn lemma_run_prog_append(
    p1: Seq<Instruction>,
    p2: Seq<Instruction>,
    st: StateModel,
    fuel: nat,
)
    ensures
        run_prog(p1 + p2, st, fuel) == (match run_prog(p1, st, fuel) {
            RunOutcome::Done(st1) => run_prog(p2, st1, fuel),
            o => o,
        }),
    decreases p1.len(),
{
    if p1.len() == 0 {
        assert(p1 + p2 =~= p2);
    } else {
        assert((p1 + p2)[0] == p1[0]);
        assert((p1 + p2).drop_first() =~= p1.drop_first() + p2);
        let first = match p1[0] {
            Instruction::Loop(body) => run_loop(body@, st, fuel),
            leaf => run_leaf(leaf, st),
        };
        match first {
            RunOutcome::Done(st2) => {
                lemma_run_prog_append(p1.drop_first(), p2, st2, fuel);
            },
            _ => {},
        }
    }
}

/// A one-instruction sequence runs as that instruction alone.
proof fn lemma_run_single(inst: Instruction, st: StateModel, fuel: nat)
    ensures
        run_prog(seq![inst], st, fuel) == (match inst {
            Instruction::Loop(body) => run_loop(body@, st, fuel),
            leaf => run_leaf(leaf, st),
        }),
{
    let s = seq![inst];
    assert(s[0] == inst);
    assert(s.drop_first() =~= Seq::<Instruction>::empty());
    let first = match inst {
        Instruction::Loop(body) => run_loop(body@, st, fuel),
        leaf => run_leaf(leaf, st),
    };
    match first {
        RunOutcome::Done(st2) => {
            assert(run_prog(s.drop_first(), st2, fuel) == RunOutcome::Done(st2));
        },
        _ => {},
    }
}

/// A failing or out-of-budget prefix decides the whole sequence's run.
proof fn lemma_run_prefix_decides(prog: Seq<Instruction>, st: StateModel, i: int, fuel: nat)
    requires
        0 <= i <= prog.len(),
        !(run_prog(prog.take(i), st, fuel) is Done),
    ensures
        run_prog(prog, st, fuel) == run_prog(prog.take(i), st, fuel),
{
    assert(prog =~= prog.take(i) + prog.skip(i));
    lemma_run_prog_append(prog.take(i), prog.skip(i), st, fuel);
}

impl State {
    /// A fresh machine: `tape_len` zeroed cells, the pointer at `start`, the
    /// given bytes as the input stream, and nothing written yet.
    pub fn new(tape_len: usize, start: usize, input: Vec<u8>) -> (st: State)
        requires
            start < tape_len,
        ensures
            st@.wf(),
            st@.tape == Seq::new(tape_len as nat, |k: int| 0u8),
            st@.pointer == start as int,
            st@.input == input@,
            st@.in_pos == 0,
            st@.output == Seq::<u8>::empty(),
    {
        let mut tape: Vec<u8> = Vec::new();
        let mut k: usize = 0;
        while k < tape_len
            invariant
                k <= tape_len,
                tape@.len() == k,
                forall|j: int| 0 <= j < k ==> tape@[j] == 0u8,
            decreases tape_len - k,
        {
            tape.push(0);
            k = k + 1;
        }
        proof {
            assert(tape@ =~= Seq::new(tape_len as nat, |k: int| 0u8));
        }
        State { tape, pointer: start, input, in_pos: 0, output: Vec::new() }
    }
}

/// Walks the program in order against the state and reports exactly how the
/// run of the fueled semantics [`run_prog`] with budget `fuel` ends:
/// completion, a runtime error (pointer out of range, input exhausted), or
/// budget exhaustion. On completion and on error the final state — tape,
/// pointer, input position and output — is exactly the one the semantics
/// reaches.
#[verifier::loop_isolation(false)]
pub fn execute(program: &Vec<Instruction>, st: &mut State, fuel: u64) -> (r: ExecStatus)
    requires
        old(st)@.wf(),
    ensures
        final(st)@.wf(),
        final(st)@.tape.len() == old(st)@.tape.len(),
        match r {
            ExecStatus::Finished => run_prog(program@, old(st)@, fuel as nat)
                == RunOutcome::Done(final(st)@),
            ExecStatus::Failed(e) => run_prog(program@, old(st)@, fuel as nat)
                == RunOutcome::Fail(e, final(st)@),
            ExecStatus::OutOfSteps => run_prog(program@, old(st)@, fuel as nat)
                is OutOfFuel,
        },
    decreases fuel,
{
    let ghost st0 = st@;
    let ghost big = fuel as nat;
    let n: usize = program.len();
    let mut idx: usize = 0;
    proof {
        assert(program@.take(0) =~= Seq::<Instruction>::empty());
    }
    while idx < n
        invariant
            idx <= n,
            st@.wf(),
            st@.tape.len() == st0.tape.len(),
            run_prog(program@.take(idx as int), st0, big) == RunOutcome::Done(st@),
        decreases n - idx,
    {
        let ghost pre = st@;
        let ghost cur_inst = program@[idx as int];
        proof {
            assert(program@.take(idx + 1 as int) =~= program@.take(idx as int) + seq![cur_inst]);
        }
        match &program[idx] {
            Instruction::MovRight => {
                if st.pointer < st.tape.len() - 1 {
                    st.pointer = st.pointer + 1;
                    proof {
                        lemma_run_single(cur_inst, pre, big);
                        lemma_run_prog_append(program@.take(idx as int), seq![cur_inst], st0, big);
                    }
                } else {
                    proof {
                        lemma_run_single(cur_inst, pre, big);
                        lemma_run_prog_append(program@.take(idx as int), seq![cur_inst], st0, big);
                        lemma_run_prefix_decides(program@, st0, idx + 1 as int, big);
                    }
                    return ExecStatus::Failed(RuntimeError::PointerOutOfRange);
                }
            },
            Instruction::MovLeft => {
                if st.pointer >= 1 {
                    st.pointer = st.pointer - 1;
                    proof {
                        lemma_run_single(cur_inst, pre, big);
                        lemma_run_prog_append(program@.take(idx as int), seq![cur_inst], st0, big);
                    }
                } else {
                    proof {
                        lemma_run_single(cur_inst, pre, big);
                        lemma_run_prog_append(program@.take(idx as int), seq![cur_inst], st0, big);
                        lemma_run_prefix_decides(program@, st0, idx + 1 as int, big);
                    }
                    return ExecStatus::Failed(RuntimeError::PointerOutOfRange);
                }
            },
            Instruction::Inc => {
                let b = st.tape[st.pointer];
                let nb: u8 = if b == 255 {
                    0
                } else {
                    b + 1
                };
                st.tape[st.pointer] = nb;
                proof {
                    lemma_run_single(cur_inst, pre, big);
                    lemma_run_prog_append(program@.take(idx as int), seq![cur_inst], st0, big);
                }
            },
            Instruction::Dec => {
                let b = st.tape[st.pointer];
                let nb: u8 = if b == 0 {
                    255
                } else {
                    b - 1
                };
                st.tape[st.pointer] = nb;
                proof {
                    lemma_run_single(cur_inst, pre, big);
                    lemma_run_prog_append(program@.take(idx as int), seq![cur_inst], st0, big);
                }
            },
            Instruction::Write => {
                let b = st.tape[st.pointer];
                st.output.push(b);
                proof {
                    lemma_run_single(cur_inst, pre, big);
                    lemma_run_prog_append(program@.take(idx as int), seq![cur_inst], st0, big);
                }
            },
            Instruction::Read => {
                if st.in_pos < st.input.len() {
                    let b = st.input[st.in_pos];
                    st.tape[st.pointer] = b;
                    st.in_pos = st.in_pos + 1;
                    proof {
                        lemma_run_single(cur_inst, pre, big);
                        lemma_run_prog_append(program@.take(idx as int), seq![cur_inst], st0, big);
                    }
                } else {
                    proof {
                        lemma_run_single(cur_inst, pre, big);
                        lemma_run_prog_append(program@.take(idx as int), seq![cur_inst], st0, big);
                        lemma_run_prefix_decides(program@, st0, idx + 1 as int, big);
                    }
                    return ExecStatus::Failed(RuntimeError::InputExhausted);
                }
            },
            Instruction::Loop(body) => {
                let ghost bodyv = body@;
                let ghost lpre = st@;
                let mut remaining: u64 = fuel;
                while st.tape[st.pointer] != 0
                    invariant
                        st@.wf(),
                        st@.tape.len() == st0.tape.len(),
                        remaining <= fuel,
                        run_loop(bodyv, lpre, big) == run_loop(bodyv, st@, remaining as nat),
                    decreases remaining,
                {
                    if remaining == 0 {
                        proof {
                            lemma_run_single(cur_inst, pre, big);
                            lemma_run_prog_append(
                                program@.take(idx as int),
                                seq![cur_inst],
                                st0,
                                big,
                            );
                            lemma_run_prefix_decides(program@, st0, idx + 1 as int, big);
                        }
                        return ExecStatus::OutOfSteps;
                    }
                    remaining = remaining - 1;
                    let ghost before_iter = st@;
                    let status = execute(body, st, remaining);
                    match status {
                        ExecStatus::Finished => {
                            proof {
                                assert(run_loop(bodyv, before_iter, (remaining + 1) as nat)
                                    == run_loop(bodyv, st@, remaining as nat));
                            }
                        },
                        ExecStatus::OutOfSteps => {
                            proof {
                                assert(run_loop(bodyv, lpre, big) is OutOfFuel);
                                lemma_run_single(cur_inst, pre, big);
                                lemma_run_prog_append(
                                    program@.take(idx as int),
                                    seq![cur_inst],
                                    st0,
                                    big,
                                );
                                lemma_run_prefix_decides(program@, st0, idx + 1 as int, big);
                            }
                            return ExecStatus::OutOfSteps;
                        },
                        ExecStatus::Failed(e) => {
                            proof {
                                assert(run_loop(bodyv, lpre, big) == RunOutcome::Fail(e, st@));
                                lemma_run_single(cur_inst, pre, big);
                                lemma_run_prog_append(
                                    program@.take(idx as int),
                                    seq![cur_inst],
                                    st0,
                                    big,
                                );
                                lemma_run_prefix_decides(program@, st0, idx + 1 as int, big);
                            }
                            return ExecStatus::Failed(e);
                        },
                    }
                }
                proof {
                    assert(run_loop(bodyv, lpre, big) == RunOutcome::Done(st@));
                    lemma_run_single(cur_inst, pre, big);
                    lemma_run_prog_append(program@.take(idx as int), seq![cur_inst], st0, big);
                }
            },
        }
        idx = idx + 1;
    }
    proof {
        assert(program@.take(n as int) =~= program@);
    }
    ExecStatus::Finished
}

} // verus!
