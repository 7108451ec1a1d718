//! The interpreter: walks the instruction tree against a fixed-size
//! byte tape with a movable data pointer, consuming input bytes and
//! collecting output bytes.
//!
//! A loop body may repeat without bound, so the interpreter takes a
//! fuel budget: entering one iteration of a loop body costs one unit
//! of fuel. A run that exhausts the budget stops and says so; every
//! other outcome is exactly the one the unbounded machine would reach.

use vstd::prelude::*;
use crate::parser::{Instruction, InstView, view_inst, view_insts, lemma_view_insts};

verus! {

/// Number of byte cells on the tape.
pub const TAPE_LEN: usize = 1024;

/// Tape index at which the data pointer starts.
pub const START_POINTER: usize = 512;

/// A fatal condition met while executing.
#[derive(Clone, Copy, Debug, PartialEq, Eq, Structural)]
pub enum RunError {
    /// The data pointer would move below index 0 or past the tape's
    /// last index.
    OutOfBounds,
    /// A read instruction executed with no input byte left.
    EndOfInput,
}

/// How a run ended.
#[derive(Clone, Copy, Debug, PartialEq, Eq, Structural)]
pub enum RunOutcome {
    /// Every instruction ran to completion.
    Done,
    /// A fatal condition aborted the run.
    Fail(RunError),
    /// The fuel budget ran out inside a loop.
    OutOfFuel,
}

/// The mathematical state of the machine: the tape cells, the data
/// pointer, the input bytes with the position of the next unread one,
/// and the output bytes emitted so far.
#[verifier::ext_equal]
pub struct MState {
    pub tape: Seq<u8>,
    pub ptr: int,
    pub input: Seq<u8>,
    pub in_pos: int,
    pub output: Seq<u8>,
}

impl MState {
    /// The data pointer is on the tape and the input position is
    /// within the input.
    pub open spec fn wf(self) -> bool {
        &&& 0 <= self.ptr < self.tape.len()
        &&& 0 <= self.in_pos <= self.input.len()
    }
}

/// Executes the instructions of `p` from index `i` on, in state `s`,
/// with `fuel` loop-iteration credits, and returns the final state and
/// how the run ended. Instructions execute in order; a loop whose cell
/// is nonzero spends one credit, runs its body once and is re-tested;
/// a fatal condition stops everything at once.
pub open spec fn run_from(p: Seq<InstView>, i: int, s: MState, fuel: nat) -> (MState, RunOutcome)
    decreases fuel, p.len() - i,
{
    if i < 0 || i >= p.len() {
        (s, RunOutcome::Done)
    } else {
        match p[i] {
            InstView::IncPointer => {
                if s.ptr + 1 < s.tape.len() {
                    run_from(p, i + 1, MState { ptr: s.ptr + 1, ..s }, fuel)
                } else {
                    (s, RunOutcome::Fail(RunError::OutOfBounds))
                }
            },
            InstView::DecPointer => {
                if s.ptr >= 1 {
                    run_from(p, i + 1, MState { ptr: s.ptr - 1, ..s }, fuel)
                } else {
                    (s, RunOutcome::Fail(RunError::OutOfBounds))
                }
            },
            InstView::Inc => {
                let v = (((s.tape[s.ptr] as int) + 1) % 256) as u8;
                run_from(p, i + 1, MState { tape: s.tape.update(s.ptr, v), ..s }, fuel)
            },
            InstView::Dec => {
                let v = (((s.tape[s.ptr] as int) + 255) % 256) as u8;
                run_from(p, i + 1, MState { tape: s.tape.update(s.ptr, v), ..s }, fuel)
            },
            InstView::Write => {
                run_from(p, i + 1, MState { output: s.output.push(s.tape[s.ptr]), ..s }, fuel)
            },
            InstView::Read => {
                if s.in_pos < s.input.len() {
                    run_from(
                        p,
                        i + 1,
                        MState {
                            tape: s.tape.update(s.ptr, s.input[s.in_pos]),
                            in_pos: s.in_pos + 1,
                            ..s
                        },
                        fuel,
                    )
                } else {
                    (s, RunOutcome::Fail(RunError::EndOfInput))
                }
            },
            InstView::Loop(body) => {
                if s.tape[s.ptr] == 0 {
                    run_from(p, i + 1, s, fuel)
                } else if fuel == 0 {
                    (s, RunOutcome::OutOfFuel)
                } else {
                    match run_from(body, 0, s, (fuel - 1) as nat) {
                        (s1, RunOutcome::Done) => run_from(p, i, s1, (fuel - 1) as nat),
                        other => other,
                    }
                }
            },
        }
    }
}

/// What a whole program does to a starting state, with a fuel budget.
pub open spec fn run_spec(p: Seq<InstView>, s: MState, fuel: nat) -> (MState, RunOutcome) {
    run_from(p, 0, s, fuel)
}

proof fn lemma_run_from_fuel_monotonic(p: Seq<InstView>, i: int, s: MState, f1: nat, f2: nat)
    requires
        f1 <= f2,
        run_from(p, i, s, f1).1 != RunOutcome::OutOfFuel,
    ensures
        run_from(p, i, s, f2) == run_from(p, i, s, f1),
    decreases f1, p.len() - i,
{
    if i < 0 || i >= p.len() {
    } else {
        match p[i] {
            InstView::IncPointer => {
                if s.ptr + 1 < s.tape.len() {
                    lemma_run_from_fuel_monotonic(
                        p,
                        i + 1,
                        MState { ptr: s.ptr + 1, ..s },
                        f1,
                        f2,
                    );
                }
            },
            InstView::DecPointer => {
                if s.ptr >= 1 {
                    lemma_run_from_fuel_monotonic(
                        p,
                        i + 1,
                        MState { ptr: s.ptr - 1, ..s },
                        f1,
                        f2,
                    );
                }
            },
            InstView::Inc => {
                let v = (((s.tape[s.ptr] as int) + 1) % 256) as u8;
                lemma_run_from_fuel_monotonic(
                    p,
                    i + 1,
                    MState { tape: s.tape.update(s.ptr, v), ..s },
                    f1,
                    f2,
                );
            },
            InstView::Dec => {
                let v = (((s.tape[s.ptr] as int) + 255) % 256) as u8;
                lemma_run_from_fuel_monotonic(
                    p,
                    i + 1,
                    MState { tape: s.tape.update(s.ptr, v), ..s },
                    f1,
                    f2,
                );
            },
            InstView::Write => {
                lemma_run_from_fuel_monotonic(
                    p,
                    i + 1,
                    MState { output: s.output.push(s.tape[s.ptr]), ..s },
                    f1,
                    f2,
                );
            },
            InstView::Read => {
                if s.in_pos < s.input.len() {
                    lemma_run_from_fuel_monotonic(
                        p,
                        i + 1,
                        MState {
                            tape: s.tape.update(s.ptr, s.input[s.in_pos]),
                            in_pos: s.in_pos + 1,
                            ..s
                        },
                        f1,
                        f2,
                    );
                }
            },
            InstView::Loop(body) => {
                if s.tape[s.ptr] == 0 {
                    lemma_run_from_fuel_monotonic(p, i + 1, s, f1, f2);
                } else {
                    let (s1, st) = run_from(body, 0, s, (f1 - 1) as nat);
                    lemma_run_from_fuel_monotonic(body, 0, s, (f1 - 1) as nat, (f2 - 1) as nat);
                    if st == RunOutcome::Done {
                        lemma_run_from_fuel_monotonic(p, i, s1, (f1 - 1) as nat, (f2 - 1) as nat);
                    }
                }
            },
        }
    }
}

proof fn lemma_run_from_fail_stops(p: Seq<InstView>, q: Seq<InstView>, i: int, s: MState, fuel: nat)
    requires
        0 <= i <= p.len(),
        run_from(p, i, s, fuel).1 is Fail,
    ensures
        run_from(p + q, i, s, fuel) == run_from(p, i, s, fuel),
    decreases fuel, p.len() - i,
{
    if i >= p.len() {
        // a completed run is not a failed one
    } else {
        assert((p + q)[i] == p[i]);
        match p[i] {
            InstView::IncPointer => {
                if s.ptr + 1 < s.tape.len() {
                    lemma_run_from_fail_stops(p, q, i + 1, MState { ptr: s.ptr + 1, ..s }, fuel);
                }
            },
            InstView::DecPointer => {
                if s.ptr >= 1 {
                    lemma_run_from_fail_stops(p, q, i + 1, MState { ptr: s.ptr - 1, ..s }, fuel);
                }
            },
            InstView::Inc => {
                let v = (((s.tape[s.ptr] as int) + 1) % 256) as u8;
                lemma_run_from_fail_stops(
                    p,
                    q,
                    i + 1,
                    MState { tape: s.tape.update(s.ptr, v), ..s },
                    fuel,
                );
            },
            InstView::Dec => {
                let v = (((s.tape[s.ptr] as int) + 255) % 256) as u8;
                lemma_run_from_fail_stops(
                    p,
                    q,
                    i + 1,
                    MState { tape: s.tape.update(s.ptr, v), ..s },
                    fuel,
                );
            },
            InstView::Write => {
                lemma_run_from_fail_stops(
                    p,
                    q,
                    i + 1,
                    MState { output: s.output.push(s.tape[s.ptr]), ..s },
                    fuel,
                );
            },
            InstView::Read => {
                if s.in_pos < s.input.len() {
                    lemma_run_from_fail_stops(
                        p,
                        q,
                        i + 1,
                        MState {
                            tape: s.tape.update(s.ptr, s.input[s.in_pos]),
                            in_pos: s.in_pos + 1,
                            ..s
                        },
                        fuel,
                    );
                }
            },
            InstView::Loop(body) => {
                if s.tape[s.ptr] == 0 {
                    lemma_run_from_fail_stops(p, q, i + 1, s, fuel);
                } else if fuel > 0 {
                    let (s1, st) = run_from(body, 0, s, (fuel - 1) as nat);
                    if st == RunOutcome::Done {
                        lemma_run_from_fail_stops(p, q, i, s1, (fuel - 1) as nat);
                    }
                }
            },
        }
    }
}

/// A fatal condition aborts the whole run at once: when a program
/// fails, no instruction after the failing one executes, so any
/// instructions appended to the program leave the failing state and
/// the error exactly as they were.
pub proof fn lemma_fail_stops_run(p: Seq<InstView>, q: Seq<InstView>, s: MState, fuel: nat)
    requires
        run_spec(p, s, fuel).1 is Fail,
    ensures
        run_spec(p + q, s, fuel) == run_spec(p, s, fuel),
{
    lemma_run_from_fail_stops(p, q, 0, s, fuel);
}

/// The fuel budget only ever cuts a run short, it never changes it: a
/// run that completes or fails under some budget gives the same final
/// state and the same outcome under every larger budget.
pub proof fn lemma_run_spec_fuel_monotonic(p: Seq<InstView>, s: MState, f1: nat, f2: nat)
    requires
        f1 <= f2,
        run_spec(p, s, f1).1 != RunOutcome::OutOfFuel,
    ensures
        run_spec(p, s, f2) == run_spec(p, s, f1),
{
    lemma_run_from_fuel_monotonic(p, 0, s, f1, f2);
}

/// The machine a program runs against: a fixed-size byte tape, the
/// data pointer, the input bytes with a read position, and the output
/// bytes collected so far.
pub struct Machine {
    pub tape: Vec<u8>,
    pub ptr: usize,
    pub input: Vec<u8>,
    pub in_pos: usize,
    pub output: Vec<u8>,
}

impl View for Machine {
    type V = MState;

    open spec fn view(&self) -> MState {
        MState {
            tape: self.tape@,
            ptr: self.ptr as int,
            input: self.input@,
            in_pos: self.in_pos as int,
            output: self.output@,
        }
    }
}

impl Machine {
    /// A fresh machine: all tape cells zero, the data pointer at its
    /// fixed starting offset, the given input unread, no output.
    pub fn new(input: Vec<u8>) -> (m: Machine)
        ensures
            m@.wf(),
            m@.tape.len() == TAPE_LEN,
            forall|k: int| 0 <= k < m@.tape.len() ==> m@.tape[k] == 0u8,
            m@.ptr == START_POINTER as int,
            m@.input == input@,
            m@.in_pos == 0,
            m@.output == Seq::<u8>::empty(),
    {
        let mut tape: Vec<u8> = Vec::new();
        let mut k: usize = 0;
        while k < TAPE_LEN
            invariant
                k <= TAPE_LEN,
                tape@.len() == k,
                forall|j: int| 0 <= j < k ==> tape@[j] == 0u8,
            decreases TAPE_LEN - k,
        {
            tape.push(0u8);
            k = k + 1;
        }
        Machine { tape, ptr: START_POINTER, input, in_pos: 0, output: Vec::new() }
    }
}

/// Executes every instruction in order against the machine, recursing
/// into loop bodies, with `fuel` loop-iteration credits. The final
/// machine state and the returned outcome are exactly what the
/// semantics [`run_spec`] gives for the starting state.
pub fn run(instructions: &Vec<Instruction>, m: &mut Machine, fuel: u64) -> (r: RunOutcome)
    requires
        old(m)@.wf(),
    ensures
        final(m)@.wf(),
        (final(m)@, r) == run_spec(view_insts(instructions@), old(m)@, fuel as nat),
    decreases fuel,
{
    let ghost pv = view_insts(instructions@);
    proof {
        lemma_view_insts(instructions@);
    }
    let n = instructions.len();
    let mut i: usize = 0;
    let mut gas: u64 = fuel;
    while i < n
        invariant
            n == instructions@.len(),
            pv == view_insts(instructions@),
            pv.len() == n,
            forall|k: int| 0 <= k < n ==> pv[k] == view_inst(instructions@[k]),
            i <= n,
            gas <= fuel,
            m@.wf(),
            run_from(pv, i as int, m@, gas as nat) == run_from(pv, 0, old(m)@, fuel as nat),
        decreases n - i,
    {
        let ghost prev = m@;
        let ins = &instructions[i];
        match ins {
            Instruction::IncPointer => {
                if m.ptr < m.tape.len() - 1 {
                    m.ptr = m.ptr + 1;
                    proof {
                        assert(m@ =~= (MState { ptr: prev.ptr + 1, ..prev }));
                    }
                } else {
                    return RunOutcome::Fail(RunError::OutOfBounds);
                }
            },
            Instruction::DecPointer => {
                if m.ptr >= 1 {
                    m.ptr = m.ptr - 1;
                    proof {
                        assert(m@ =~= (MState { ptr: prev.ptr - 1, ..prev }));
                    }
                } else {
                    return RunOutcome::Fail(RunError::OutOfBounds);
                }
            },
            Instruction::Inc => {
                let v = m.tape[m.ptr];
                let nv: u8 = if v == 255 { 0 } else { v + 1 };
                m.tape.set(m.ptr, nv);
                proof {
                    assert(nv == (((prev.tape[prev.ptr] as int) + 1) % 256) as u8);
                    assert(m@ =~= (MState { tape: prev.tape.update(prev.ptr, nv), ..prev }));
                }
            },
            Instruction::Dec => {
                let v = m.tape[m.ptr];
                let nv: u8 = if v == 0 { 255 } else { v - 1 };
                m.tape.set(m.ptr, nv);
                proof {
                    assert(nv == (((prev.tape[prev.ptr] as int) + 255) % 256) as u8);
                    assert(m@ =~= (MState { tape: prev.tape.update(prev.ptr, nv), ..prev }));
                }
            },
            Instruction::Write => {
                let v = m.tape[m.ptr];
                m.output.push(v);
                proof {
                    assert(m@ =~= (MState { output: prev.output.push(v), ..prev }));
                }
            },
            Instruction::Read => {
                if m.in_pos < m.input.len() {
                    let b = m.input[m.in_pos];
                    m.tape.set(m.ptr, b);
                    m.in_pos = m.in_pos + 1;
                    proof {
                        assert(m@ =~= (MState {
                            tape: prev.tape.update(prev.ptr, b),
                            in_pos: prev.in_pos + 1,
                            ..prev
                        }));
                    }
                } else {
                    return RunOutcome::Fail(RunError::EndOfInput);
                }
            },
            Instruction::Loop(body) => {
                proof {
                    assert(pv[i as int] == InstView::Loop(view_insts(body@)));
                }
                while m.tape[m.ptr] != 0
                    invariant
                        n == instructions@.len(),
                        pv == view_insts(instructions@),
                        pv.len() == n,
                        i < n,
                        instructions@[i as int] == Instruction::Loop(*body),
                        pv[i as int] == InstView::Loop(view_insts(body@)),
                        gas <= fuel,
                        m@.wf(),
                        run_from(pv, i as int, m@, gas as nat) == run_from(pv, 0, old(m)@, fuel as nat),
                    decreases gas,
                {
                    if gas == 0 {
                        return RunOutcome::OutOfFuel;
                    }
                    gas = gas - 1;
                    let r = run(body, m, gas);
                    match r {
                        RunOutcome::Done => {},
                        _ => {
                            return r;
                        },
                    }
                }
            },
        }
        i = i + 1;
    }
    RunOutcome::Done
}

} // verus!
