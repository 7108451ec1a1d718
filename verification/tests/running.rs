use tapelang::interp::{run, Machine, RunError, RunOutcome, START_POINTER, TAPE_LEN};
use tapelang::lexer::lex;
use tapelang::parser::parse;

const FUEL: u64 = 1_000_000;

fn run_source(source: &str, input: Vec<u8>, fuel: u64) -> (Machine, RunOutcome) {
    let tokens = lex(source);
    let program = parse(&tokens).expect("source should parse");
    let mut machine = Machine::new(input);
    let outcome = run(&program, &mut machine, fuel);
    (machine, outcome)
}

#[test]
fn fresh_machine_is_zeroed() {
    let machine = Machine::new(vec![]);
    assert_eq!(machine.tape.len(), TAPE_LEN);
    assert!(machine.tape.iter().all(|&cell| cell == 0));
    assert_eq!(machine.ptr, START_POINTER);
    assert_eq!(machine.output, vec![]);
}

#[test]
fn increment_once_yields_one() {
    let (machine, outcome) = run_source("+", vec![], FUEL);
    assert_eq!(outcome, RunOutcome::Done);
    assert_eq!(machine.tape[START_POINTER], 1);
}

#[test]
fn increment_256_times_wraps_to_zero() {
    let source = "+".repeat(256);
    let (machine, outcome) = run_source(&source, vec![], FUEL);
    assert_eq!(outcome, RunOutcome::Done);
    assert_eq!(machine.tape[START_POINTER], 0);
}

#[test]
fn decrement_zero_wraps_to_255() {
    let (machine, outcome) = run_source("-", vec![], FUEL);
    assert_eq!(outcome, RunOutcome::Done);
    assert_eq!(machine.tape[START_POINTER], 255);
}

#[test]
fn clear_loop_zeroes_a_cell_of_five() {
    // five iterations of `[-]` on a cell holding 5
    let (machine, outcome) = run_source("+++++[-]", vec![], 5);
    assert_eq!(outcome, RunOutcome::Done);
    assert_eq!(machine.tape[START_POINTER], 0);
}

#[test]
fn clear_loop_runs_exactly_five_iterations() {
    // four loop-iteration credits are one too few, five are enough
    let (_, outcome) = run_source("+++++[-]", vec![], 4);
    assert_eq!(outcome, RunOutcome::OutOfFuel);
    let (_, outcome) = run_source("+++++[-]", vec![], 5);
    assert_eq!(outcome, RunOutcome::Done);
}

#[test]
fn echo_copies_one_input_byte_to_output() {
    let (machine, outcome) = run_source(",.", vec![65], FUEL);
    assert_eq!(outcome, RunOutcome::Done);
    assert_eq!(machine.output, vec![65]);
    assert_eq!(machine.in_pos, 1);
}

#[test]
fn read_without_input_fails() {
    let (_, outcome) = run_source(",", vec![], FUEL);
    assert_eq!(outcome, RunOutcome::Fail(RunError::EndOfInput));
}

#[test]
fn moving_past_last_cell_fails() {
    // from the middle of the tape, 512 right moves leave the tape
    let source = ">".repeat(TAPE_LEN - START_POINTER);
    let (_, outcome) = run_source(&source, vec![], FUEL);
    assert_eq!(outcome, RunOutcome::Fail(RunError::OutOfBounds));
}

#[test]
fn moving_below_first_cell_fails() {
    let source = "<".repeat(START_POINTER + 1);
    let (_, outcome) = run_source(&source, vec![], FUEL);
    assert_eq!(outcome, RunOutcome::Fail(RunError::OutOfBounds));
}

#[test]
fn bounds_error_stops_the_run_at_once() {
    // one byte is written, then the pointer leaves the tape; the
    // trailing write never runs
    let source = format!(".{}.", ">".repeat(TAPE_LEN - START_POINTER));
    let (machine, outcome) = run_source(&source, vec![], FUEL);
    assert_eq!(outcome, RunOutcome::Fail(RunError::OutOfBounds));
    assert_eq!(machine.output, vec![0]);
}

#[test]
fn rightmost_cell_is_reachable() {
    let source = ">".repeat(TAPE_LEN - START_POINTER - 1);
    let (machine, outcome) = run_source(&source, vec![], FUEL);
    assert_eq!(outcome, RunOutcome::Done);
    assert_eq!(machine.ptr, TAPE_LEN - 1);
}

#[test]
fn loop_with_zero_cell_is_skipped() {
    let (machine, outcome) = run_source("[.]", vec![], FUEL);
    assert_eq!(outcome, RunOutcome::Done);
    assert_eq!(machine.output, vec![]);
}

#[test]
fn nested_loops_multiply() {
    // 8 * 8 into the next cell, then one more increment gives 'A'
    let (machine, outcome) = run_source("++++++++[>++++++++<-]>+.", vec![], FUEL);
    assert_eq!(outcome, RunOutcome::Done);
    assert_eq!(machine.output, vec![65]);
}

#[test]
fn pointer_moves_read_the_right_cells() {
    let (machine, outcome) = run_source("+>++<.>.", vec![], FUEL);
    assert_eq!(outcome, RunOutcome::Done);
    assert_eq!(machine.output, vec![1, 2]);
}
