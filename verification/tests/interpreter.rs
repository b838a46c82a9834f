//! End-to-end runs of small programs through the full pipeline.

use brainf::machine::run;
use brainf::machine::ExecutionState;
use brainf::tokens::AssembleError;
use brainf::tokens::MEMORY_SIZE;

const FUEL: u64 = 1_000_000;

fn no_input() -> Vec<String> {
    Vec::new()
}

#[test]
fn test_plus() {
    let program = "+";
    let res = run(String::from(program), &no_input(), FUEL).unwrap();
    assert_eq!(res.tape[0], 1);
    assert_eq!(res.tape[1], 0);
}

#[test]
fn test_overflow_minus() {
    let program = "<-";
    let res = run(String::from(program), &no_input(), FUEL).unwrap();
    assert_eq!(res.tape[MEMORY_SIZE - 1], 255);
    assert_eq!(res.tape[0], 0);
}

#[test]
fn test_small_loop() {
    let program = "+[-]";
    let res = run(String::from(program), &no_input(), FUEL).unwrap();
    assert_eq!(res.tape[0], 0);
}

#[test]
fn test_comment_loop() {
    let program = "+>[+should skip this+]";
    let res = run(String::from(program), &no_input(), FUEL).unwrap();
    assert_eq!(res.tape[0], 1);
    assert_eq!(res.tape[1], 0);
}

#[test]
fn test_nested_loop() {
    let program = "+>+[+>+[-<]]";
    let res = run(String::from(program), &no_input(), FUEL).unwrap();
    assert_eq!(res.tape[0], 0);
    assert_eq!(res.tape[1], 1);
    assert_eq!(res.tape[2], 0);
}

#[test]
fn empty_program_halts_on_zero_tape() {
    let res = run(String::new(), &no_input(), FUEL).unwrap();
    assert!(res.halted);
    assert_eq!(res.tape.len(), MEMORY_SIZE);
    assert!(res.tape.iter().all(|&c| c == 0));
    assert!(res.output.is_empty());
}

#[test]
fn collapsed_run_matches_singles() {
    let collapsed = run(String::from("+++++"), &no_input(), FUEL).unwrap();
    assert_eq!(collapsed.tape[0], 5);
    let mut many = String::new();
    for _ in 0..5 {
        many.push('+');
    }
    let singles = run(many, &no_input(), FUEL).unwrap();
    assert_eq!(collapsed.tape[0], singles.tape[0]);
}

#[test]
fn long_plus_run_wraps() {
    let mut program = String::new();
    for _ in 0..300 {
        program.push('+');
    }
    let res = run(program, &no_input(), FUEL).unwrap();
    assert_eq!(res.tape[0], 44);
}

#[test]
fn cursor_wraps_both_ends() {
    // `<` from 0 lands on the last cell; `>` from the last cell lands on 0.
    let res = run(String::from("<->+"), &no_input(), FUEL).unwrap();
    assert_eq!(res.tape[MEMORY_SIZE - 1], 255);
    assert_eq!(res.tape[0], 1);
}

#[test]
fn print_emits_cell_bytes() {
    let res = run(String::from("+++."), &no_input(), FUEL).unwrap();
    assert_eq!(res.output, vec![3]);
    let res = run(String::from("++.."), &no_input(), FUEL).unwrap();
    assert_eq!(res.output, vec![2, 2]);
}

#[test]
fn numeric_input_sets_cell() {
    let res = run(String::from(","), &vec![String::from("5")], FUEL).unwrap();
    assert_eq!(res.tape[0], 5);
    assert!(res.halted);
}

#[test]
fn bad_input_leaves_cell_and_advances() {
    let res = run(String::from(",+"), &vec![String::from("not a number")], FUEL).unwrap();
    assert!(res.halted);
    assert_eq!(res.tape[0], 1);
}

#[test]
fn out_of_range_input_is_a_parse_failure() {
    let res = run(String::from(","), &vec![String::from("300")], FUEL).unwrap();
    assert_eq!(res.tape[0], 0);
}

#[test]
fn input_lines_are_trimmed() {
    let res = run(String::from(","), &vec![String::from(" 42 \n")], FUEL).unwrap();
    assert_eq!(res.tape[0], 42);
}

#[test]
fn inputs_are_consumed_in_order() {
    let inputs = vec![String::from("1"), String::from("2")];
    let res = run(String::from(",>,"), &inputs, FUEL).unwrap();
    assert_eq!(res.tape[0], 1);
    assert_eq!(res.tape[1], 2);
}

#[test]
fn exhausted_input_reads_as_failure() {
    let res = run(String::from(","), &no_input(), FUEL).unwrap();
    assert_eq!(res.tape[0], 0);
    assert!(res.halted);
}

#[test]
fn infinite_loop_runs_out_of_fuel() {
    let res = run(String::from("+[]"), &no_input(), 100).unwrap();
    assert!(!res.halted);
}

#[test]
fn run_rejects_unbalanced_program() {
    assert_eq!(
        run(String::from("+[-"), &no_input(), FUEL).unwrap_err(),
        AssembleError::UnbalancedBrackets
    );
}

#[test]
fn stepwise_host_loop_matches_run() {
    let insts = brainf::assembler::assemble(String::from("+,.")).unwrap();
    let mut st = ExecutionState::new();
    let mut output: Vec<u8> = Vec::new();
    let lines = vec![String::from("9")];
    let mut next: usize = 0;
    let mut guard: usize = 0;
    while !st.is_halted(&insts) && guard < 100 {
        let line = if st.wants_input(&insts) && next < lines.len() {
            let l = Some(lines[next].as_str());
            next += 1;
            l
        } else {
            None
        };
        let emitted = st.step(&insts, line);
        output.extend(emitted);
        guard += 1;
    }
    assert!(st.is_halted(&insts));
    assert_eq!(st.tape[0], 9);
    assert_eq!(output, vec![9]);
}
