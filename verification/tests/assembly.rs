//! Lexing, run-length collapsing, and bracket resolution.

use brainf::assembler::assemble;
use brainf::assembler::assemble_tokens;
use brainf::assembler::collapse_runs;
use brainf::assembler::lex;
use brainf::tokens::ASTEntry;
use brainf::tokens::AssembleError;
use brainf::tokens::Tokens;

#[test]
fn lex_keeps_instructions_and_drops_comments() {
    let lexed = lex(String::from("a+b- <c> .,x[y]z\n"));
    assert_eq!(
        lexed,
        vec![
            Tokens::Increment,
            Tokens::Decrement,
            Tokens::ShiftLeft,
            Tokens::ShiftRight,
            Tokens::Print,
            Tokens::TakeInput,
            Tokens::StartLoop,
            Tokens::EndLoop,
        ]
    );
}

#[test]
fn plus_run_collapses_to_one_counted_entry() {
    let entries = collapse_runs(&lex(String::from("+++++")));
    assert_eq!(entries.len(), 1);
    assert_eq!(entries[0].token, Tokens::Increment);
    assert_eq!(entries[0].repeat, 5);
    assert_eq!(entries[0].matching_bracket, None);
}

#[test]
fn brackets_and_io_do_not_collapse() {
    let entries = collapse_runs(&lex(String::from("[[..,,]]")));
    assert_eq!(entries.len(), 8);
    for e in &entries {
        assert_eq!(e.repeat, 1);
    }
}

#[test]
fn mixed_runs_collapse_per_kind() {
    let entries = collapse_runs(&lex(String::from("++--->>")));
    let expected = [
        (Tokens::Increment, 2),
        (Tokens::Decrement, 3),
        (Tokens::ShiftRight, 2),
    ];
    assert_eq!(entries.len(), expected.len());
    for (e, (t, n)) in entries.iter().zip(expected.iter()) {
        assert_eq!(e.token, *t);
        assert_eq!(e.repeat, *n);
    }
}

#[test]
fn brackets_resolve_to_partners() {
    let insts = assemble(String::from("+[+[-]]")).unwrap();
    // entries: + [ + [ - ] ]
    assert_eq!(insts[1].matching_bracket, Some(6));
    assert_eq!(insts[6].matching_bracket, Some(1));
    assert_eq!(insts[3].matching_bracket, Some(5));
    assert_eq!(insts[5].matching_bracket, Some(3));
    assert_eq!(insts[0].matching_bracket, None);
}

#[test]
fn assembling_twice_is_deterministic() {
    let first = assemble(String::from("++[>+<-]...,")).unwrap();
    let second = assemble(String::from("++[>+<-]...,")).unwrap();
    assert_eq!(first, second);
}

#[test]
fn extra_close_bracket_is_rejected() {
    assert_eq!(
        assemble(String::from("+[-]]")).unwrap_err(),
        AssembleError::UnbalancedBrackets
    );
    assert_eq!(
        assemble(String::from("]")).unwrap_err(),
        AssembleError::UnbalancedBrackets
    );
}

#[test]
fn extra_open_bracket_is_rejected() {
    assert_eq!(
        assemble(String::from("+[-]["))
            .unwrap_err(),
        AssembleError::UnbalancedBrackets
    );
    assert_eq!(
        assemble(String::from("[")).unwrap_err(),
        AssembleError::UnbalancedBrackets
    );
}

#[test]
fn interleaved_brackets_are_rejected() {
    assert!(assemble(String::from("][")).is_err());
    assert!(assemble_tokens(vec![Tokens::EndLoop, Tokens::StartLoop]).is_err());
}

#[test]
fn balanced_program_assembles() {
    let insts = assemble_tokens(vec![
        Tokens::StartLoop,
        Tokens::Increment,
        Tokens::EndLoop,
    ])
    .unwrap();
    assert_eq!(insts.len(), 3);
    assert_eq!(
        insts[0],
        ASTEntry {
            token: Tokens::StartLoop,
            repeat: 1,
            matching_bracket: Some(2)
        }
    );
}
