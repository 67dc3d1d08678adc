//! Parsing and rendering of raw programs.

use bf::raw::{Instruction, Program, UnmatchedParentheses};

#[test]
fn empty() {
    let _: Program = "".parse().unwrap();
}

#[test]
fn parentheses() {
    let _: Program = "[]".parse().unwrap();
}

#[test]
fn unmatched_open_rejected() {
    let r: Result<Program, UnmatchedParentheses> = "[[]".parse();
    assert_eq!(r.unwrap_err(), UnmatchedParentheses);
}

#[test]
fn unmatched_close_rejected() {
    let r: Result<Program, UnmatchedParentheses> = "[]]".parse();
    assert_eq!(r.unwrap_err(), UnmatchedParentheses);
}

#[test]
fn close_before_open_rejected() {
    // the depth dips below zero even though the counts agree
    let r: Result<Program, UnmatchedParentheses> = "][".parse();
    assert!(r.is_err());
}

#[test]
fn comments_are_ignored() {
    let p: Program = "a+b[c-d]e.f".parse().unwrap();
    assert_eq!(p.as_text(), "+[-].");
    assert_eq!(p.as_bytes(), b"+[-].".to_vec());
    assert_eq!(p.len(), 5);
    assert_eq!(p.index(0), Instruction::Add);
    assert_eq!(p.index(1), Instruction::OpenLoop);
    assert_eq!(p.iter().len(), 5);
}

#[test]
fn from_bytes_matches_from_chars() {
    let a = Program::from_bytes(&b",[.,]".to_vec()).unwrap();
    let chars: Vec<char> = ",[.,]".chars().collect();
    let b = Program::from_chars(&chars).unwrap();
    assert_eq!(a.as_text(), b.as_text());
}

#[test]
fn from_instrs_checks_balance() {
    let ok = Program::from_instrs(vec![
        Instruction::OpenLoop,
        Instruction::Sub,
        Instruction::CloseLoop,
    ]);
    assert!(ok.is_ok());
    let bad = Program::from_instrs(vec![Instruction::CloseLoop, Instruction::OpenLoop]);
    assert!(bad.is_err());
}
