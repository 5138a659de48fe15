//! Checks of the textual front end.

use cheekyjit::interp::run_interpreted;
use cheekyjit::parser::extract_prefix;
use cheekyjit::parser::ParseErrorKind;
use cheekyjit::parser::Parser;
use cheekyjit::parser::VMLocalTarget;
use cheekyjit::parser::VMRegisterTarget;
use cheekyjit::vm::Instruction;
use cheekyjit::vm::VM;

const LOOPER: &str = r#"
ENTRY:
  LOAD_IMM 0
  STORE_REG r1
  JUMP #LOOP
LOOP:
  LOAD_IMM 99
  LESS_THAN r1
  JUMP_EITHER #END #BODY
BODY:
  GET_LOCAL .0
  INCR
  SET_LOCAL .0
  STORE_REG r1
  JUMP #LOOP
END:
  RET
"#;

#[test]
fn parses_and_runs_the_loop_source() {
    let p = Parser::new(LOOPER).parse().unwrap();
    assert_eq!(p.blocks.len(), 4);
    let mut vm = VM::new(8, 4);
    run_interpreted(&p, &mut vm, u64::MAX).unwrap();
    assert_eq!(vm.locals[0].0, 100);
    assert_eq!(vm.registers[0].0, 1);
}

#[test]
fn parsed_programs_compile() {
    let mut p = Parser::new(LOOPER).parse().unwrap();
    let jit = cheekyjit::jit::Jit::compile(&mut p, 0).unwrap();
    assert!(jit.code().len() > 0);
    assert_eq!(jit.code().len() % 4, 0);
    assert_eq!(jit.block_offsets().len(), 4);
}

#[test]
fn comments_and_blank_lines_are_ignored() {
    let src = "// a leading comment\n\nA:\n  LOAD_IMM 7 // trailing comment\n\n  RET\n";
    let p = Parser::new(src).parse().unwrap();
    assert_eq!(p.blocks.len(), 1);
    assert_eq!(p.blocks[0].instructions.len(), 2);
    assert!(matches!(
        p.blocks[0].instructions[0],
        Instruction::LoadImmediate { value } if value.0 == 7
    ));
    assert!(matches!(p.blocks[0].instructions[1], Instruction::Exit));
}

#[test]
fn comments_and_blank_lines_do_not_change_the_program() {
    let with = "A:\n  // just a note\n  LOAD_IMM 7 // trailing\n\n  RET\n";
    let without = "A:\n  LOAD_IMM 7\n  RET\n";
    let mut p1 = Parser::new(with).parse().unwrap();
    let mut p2 = Parser::new(without).parse().unwrap();
    let j1 = cheekyjit::jit::Jit::compile(&mut p1, 0).unwrap();
    let j2 = cheekyjit::jit::Jit::compile(&mut p2, 0).unwrap();
    assert_eq!(j1.code().clone(), j2.code().clone());
}

#[test]
fn instruction_before_any_label_is_rejected() {
    let err = Parser::new("  LOAD_IMM 7\n").parse().unwrap_err();
    assert_eq!(err.line, 1);
    assert_eq!(err.kind, ParseErrorKind::ExpectedBlockLabel);
}

#[test]
fn unknown_opcode_is_rejected_with_its_line() {
    let err = Parser::new("A:\n  FROB r1\n").parse().unwrap_err();
    assert_eq!(err.line, 2);
    assert_eq!(err.kind, ParseErrorKind::UnknownInstruction);
}

#[test]
fn bad_operands_are_rejected() {
    let err = Parser::new("A:\n  LOAD_IMM abc\n").parse().unwrap_err();
    assert_eq!(err.line, 2);
    assert_eq!(err.kind, ParseErrorKind::BadOperand);
    let err = Parser::new("A:\n  LOAD_REG x1\n").parse().unwrap_err();
    assert_eq!(err.kind, ParseErrorKind::BadOperand);
    let err = Parser::new("A:\n  SET_LOCAL r1\n").parse().unwrap_err();
    assert_eq!(err.kind, ParseErrorKind::BadOperand);
    // An immediate just past the 64-bit range does not parse.
    let err = Parser::new("A:\n  LOAD_IMM 18446744073709551616\n")
        .parse()
        .unwrap_err();
    assert_eq!(err.kind, ParseErrorKind::BadOperand);
    // The largest immediate does.
    let p = Parser::new("A:\n  LOAD_IMM 18446744073709551615\n")
        .parse()
        .unwrap();
    assert!(matches!(
        p.blocks[0].instructions[0],
        Instruction::LoadImmediate { value } if value.0 == u64::MAX
    ));
}

#[test]
fn undeclared_label_is_rejected() {
    let err = Parser::new("A:\n  JUMP #NOWHERE\n").parse().unwrap_err();
    assert_eq!(err.kind, ParseErrorKind::UndeclaredLabel);
}

#[test]
fn duplicate_label_is_rejected() {
    let err = Parser::new("A:\n  RET\nA:\n  RET\n").parse().unwrap_err();
    assert_eq!(err.kind, ParseErrorKind::DuplicateLabel);
}

#[test]
fn forward_references_resolve_to_the_same_block() {
    let src = "A:\n  JUMP #B\nB:\n  RET\n";
    let p = Parser::new(src).parse().unwrap();
    assert_eq!(p.blocks.len(), 2);
    match p.blocks[0].instructions[0] {
        Instruction::Jump { target } => assert_eq!(target.0, 1),
        _ => panic!("expected a jump"),
    }
}

#[test]
fn extract_prefix_parses_prefixed_indices() {
    assert_eq!(extract_prefix(b"r1", b'r'), Ok(1));
    assert_eq!(extract_prefix(b"  r42  ", b'r'), Ok(42));
    assert_eq!(extract_prefix(b"r 7", b'r'), Ok(7));
    assert_eq!(extract_prefix(b".3", b'.'), Ok(3));
    assert_eq!(extract_prefix(b"x1", b'r'), Err(()));
    assert_eq!(extract_prefix(b"r", b'r'), Err(()));
    assert_eq!(extract_prefix(b"", b'r'), Err(()));
}

#[test]
fn register_and_local_targets_parse() {
    let r = VMRegisterTarget::from_bytes(b"r5").unwrap();
    assert_eq!(r.0 .0, 5);
    let l = VMLocalTarget::from_bytes(b".2").unwrap();
    assert_eq!(l.0 .0, 2);
    assert!(VMRegisterTarget::from_bytes(b".5").is_err());
    assert!(VMLocalTarget::from_bytes(b"r2").is_err());
}
