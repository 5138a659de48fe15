//! Scenario checks of the reference interpreter and the sample program.

use cheekyjit::interp::run_interpreted;
use cheekyjit::interp::sample_loop_program;
use cheekyjit::vm::Instruction;
use cheekyjit::vm::ParkMiller;
use cheekyjit::vm::Program;
use cheekyjit::vm::Value;
use cheekyjit::vm::VM;
use cheekyjit::vm::VMLocal;
use cheekyjit::vm::VMRegister;

const FUEL: u64 = u64::MAX;

#[test]
fn counted_loop_reaches_one_hundred() {
    let p = sample_loop_program(100);
    let mut vm = VM::new(8, 4);
    run_interpreted(&p, &mut vm, FUEL).unwrap();
    assert_eq!(vm.locals[0].0, 100);
    // The accumulator holds the loop-exit comparison result.
    assert_eq!(vm.registers[0].0, 1);
}

#[test]
fn counted_loop_hundred_million_iterations() {
    let p = sample_loop_program(100_000_000);
    let mut vm = VM::new(8, 4);
    run_interpreted(&p, &mut vm, FUEL).unwrap();
    assert_eq!(vm.locals[0].0, 100_000_000);
}

#[test]
fn counted_loop_zero_iterations() {
    let p = sample_loop_program(0);
    let mut vm = VM::new(8, 4);
    run_interpreted(&p, &mut vm, FUEL).unwrap();
    assert_eq!(vm.locals[0].0, 0);
}

#[test]
fn single_block_immediate() {
    let mut p = Program { blocks: Vec::new() };
    let b0 = p.make_block();
    b0.append(
        &mut p,
        Instruction::LoadImmediate { value: Value(0xDEAD_BEEF_CAFE_1234) },
    );
    b0.append(&mut p, Instruction::Exit);
    let mut vm = VM::new(8, 4);
    run_interpreted(&p, &mut vm, FUEL).unwrap();
    assert_eq!(vm.registers[0].0, 0xDEAD_BEEF_CAFE_1234);
}

#[test]
fn conditional_skip_takes_the_false_branch_on_zero() {
    // A loads 0 and jumps conditionally; B writes 1, C writes 2.
    let mut p = Program { blocks: Vec::new() };
    let a = p.make_block();
    let b = p.make_block();
    let c = p.make_block();
    a.append(&mut p, Instruction::LoadImmediate { value: Value(0) });
    a.append(
        &mut p,
        Instruction::JumpConditional { true_target: b, false_target: c },
    );
    b.append(&mut p, Instruction::LoadImmediate { value: Value(1) });
    b.append(&mut p, Instruction::SetLocal { local: VMLocal(0) });
    b.append(&mut p, Instruction::Exit);
    c.append(&mut p, Instruction::LoadImmediate { value: Value(2) });
    c.append(&mut p, Instruction::SetLocal { local: VMLocal(0) });
    c.append(&mut p, Instruction::Exit);
    let mut vm = VM::new(8, 4);
    run_interpreted(&p, &mut vm, FUEL).unwrap();
    assert_eq!(vm.locals[0].0, 2);
}

#[test]
fn conditional_takes_the_true_branch_on_nonzero() {
    let mut p = Program { blocks: Vec::new() };
    let a = p.make_block();
    let b = p.make_block();
    let c = p.make_block();
    a.append(&mut p, Instruction::LoadImmediate { value: Value(5) });
    a.append(
        &mut p,
        Instruction::JumpConditional { true_target: b, false_target: c },
    );
    b.append(&mut p, Instruction::LoadImmediate { value: Value(1) });
    b.append(&mut p, Instruction::SetLocal { local: VMLocal(0) });
    b.append(&mut p, Instruction::Exit);
    c.append(&mut p, Instruction::LoadImmediate { value: Value(2) });
    c.append(&mut p, Instruction::SetLocal { local: VMLocal(0) });
    c.append(&mut p, Instruction::Exit);
    let mut vm = VM::new(8, 4);
    run_interpreted(&p, &mut vm, FUEL).unwrap();
    assert_eq!(vm.locals[0].0, 1);
}

#[test]
fn increment_wraps_at_the_top_of_the_range() {
    let mut p = Program { blocks: Vec::new() };
    let b0 = p.make_block();
    b0.append(
        &mut p,
        Instruction::LoadImmediate { value: Value(u64::MAX) },
    );
    b0.append(&mut p, Instruction::Increment);
    b0.append(&mut p, Instruction::Exit);
    let mut vm = VM::new(8, 4);
    run_interpreted(&p, &mut vm, FUEL).unwrap();
    assert_eq!(vm.registers[0].0, 0);
}

#[test]
fn less_than_is_a_signed_comparison() {
    // acc = -1 (all ones), r1 = 0: acc < r1 signed, so the flag is 1.
    let mut p = Program { blocks: Vec::new() };
    let b0 = p.make_block();
    b0.append(&mut p, Instruction::LoadImmediate { value: Value(0) });
    b0.append(&mut p, Instruction::Store { reg: VMRegister(1) });
    b0.append(
        &mut p,
        Instruction::LoadImmediate { value: Value(u64::MAX) },
    );
    b0.append(&mut p, Instruction::LessThan { lhs: VMRegister(1) });
    b0.append(&mut p, Instruction::Exit);
    let mut vm = VM::new(8, 4);
    run_interpreted(&p, &mut vm, FUEL).unwrap();
    assert_eq!(vm.registers[0].0, 1);
}

#[test]
fn register_moves_and_locals_roundtrip() {
    let mut p = Program { blocks: Vec::new() };
    let b0 = p.make_block();
    b0.append(&mut p, Instruction::LoadImmediate { value: Value(41) });
    b0.append(&mut p, Instruction::Store { reg: VMRegister(3) });
    b0.append(&mut p, Instruction::LoadImmediate { value: Value(0) });
    b0.append(&mut p, Instruction::Load { reg: VMRegister(3) });
    b0.append(&mut p, Instruction::Increment);
    b0.append(&mut p, Instruction::SetLocal { local: VMLocal(2) });
    b0.append(&mut p, Instruction::LoadImmediate { value: Value(0) });
    b0.append(&mut p, Instruction::GetLocal { local: VMLocal(2) });
    b0.append(&mut p, Instruction::Exit);
    let mut vm = VM::new(8, 4);
    run_interpreted(&p, &mut vm, FUEL).unwrap();
    assert_eq!(vm.registers[3].0, 41);
    assert_eq!(vm.locals[2].0, 42);
    assert_eq!(vm.registers[0].0, 42);
}

#[test]
fn breakpoint_faults_the_interpreter() {
    let mut p = Program { blocks: Vec::new() };
    let b0 = p.make_block();
    b0.append(&mut p, Instruction::Breakpoint);
    let mut vm = VM::new(8, 4);
    assert!(run_interpreted(&p, &mut vm, FUEL).is_err());
}

#[test]
fn load_random_cannot_be_interpreted() {
    let mut p = Program { blocks: Vec::new() };
    let b0 = p.make_block();
    b0.append(&mut p, Instruction::LoadRandom { max: Value(10) });
    let mut vm = VM::new(8, 4);
    assert!(run_interpreted(&p, &mut vm, FUEL).is_err());
}

#[test]
fn out_of_range_register_faults() {
    let mut p = Program { blocks: Vec::new() };
    let b0 = p.make_block();
    b0.append(&mut p, Instruction::Load { reg: VMRegister(99) });
    let mut vm = VM::new(8, 4);
    assert!(run_interpreted(&p, &mut vm, FUEL).is_err());
}

#[test]
fn empty_program_faults() {
    let p = Program { blocks: Vec::new() };
    let mut vm = VM::new(8, 4);
    assert!(run_interpreted(&p, &mut vm, FUEL).is_err());
}

#[test]
fn running_off_the_end_of_a_block_halts() {
    let mut p = Program { blocks: Vec::new() };
    let b0 = p.make_block();
    b0.append(&mut p, Instruction::LoadImmediate { value: Value(9) });
    let mut vm = VM::new(8, 4);
    run_interpreted(&p, &mut vm, FUEL).unwrap();
    assert_eq!(vm.registers[0].0, 9);
}

#[test]
fn step_budget_exhaustion_is_an_error() {
    let mut p = Program { blocks: Vec::new() };
    let b0 = p.make_block();
    b0.append(&mut p, Instruction::Jump { target: b0 });
    let mut vm = VM::new(8, 4);
    assert!(run_interpreted(&p, &mut vm, 1000).is_err());
}

#[test]
fn vm_new_zeroes_both_arrays() {
    let vm = VM::new(3, 2);
    assert_eq!(vm.registers.len(), 3);
    assert_eq!(vm.locals.len(), 2);
    assert!(vm.registers.iter().all(|v| v.0 == 0));
    assert!(vm.locals.iter().all(|v| v.0 == 0));
    assert_eq!(vm.accum_reg().0, 0);
}

#[test]
fn park_miller_follows_the_recurrence() {
    let mut g = ParkMiller::new(123);
    let m: u64 = 2_147_483_647;
    let mut state: u64 = 123 % m;
    for _ in 0..5 {
        state = state * 16_807 % m;
        assert_eq!(g.rand(), state);
    }
    // The seed is reduced into the state space.
    let mut a = ParkMiller::new(5);
    let mut b = ParkMiller::new(5 + m);
    assert_eq!(a.rand(), b.rand());
}
