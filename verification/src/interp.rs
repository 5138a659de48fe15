//! The reference interpreter: executes a program's control-flow graph on
//! the host with the same semantics the generated code has, as an oracle
//! for testing the code generator.

use vstd::prelude::*;
use crate::vm::BlockTarget;
use crate::vm::Instruction;
use crate::vm::Program;
use crate::vm::Value;
use crate::vm::VM;
use crate::vm::VMLocal;
use crate::vm::VMRegister;

verus! {

/// The instructions of the sample's four blocks: entry, loop head, loop
/// body, exit.  The loop condition compares the count against `iters - 1`
/// (wrapping at zero), so counts above the signed 64-bit range are not
/// supported.
pub open spec fn sample_loop_blocks(iters: u64) -> Seq<Seq<Instruction>> {
    let limit: u64 = if iters == 0 {
        u64::MAX
    } else {
        (iters - 1) as u64
    };
    seq![
        seq![
            Instruction::LoadImmediate { value: Value(0) },
            Instruction::Store { reg: VMRegister(1) },
            Instruction::Jump { target: BlockTarget(1) },
        ],
        seq![
            Instruction::LoadImmediate { value: Value(limit) },
            Instruction::LessThan { lhs: VMRegister(1) },
            Instruction::JumpConditional {
                true_target: BlockTarget(3),
                false_target: BlockTarget(2),
            },
        ],
        seq![
            Instruction::GetLocal { local: VMLocal(0) },
            Instruction::Increment,
            Instruction::SetLocal { local: VMLocal(0) },
            Instruction::Store { reg: VMRegister(1) },
            Instruction::Jump { target: BlockTarget(1) },
        ],
        seq![Instruction::Exit],
    ]
}

/// The built-in sample: a counted loop that increments local 0 until it
/// reaches `iters`, mirroring the count in register 1.  On exit local 0
/// holds `iters` and the accumulator holds the loop-exit comparison
/// result, 1.
pub fn sample_loop_program(iters: u64) -> (p: Program)
    ensures
        p.wf(),
        p.fresh(),
        p.blocks@.len() == 4,
        forall|i: int|
            0 <= i < 4 ==> (#[trigger] p.blocks@[i]).instructions@ == sample_loop_blocks(iters)[i]
                && p.blocks@[i].offset == 0,
{
    let limit: u64 = if iters == 0 {
        u64::MAX
    } else {
        iters - 1
    };
    let mut p = Program { blocks: Vec::new() };
    let entry = p.make_block();
    let loop_head = p.make_block();
    let body = p.make_block();
    let end = p.make_block();
    entry.append(&mut p, Instruction::LoadImmediate { value: Value(0) });
    entry.append(&mut p, Instruction::Store { reg: VMRegister(1) });
    entry.append(&mut p, Instruction::Jump { target: loop_head });
    loop_head.append(&mut p, Instruction::LoadImmediate { value: Value(limit) });
    loop_head.append(&mut p, Instruction::LessThan { lhs: VMRegister(1) });
    loop_head.append(
        &mut p,
        Instruction::JumpConditional { true_target: end, false_target: body },
    );
    body.append(&mut p, Instruction::GetLocal { local: VMLocal(0) });
    body.append(&mut p, Instruction::Increment);
    body.append(&mut p, Instruction::SetLocal { local: VMLocal(0) });
    body.append(&mut p, Instruction::Store { reg: VMRegister(1) });
    body.append(&mut p, Instruction::Jump { target: loop_head });
    end.append(&mut p, Instruction::Exit);
    proof {
        assert(p.blocks@[0].instructions@ =~= sample_loop_blocks(iters)[0]);
        assert(p.blocks@[1].instructions@ =~= sample_loop_blocks(iters)[1]);
        assert(p.blocks@[2].instructions@ =~= sample_loop_blocks(iters)[2]);
        assert(p.blocks@[3].instructions@ =~= sample_loop_blocks(iters)[3]);
    }
    p
}

/// The interpreter's instantaneous state: the data arrays and the current
/// position in the program.
pub struct InterpState {
    pub regs: Seq<u64>,
    pub locals: Seq<u64>,
    pub block: int,
    pub inst: int,
}

/// What one step of execution does.
pub enum StepResult {
    /// Execution continues in the given state.
    Next(InterpState),
    /// Execution ended at an `Exit` or by running off the end of a block.
    Halted(InterpState),
    /// Execution cannot continue: an index is out of range, a breakpoint
    /// was hit, or the instruction needs the host (`LoadRandom`).
    Fault,
}

/// Where a bounded run ends up.
pub enum Execution {
    /// The step budget ran out with execution still going.
    Running(InterpState),
    /// Execution halted normally in the given state.
    Halted(InterpState),
    /// Execution faulted.
    Fault,
}

/// Sixty-four-bit increment, modulo two to the sixty-fourth.
pub open spec fn inc64(x: u64) -> u64 {
    if x == u64::MAX {
        0
    } else {
        (x + 1) as u64
    }
}

/// Signed sixty-four-bit less-than, the comparison the generated CSET
/// implements.
pub open spec fn signed_lt(a: u64, b: u64) -> bool {
    (a as i64) < (b as i64)
}

/// The registers or locals of a VM as plain words.
pub open spec fn vals(s: Seq<Value>) -> Seq<u64> {
    s.map_values(|v: Value| v.0)
}

/// One small step of the machine.  The accumulator is register 0; `Jump`
/// and `JumpConditional` move to the head of the target block; `Exit` and
/// the end of a block halt; an out-of-range register, local or block
/// faults, as do `Breakpoint` and `LoadRandom`, which the interpreter
/// cannot execute.
pub open spec fn step(p: Program, s: InterpState) -> StepResult {
    if !(0 <= s.block < p.blocks@.len()) {
        StepResult::Fault
    } else {
        let insts = p.blocks@[s.block].instructions@;
        if !(0 <= s.inst < insts.len()) {
            StepResult::Halted(s)
        } else {
            match insts[s.inst] {
                Instruction::LoadImmediate { value } => if s.regs.len() > 0 {
                    StepResult::Next(
                        InterpState { regs: s.regs.update(0, value.0), inst: s.inst + 1, ..s },
                    )
                } else {
                    StepResult::Fault
                },
                Instruction::Load { reg } => if reg.0 < s.regs.len() {
                    StepResult::Next(
                        InterpState {
                            regs: s.regs.update(0, s.regs[reg.0 as int]),
                            inst: s.inst + 1,
                            ..s
                        },
                    )
                } else {
                    StepResult::Fault
                },
                Instruction::Store { reg } => if reg.0 < s.regs.len() && s.regs.len() > 0 {
                    StepResult::Next(
                        InterpState {
                            regs: s.regs.update(reg.0 as int, s.regs[0]),
                            inst: s.inst + 1,
                            ..s
                        },
                    )
                } else {
                    StepResult::Fault
                },
                Instruction::SetLocal { local } => if local.0 < s.locals.len() && s.regs.len()
                    > 0 {
                    StepResult::Next(
                        InterpState {
                            locals: s.locals.update(local.0 as int, s.regs[0]),
                            inst: s.inst + 1,
                            ..s
                        },
                    )
                } else {
                    StepResult::Fault
                },
                Instruction::GetLocal { local } => if local.0 < s.locals.len() && s.regs.len()
                    > 0 {
                    StepResult::Next(
                        InterpState {
                            regs: s.regs.update(0, s.locals[local.0 as int]),
                            inst: s.inst + 1,
                            ..s
                        },
                    )
                } else {
                    StepResult::Fault
                },
                Instruction::Increment => if s.regs.len() > 0 {
                    StepResult::Next(
                        InterpState {
                            regs: s.regs.update(0, inc64(s.regs[0])),
                            inst: s.inst + 1,
                            ..s
                        },
                    )
                } else {
                    StepResult::Fault
                },
                Instruction::LessThan { lhs } => if lhs.0 < s.regs.len() {
                    let flag: u64 = if signed_lt(s.regs[0], s.regs[lhs.0 as int]) {
                        1
                    } else {
                        0
                    };
                    StepResult::Next(
                        InterpState { regs: s.regs.update(0, flag), inst: s.inst + 1, ..s },
                    )
                } else {
                    StepResult::Fault
                },
                Instruction::Breakpoint => StepResult::Fault,
                Instruction::Exit => StepResult::Halted(s),
                Instruction::Jump { target } => if target.0 < p.blocks@.len() {
                    StepResult::Next(InterpState { block: target.0 as int, inst: 0, ..s })
                } else {
                    StepResult::Fault
                },
                Instruction::JumpConditional { true_target, false_target } => if s.regs.len()
                    > 0 {
                    let tgt = if s.regs[0] != 0 {
                        true_target
                    } else {
                        false_target
                    };
                    if tgt.0 < p.blocks@.len() {
                        StepResult::Next(InterpState { block: tgt.0 as int, inst: 0, ..s })
                    } else {
                        StepResult::Fault
                    }
                } else {
                    StepResult::Fault
                },
                Instruction::LoadRandom { max } => StepResult::Fault,
            }
        }
    }
}

/// Run at most `fuel` steps from `s`.
pub open spec fn run_steps(p: Program, s: InterpState, fuel: nat) -> Execution
    decreases fuel,
{
    if fuel == 0 {
        Execution::Running(s)
    } else {
        match step(p, s) {
            StepResult::Next(s2) => run_steps(p, s2, (fuel - 1) as nat),
            StepResult::Halted(s2) => Execution::Halted(s2),
            StepResult::Fault => Execution::Fault,
        }
    }
}

/// Extending a still-running execution by one step applies one more step
/// at its end.
pub proof fn lemma_run_steps_snoc(p: Program, s: InterpState, fuel: nat)
    requires
        run_steps(p, s, fuel) matches Execution::Running(c),
    ensures
        run_steps(p, s, fuel + 1) == match step(
            p,
            (match run_steps(p, s, fuel) {
                Execution::Running(c) => c,
                _ => s,
            }),
        ) {
            StepResult::Next(c2) => Execution::Running(c2),
            StepResult::Halted(h) => Execution::Halted(h),
            StepResult::Fault => Execution::Fault,
        },
    decreases fuel,
{
    reveal_with_fuel(run_steps, 3);
    if fuel > 0 {
        match step(p, s) {
            StepResult::Next(s2) => {
                lemma_run_steps_snoc(p, s2, (fuel - 1) as nat);
            },
            _ => {},
        }
    }
}

/// A halted or faulted execution stays what it is under more fuel: the
/// outcome of a terminating run is unique.
pub proof fn lemma_run_steps_extend(p: Program, s: InterpState, fuel: nat, more: nat)
    requires
        fuel <= more,
        !(run_steps(p, s, fuel) matches Execution::Running(c)),
    ensures
        run_steps(p, s, more) == run_steps(p, s, fuel),
    decreases fuel,
{
    if fuel == 0 {
    } else {
        match step(p, s) {
            StepResult::Next(s2) => {
                lemma_run_steps_extend(p, s2, (fuel - 1) as nat, (more - 1) as nat);
            },
            _ => {},
        }
    }
}

/// Execution halted with exactly these registers and locals.
pub open spec fn halts_with(p: Program, s0: InterpState, regs: Seq<u64>, locals: Seq<u64>) -> bool {
    exists|n: nat|
        #[trigger] run_steps(p, s0, n) matches Execution::Halted(h) && h.regs == regs && h.locals
            == locals
}

/// The machine is deterministic: a program that halts from a state halts
/// with exactly one pair of final arrays.
pub proof fn lemma_halts_with_unique(
    p: Program,
    s0: InterpState,
    r1: Seq<u64>,
    l1: Seq<u64>,
    r2: Seq<u64>,
    l2: Seq<u64>,
)
    requires
        halts_with(p, s0, r1, l1),
        halts_with(p, s0, r2, l2),
    ensures
        r1 == r2,
        l1 == l2,
{
    let n1 = choose|n: nat|
        #[trigger] run_steps(p, s0, n) matches Execution::Halted(h) && h.regs == r1 && h.locals
            == l1;
    let n2 = choose|n: nat|
        #[trigger] run_steps(p, s0, n) matches Execution::Halted(h) && h.regs == r2 && h.locals
            == l2;
    if n1 <= n2 {
        lemma_run_steps_extend(p, s0, n1, n2);
    } else {
        lemma_run_steps_extend(p, s0, n2, n1);
    }
}

/// Updating one slot commutes with reading the arrays as plain words.
proof fn lemma_vals_update(s: Seq<Value>, i: int, v: Value)
    requires
        0 <= i < s.len(),
    ensures
        vals(s.update(i, v)) == vals(s).update(i, v.0),
{
    assert(vals(s.update(i, v)) =~= vals(s).update(i, v.0));
}

/// The interpreter's starting state for a VM: block 0, instruction 0.
pub open spec fn init_state(vm: VM) -> InterpState {
    InterpState { regs: vals(vm.registers@), locals: vals(vm.locals@), block: 0, inst: 0 }
}

/// Execute the program on the VM, for at most `max_steps` instructions.
/// `Ok` means execution halted normally and the VM now holds the halted
/// state's registers and locals; `Err` means it faulted, or that the step
/// budget ran out first.
pub fn run_interpreted(program: &Program, vm: &mut VM, max_steps: u64) -> (r: Result<(), ()>)
    requires
        old(vm).registers@.len() > 0,
    ensures
        final(vm).registers@.len() == old(vm).registers@.len(),
        final(vm).locals@.len() == old(vm).locals@.len(),
        r is Ok ==> halts_with(
            *program,
            init_state(*old(vm)),
            vals(final(vm).registers@),
            vals(final(vm).locals@),
        ),
        r is Err ==> (exists|n: nat| run_steps(*program, init_state(*old(vm)), n) is Fault)
            || run_steps(*program, init_state(*old(vm)), max_steps as nat) is Running,
{
    let ghost init = init_state(*old(vm));
    let mut cur_block: usize = 0;
    let mut idx: usize = 0;
    let ghost mut steps: nat = 0;
    if program.blocks.len() == 0 {
        proof {
            assert(run_steps(*program, init, 1) is Fault);
        }
        return Err(());
    }
    let mut remaining: u64 = max_steps;
    loop
        invariant
            program.blocks@.len() > 0,
            cur_block < program.blocks@.len(),
            vm.registers@.len() == old(vm).registers@.len(),
            vm.registers@.len() > 0,
            vm.locals@.len() == old(vm).locals@.len(),
            init == init_state(*old(vm)),
            steps + remaining == max_steps,
            run_steps(*program, init, steps) == Execution::Running(
                InterpState {
                    regs: vals(vm.registers@),
                    locals: vals(vm.locals@),
                    block: cur_block as int,
                    inst: idx as int,
                },
            ),
        decreases remaining,
    {
        let ghost cur = InterpState {
            regs: vals(vm.registers@),
            locals: vals(vm.locals@),
            block: cur_block as int,
            inst: idx as int,
        };
        let n_insts = program.blocks[cur_block].instructions.len();
        if idx >= n_insts {
            // Running off the end of a block ends execution normally.
            proof {
                lemma_run_steps_snoc(*program, init, steps);
                assert(run_steps(*program, init, steps + 1) == Execution::Halted(cur));
            }
            return Ok(());
        }
        if remaining == 0 {
            return Err(());
        }
        remaining = remaining - 1;
        let inst = program.blocks[cur_block].instructions[idx];
        let ghost regs0 = vm.registers@;
        let ghost locals0 = vm.locals@;
        proof {
            lemma_run_steps_snoc(*program, init, steps);
        }
        match inst {
            Instruction::LoadImmediate { value } => {
                vm.registers.set(0, value);
                proof {
                    lemma_vals_update(regs0, 0, value);
                }
                idx = idx + 1;
            },
            Instruction::Load { reg } => {
                if reg.0 >= vm.registers.len() {
                    return Err(());
                }
                let v = vm.registers[reg.0];
                vm.registers.set(0, v);
                proof {
                    lemma_vals_update(regs0, 0, v);
                }
                idx = idx + 1;
            },
            Instruction::Store { reg } => {
                if reg.0 >= vm.registers.len() {
                    return Err(());
                }
                let v = vm.registers[0];
                vm.registers.set(reg.0, v);
                proof {
                    lemma_vals_update(regs0, reg.0 as int, v);
                }
                idx = idx + 1;
            },
            Instruction::SetLocal { local } => {
                if local.0 >= vm.locals.len() {
                    return Err(());
                }
                let v = vm.registers[0];
                vm.locals.set(local.0, v);
                proof {
                    lemma_vals_update(locals0, local.0 as int, v);
                }
                idx = idx + 1;
            },
            Instruction::GetLocal { local } => {
                if local.0 >= vm.locals.len() {
                    return Err(());
                }
                let v = vm.locals[local.0];
                vm.registers.set(0, v);
                proof {
                    lemma_vals_update(regs0, 0, v);
                }
                idx = idx + 1;
            },
            Instruction::Increment => {
                let a = vm.registers[0].0;
                let b: u64 = if a == u64::MAX {
                    0
                } else {
                    a + 1
                };
                vm.registers.set(0, Value(b));
                proof {
                    lemma_vals_update(regs0, 0, Value(b));
                }
                idx = idx + 1;
            },
            Instruction::LessThan { lhs } => {
                if lhs.0 >= vm.registers.len() {
                    return Err(());
                }
                let x = vm.registers[lhs.0].0;
                let acc = vm.registers[0].0;
                let flag: u64 = if (acc as i64) < (x as i64) {
                    1
                } else {
                    0
                };
                vm.registers.set(0, Value(flag));
                proof {
                    lemma_vals_update(regs0, 0, Value(flag));
                }
                idx = idx + 1;
            },
            Instruction::Breakpoint => {
                return Err(());
            },
            Instruction::Exit => {
                proof {
                    assert(run_steps(*program, init, steps + 1) == Execution::Halted(cur));
                }
                return Ok(());
            },
            Instruction::Jump { target } => {
                if target.0 >= program.blocks.len() {
                    return Err(());
                }
                cur_block = target.0;
                idx = 0;
            },
            Instruction::JumpConditional { true_target, false_target } => {
                let acc = vm.registers[0].0;
                let tgt = if acc != 0 {
                    true_target
                } else {
                    false_target
                };
                if tgt.0 >= program.blocks.len() {
                    return Err(());
                }
                cur_block = tgt.0;
                idx = 0;
            },
            Instruction::LoadRandom { max } => {
                return Err(());
            },
        }
        proof {
            steps = steps + 1;
            assert(run_steps(*program, init, steps) == Execution::Running(
                InterpState {
                    regs: vals(vm.registers@),
                    locals: vals(vm.locals@),
                    block: cur_block as int,
                    inst: idx as int,
                },
            ));
        }
    }
}

} // verus!
