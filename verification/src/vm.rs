//! The virtual machine's data model: values, register and local indices, the
//! instruction set, basic blocks, programs, and the VM state itself.

use vstd::prelude::*;

verus! {

/// An opaque 64-bit word; the VM's sole data type.
#[derive(Clone, Copy, Debug, PartialEq, Eq, Structural)]
pub struct Value(pub u64);

/// An index into the VM's register array.  Register 0 is the implicit
/// accumulator.
#[derive(Clone, Copy, Debug, PartialEq, Eq, Structural)]
pub struct VMRegister(pub usize);

/// An index into the VM's local-variables array.
#[derive(Clone, Copy, Debug, PartialEq, Eq, Structural)]
pub struct VMLocal(pub usize);

/// A reference to a basic block: the block's index in `Program::blocks`.
/// Block identity is by position, so an index is a stable identifier that the
/// linker can resolve to the block's final offset after lowering.
#[derive(Clone, Copy, Debug, PartialEq, Eq, Structural)]
pub struct BlockTarget(pub usize);

/// One VM instruction.  The accumulator (register 0) is the implicit source
/// or destination of the unary operations.
#[derive(Clone, Copy, Debug)]
pub enum Instruction {
    LoadImmediate { value: Value },
    Load { reg: VMRegister },
    Store { reg: VMRegister },
    SetLocal { local: VMLocal },
    GetLocal { local: VMLocal },
    Increment,
    LessThan { lhs: VMRegister },
    Breakpoint,
    Exit,
    Jump { target: BlockTarget },
    JumpConditional { true_target: BlockTarget, false_target: BlockTarget },
    LoadRandom { max: Value },
}

impl Instruction {
    /// Every block reference inside the instruction points at one of the
    /// program's `n_blocks` blocks.
    pub open spec fn targets_ok(self, n_blocks: nat) -> bool {
        match self {
            Instruction::Jump { target } => target.0 < n_blocks,
            Instruction::JumpConditional { true_target, false_target } => true_target.0
                < n_blocks && false_target.0 < n_blocks,
            _ => true,
        }
    }
}

/// An ordered sequence of instructions, plus the two fields the lowering pass
/// fills in: the block's byte offset in the code buffer, and the byte offsets
/// of the branch instructions that target this block and still need linking.
#[derive(Debug)]
pub struct BasicBlock {
    pub instructions: Vec<Instruction>,
    pub jumps_to_here: Vec<usize>,
    pub offset: usize,
}

/// An ordered list of basic blocks; block 0 is the entry block.
#[derive(Debug)]
pub struct Program {
    pub blocks: Vec<BasicBlock>,
}

impl Program {
    /// Every block reference in every instruction is in range.
    pub open spec fn wf(self) -> bool {
        forall|i: int, j: int|
            0 <= i < self.blocks@.len() && 0 <= j < self.blocks@[i].instructions@.len()
                ==> (#[trigger] self.blocks@[i].instructions@[j]).targets_ok(self.blocks@.len())
    }

    /// No branch sites have been recorded yet: the program has not been
    /// through the lowering pass.
    pub open spec fn fresh(self) -> bool {
        forall|i: int|
            0 <= i < self.blocks@.len() ==> (#[trigger] self.blocks@[i]).jumps_to_here@.len() == 0
    }

    /// Append a new, empty basic block and return a reference to it.
    pub fn make_block(&mut self) -> (t: BlockTarget)
        ensures
            t.0 == old(self).blocks@.len(),
            final(self).blocks@.len() == old(self).blocks@.len() + 1,
            forall|i: int|
                0 <= i < old(self).blocks@.len() ==> final(self).blocks@[i] == old(
                    self,
                ).blocks@[i],
            final(self).blocks@.last().instructions@.len() == 0,
            final(self).blocks@.last().jumps_to_here@.len() == 0,
            final(self).blocks@.last().offset == 0,
    {
        let t = BlockTarget(self.blocks.len());
        let block = BasicBlock { instructions: Vec::new(), jumps_to_here: Vec::new(), offset: 0 };
        self.blocks.push(block);
        t
    }
}

impl BlockTarget {
    /// Wrap a block index in a target handle.
    pub fn new(index: usize) -> (t: BlockTarget)
        ensures
            t.0 == index,
    {
        BlockTarget(index)
    }

    /// Append an instruction to the referenced block.
    pub fn append(&self, program: &mut Program, instruction: Instruction)
        requires
            self.0 < old(program).blocks@.len(),
        ensures
            final(program).blocks@.len() == old(program).blocks@.len(),
            forall|i: int|
                0 <= i < old(program).blocks@.len() && i != self.0 ==> final(program).blocks@[i]
                    == old(program).blocks@[i],
            final(program).blocks@[self.0 as int].instructions@ == old(
                program,
            ).blocks@[self.0 as int].instructions@.push(instruction),
            final(program).blocks@[self.0 as int].jumps_to_here@ == old(
                program,
            ).blocks@[self.0 as int].jumps_to_here@,
            final(program).blocks@[self.0 as int].offset == old(
                program,
            ).blocks@[self.0 as int].offset,
    {
        let block = &mut program.blocks[self.0];
        block.instructions.push(instruction);
    }

    /// Record the byte offset of an emitted branch instruction that targets
    /// the referenced block.  `post_jmp_position` is the buffer length right
    /// after the 4-byte branch word was emitted, so the site itself starts 4
    /// bytes earlier.
    pub fn insert_jump_marker(&self, program: &mut Program, post_jmp_position: usize)
        requires
            self.0 < old(program).blocks@.len(),
            post_jmp_position >= 4,
        ensures
            final(program).blocks@.len() == old(program).blocks@.len(),
            forall|i: int|
                0 <= i < old(program).blocks@.len() && i != self.0 ==> final(program).blocks@[i]
                    == old(program).blocks@[i],
            final(program).blocks@[self.0 as int].jumps_to_here@ == old(
                program,
            ).blocks@[self.0 as int].jumps_to_here@.push((post_jmp_position - 4) as usize),
            final(program).blocks@[self.0 as int].instructions@ == old(
                program,
            ).blocks@[self.0 as int].instructions@,
            final(program).blocks@[self.0 as int].offset == old(
                program,
            ).blocks@[self.0 as int].offset,
    {
        let block = &mut program.blocks[self.0];
        block.jumps_to_here.push(post_jmp_position - 4);
    }

    /// Read one instruction of the referenced block.
    pub fn instruction(&self, program: &Program, index: usize) -> (r: Instruction)
        requires
            self.0 < program.blocks@.len(),
            index < program.blocks@[self.0 as int].instructions@.len(),
        ensures
            r == program.blocks@[self.0 as int].instructions@[index as int],
    {
        program.blocks[self.0].instructions[index]
    }

    /// The number of instructions in the referenced block.
    pub fn len(&self, program: &Program) -> (n: usize)
        requires
            self.0 < program.blocks@.len(),
        ensures
            n == program.blocks@[self.0 as int].instructions@.len(),
    {
        program.blocks[self.0].instructions.len()
    }
}

/// The VM's mutable state: one array of general registers and one of local
/// variables, both of `Value`.
pub struct VM {
    pub registers: Vec<Value>,
    pub locals: Vec<Value>,
}

impl VM {
    /// A fresh VM with the given array sizes, all slots zero.  At least one
    /// register must exist: register 0 is the implicit accumulator.
    pub fn new(register_count: usize, local_count: usize) -> (vm: VM)
        requires
            register_count > 0,
        ensures
            vm.registers@.len() == register_count,
            vm.locals@.len() == local_count,
            forall|i: int| 0 <= i < register_count ==> (#[trigger] vm.registers@[i]).0 == 0,
            forall|i: int| 0 <= i < local_count ==> (#[trigger] vm.locals@[i]).0 == 0,
    {
        VM { registers: zero_values(register_count), locals: zero_values(local_count) }
    }

    /// The accumulator: register 0.
    pub fn accum_reg(&self) -> (v: &Value)
        requires
            self.registers@.len() > 0,
        ensures
            v == self.registers@[0],
    {
        &self.registers[0]
    }

    /// Mutable access to the accumulator.
    pub fn accum_reg_mut(&mut self) -> (v: &mut Value)
        requires
            old(self).registers@.len() > 0,
        ensures
            *v == old(self).registers@[0],
            final(self).registers@ == old(self).registers@.update(0, *final(v)),
            final(self).locals@ == old(self).locals@,
    {
        &mut self.registers[0]
    }
}

/// A vector of `count` zero values.
fn zero_values(count: usize) -> (v: Vec<Value>)
    ensures
        v@.len() == count,
        forall|i: int| 0 <= i < count ==> (#[trigger] v@[i]).0 == 0,
{
    let mut v: Vec<Value> = Vec::new();
    while v.len() < count
        invariant
            v@.len() <= count,
            forall|i: int| 0 <= i < v@.len() ==> (#[trigger] v@[i]).0 == 0,
        decreases count - v@.len(),
    {
        v.push(Value(0));
    }
    v
}

/// The multiplicative congruential pseudo-random generator that the host
/// exposes to generated code; only the pure state transition lives here.
pub struct ParkMiller {
    state: u64,
}

/// The Mersenne prime modulus of the Park-Miller generator.
pub const PM_MODULUS: u64 = 2_147_483_647;

/// The Park-Miller multiplier.
pub const PM_MULTIPLIER: u64 = 16_807;

impl ParkMiller {
    /// The generator's current state.
    pub closed spec fn state(self) -> u64 {
        self.state
    }

    #[verifier::type_invariant]
    spec fn inv(self) -> bool {
        self.state < PM_MODULUS
    }

    /// A generator seeded with `seed`, reduced into the state space.
    pub fn new(seed: u64) -> (r: ParkMiller)
        ensures
            r.state() == seed % PM_MODULUS,
    {
        ParkMiller { state: seed % PM_MODULUS }
    }

    /// Advance the state one step and return it.
    pub fn rand(&mut self) -> (r: u64)
        ensures
            final(self).state() == (old(self).state() * PM_MULTIPLIER) % (PM_MODULUS as int),
            r == final(self).state(),
            r < PM_MODULUS,
    {
        proof {
            use_type_invariant(&*self);
        }
        assert(self.state * PM_MULTIPLIER <= (PM_MODULUS - 1) * PM_MULTIPLIER)
            by (nonlinear_arith)
            requires
                self.state < PM_MODULUS,
        ;
        self.state = (self.state * PM_MULTIPLIER) % PM_MODULUS;
        self.state
    }
}

} // verus!
