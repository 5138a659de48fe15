//! Checks of the lowering pass and the branch linker on whole programs.

use cheekyjit::errors::JitError;
use cheekyjit::jit::Jit;
use cheekyjit::vm::Instruction;
use cheekyjit::vm::Program;
use cheekyjit::vm::Value;
use cheekyjit::vm::VMLocal;
use cheekyjit::vm::VMRegister;

fn word_at(code: &[u8], off: usize) -> u32 {
    u32::from_le_bytes([code[off], code[off + 1], code[off + 2], code[off + 3]])
}

#[test]
fn dummy_is_three_nops_and_a_ret() {
    let jit = Jit::dummy();
    let code = jit.code();
    assert_eq!(code.len(), 16);
    assert_eq!(word_at(code, 0), 0xD503201F);
    assert_eq!(word_at(code, 4), 0xD503201F);
    assert_eq!(word_at(code, 8), 0xD503201F);
    assert_eq!(word_at(code, 12), 0xD65F03C0);
}

#[test]
fn forward_branch_links_to_plus_one_word() {
    // Block 0 is a single B to block 1, which starts 4 bytes later.
    let mut p = Program { blocks: Vec::new() };
    let b0 = p.make_block();
    let b1 = p.make_block();
    b0.append(&mut p, Instruction::Jump { target: b1 });
    b1.append(&mut p, Instruction::Exit);
    let jit = Jit::compile(&mut p, 0).unwrap();
    assert_eq!(jit.code().len(), 8);
    assert_eq!(word_at(jit.code(), 0), 0x14000000 | 1);
    assert_eq!(word_at(jit.code(), 4), 0xD65F03C0);
    assert_eq!(jit.block_offsets().clone(), vec![0, 4]);
}

#[test]
fn self_loop_links_to_delta_zero() {
    let mut p = Program { blocks: Vec::new() };
    let b0 = p.make_block();
    b0.append(&mut p, Instruction::Jump { target: b0 });
    let jit = Jit::compile(&mut p, 0).unwrap();
    assert_eq!(word_at(jit.code(), 0), 0x14000000);
}

#[test]
fn backward_branch_links_to_minus_one_word() {
    // One breakpoint word, then a B back to the block's own start.
    let mut p = Program { blocks: Vec::new() };
    let b0 = p.make_block();
    let b1 = p.make_block();
    b0.append(&mut p, Instruction::Breakpoint);
    b1.append(&mut p, Instruction::Jump { target: b1 });
    let jit = Jit::compile(&mut p, 0).unwrap();
    assert_eq!(word_at(jit.code(), 4), 0x14000000);
    // And a branch from offset 4 back to offset 0 is all-ones in imm26.
    let mut p = Program { blocks: Vec::new() };
    let b0 = p.make_block();
    let b1 = p.make_block();
    b0.append(&mut p, Instruction::Breakpoint);
    b1.append(&mut p, Instruction::Jump { target: b0 });
    let jit = Jit::compile(&mut p, 0).unwrap();
    assert_eq!(word_at(jit.code(), 4), 0x14000000 | 0x3FFFFFF);
}

#[test]
fn backward_branch_minus_five_words_encodes_as_3fffffb() {
    // Five words of block 0, then a back-edge whose delta is -5 words.
    let mut p = Program { blocks: Vec::new() };
    let b0 = p.make_block();
    let b1 = p.make_block();
    for _ in 0..5 {
        b0.append(&mut p, Instruction::Breakpoint);
    }
    b1.append(&mut p, Instruction::Jump { target: b0 });
    let jit = Jit::compile(&mut p, 0).unwrap();
    let w = word_at(jit.code(), 20);
    assert_eq!(w >> 26, 0b000101);
    assert_eq!(w & 0x3FFFFFF, 0x3FFFFFB);
}

#[test]
fn conditional_jump_links_both_branches() {
    // Block 0: load acc, CMP #0, B.EQ -> block 2, B -> block 1.
    let mut p = Program { blocks: Vec::new() };
    let b0 = p.make_block();
    let b1 = p.make_block();
    let b2 = p.make_block();
    b0.append(
        &mut p,
        Instruction::JumpConditional { true_target: b1, false_target: b2 },
    );
    b1.append(&mut p, Instruction::Exit);
    b2.append(&mut p, Instruction::Exit);
    let jit = Jit::compile(&mut p, 0).unwrap();
    // Layout: ldr, cmp, b.eq (site 8), b (site 12), block1 ret at 16,
    // block2 ret at 20.
    assert_eq!(jit.code().len(), 24);
    assert_eq!(word_at(jit.code(), 0), 0xF9400000 | (1 << 5) | 4);
    assert_eq!(word_at(jit.code(), 4), 0xF100001F | (4 << 5));
    // B.EQ at 8 targets offset 20: delta +3 words.
    assert_eq!(word_at(jit.code(), 8), 0x54000000 | (3 << 5));
    // B at 12 targets offset 16: delta +1 word.
    assert_eq!(word_at(jit.code(), 12), 0x14000000 | 1);
    // The linker recorded both sites on their target blocks.
    assert_eq!(p.blocks[1].jumps_to_here, vec![12]);
    assert_eq!(p.blocks[2].jumps_to_here, vec![8]);
    assert_eq!(p.blocks[0].offset, 0);
    assert_eq!(p.blocks[1].offset, 16);
    assert_eq!(p.blocks[2].offset, 20);
}

#[test]
fn code_length_is_a_multiple_of_four() {
    let mut p = cheekyjit::interp::sample_loop_program(10);
    let jit = Jit::compile(&mut p, 0).unwrap();
    assert_eq!(jit.code().len() % 4, 0);
}

#[test]
fn linking_twice_gives_the_same_bytes() {
    let mut p = cheekyjit::interp::sample_loop_program(10);
    let mut jit = Jit::compile(&mut p, 0).unwrap();
    let first = jit.code().clone();
    // Run the whole link pass a second time from the recorded state.
    for t in 0..p.blocks.len() {
        let toff = p.blocks[t].offset;
        let sites = p.blocks[t].jumps_to_here.clone();
        for site in sites {
            jit.link_and_rewrite(toff, site).unwrap();
        }
    }
    assert_eq!(jit.code().clone(), first);
}

#[test]
fn oversized_register_index_is_an_encoding_overflow() {
    let mut p = Program { blocks: Vec::new() };
    let b0 = p.make_block();
    b0.append(&mut p, Instruction::Load { reg: VMRegister(4096) });
    assert!(matches!(
        Jit::compile(&mut p, 0),
        Err(JitError::EncodingOverflow)
    ));
    let mut p = Program { blocks: Vec::new() };
    let b0 = p.make_block();
    b0.append(&mut p, Instruction::SetLocal { local: VMLocal(70000) });
    assert!(matches!(
        Jit::compile(&mut p, 0),
        Err(JitError::EncodingOverflow)
    ));
}

#[test]
fn conditional_branch_out_of_range_is_reported() {
    // Push the false target further than a 19-bit word delta can reach.
    let mut p = Program { blocks: Vec::new() };
    let b0 = p.make_block();
    let b1 = p.make_block();
    let b2 = p.make_block();
    b0.append(
        &mut p,
        Instruction::JumpConditional { true_target: b1, false_target: b2 },
    );
    for _ in 0..300_000 {
        b1.append(&mut p, Instruction::Breakpoint);
    }
    b2.append(&mut p, Instruction::Exit);
    assert!(matches!(
        Jit::compile(&mut p, 0),
        Err(JitError::BranchOutOfRange)
    ));
}

#[test]
fn relinking_a_non_branch_word_is_rejected() {
    let mut p = Program { blocks: Vec::new() };
    let b0 = p.make_block();
    b0.append(&mut p, Instruction::Exit);
    let mut jit = Jit::compile(&mut p, 0).unwrap();
    assert_eq!(
        jit.link_and_rewrite(0, 0),
        Err(JitError::UnknownBranchOpcode)
    );
}

#[test]
fn load_immediate_lowering_stores_into_the_accumulator_slot() {
    let mut p = Program { blocks: Vec::new() };
    let b0 = p.make_block();
    b0.append(
        &mut p,
        Instruction::LoadImmediate { value: Value(0xDEAD_BEEF_CAFE_1234) },
    );
    b0.append(&mut p, Instruction::Exit);
    let jit = Jit::compile(&mut p, 0).unwrap();
    let movz = 0xD2800000 | (0x1234 << 5) | 4;
    let movk1 = 0xF2800000 | (1 << 21) | (0xCAFE << 5) | 4;
    let movk2 = 0xF2800000 | (2 << 21) | (0xBEEF << 5) | 4;
    let movk3 = 0xF2800000 | (3 << 21) | (0xDEAD << 5) | 4;
    let str_acc = 0xF9000000 | (1 << 5) | 4;
    let ret = 0xD65F03C0;
    assert_eq!(jit.code().len(), 24);
    for (i, w) in [movz, movk1, movk2, movk3, str_acc, ret].iter().enumerate() {
        assert_eq!(word_at(jit.code(), 4 * i), *w);
    }
}

#[test]
fn load_random_lowering_calls_through_the_given_address() {
    let mut p = Program { blocks: Vec::new() };
    let b0 = p.make_block();
    b0.append(&mut p, Instruction::LoadRandom { max: Value(7) });
    b0.append(&mut p, Instruction::Exit);
    let jit = Jit::compile(&mut p, 0x1234_5678).unwrap();
    let code = jit.code();
    assert_eq!(code.len() % 4, 0);
    // Six pushes of two words each come first.
    let sub_sp = 0xD1000000 | (16 << 10) | (31 << 5) | 31;
    assert_eq!(word_at(code, 0), sub_sp);
    assert_eq!(word_at(code, 4), 0xF9000000 | (31 << 5) | 0);
    // The BLR through X5 appears after the argument and address loads:
    // 12 push words, MOVZ for arg 7, MOVZ+MOVK for the address.
    let blr_off = 12 * 4 + 4 + 8;
    assert_eq!(word_at(code, blr_off), 0xD63F0000 | (5 << 5));
}

#[test]
fn compile_is_deterministic() {
    let mut p1 = cheekyjit::interp::sample_loop_program(42);
    let mut p2 = cheekyjit::interp::sample_loop_program(42);
    let j1 = Jit::compile(&mut p1, 0).unwrap();
    let j2 = Jit::compile(&mut p2, 0).unwrap();
    assert_eq!(j1.code().clone(), j2.code().clone());
    assert_eq!(j1.block_offsets().clone(), j2.block_offsets().clone());
}
