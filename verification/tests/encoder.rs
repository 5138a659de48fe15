//! Checks of the instruction encoder against hand-assembled reference
//! words.

use cheekyjit::assembler::Arm64Writer;
use cheekyjit::assembler::Assembler;
use cheekyjit::assembler::BitIndex;
use cheekyjit::assembler::BitwiseWriter;
use cheekyjit::assembler::Operand;
use cheekyjit::assembler::Reg;
use cheekyjit::errors::JitError;
use cheekyjit::vm::VMLocal;
use cheekyjit::vm::VMRegister;

fn le(words: &[u32]) -> Vec<u8> {
    let mut out = Vec::new();
    for w in words {
        out.extend_from_slice(&w.to_le_bytes());
    }
    out
}

#[test]
fn nop_and_ret_words() {
    let mut w = Arm64Writer::new();
    w.emit_nop();
    w.emit_ret();
    assert_eq!(w.bytes().clone(), le(&[0xD503201F, 0xD65F03C0]));
}

#[test]
fn mov_reg_word() {
    // MOV X4, X5 == ORR X4, XZR, X5
    let mut w = Arm64Writer::new();
    w.emit_mov_reg(Reg::GPR0, Reg::GPR1);
    assert_eq!(w.bytes().clone(), le(&[0xAA0503E4]));
}

#[test]
fn movz_single_word_for_small_immediate() {
    // MOVZ X4, #0x1234
    let mut w = Arm64Writer::new();
    w.emit_mov_imm(Reg::GPR0, 0x1234);
    assert_eq!(w.bytes().clone(), le(&[0xD2800000 | (0x1234 << 5) | 4]));
}

#[test]
fn mov_imm_zero_is_one_movz() {
    let mut w = Arm64Writer::new();
    w.emit_mov_imm(Reg::GPR0, 0);
    assert_eq!(w.bytes().clone(), le(&[0xD2800000 | 4]));
}

#[test]
fn mov_imm_one_is_one_movz() {
    let mut w = Arm64Writer::new();
    w.emit_mov_imm(Reg::GPR0, 1);
    assert_eq!(w.bytes().clone(), le(&[0xD2800000 | (1 << 5) | 4]));
}

#[test]
fn mov_imm_full_width_is_movz_and_three_movk() {
    // X5 <- 0xDEAD_BEEF_CAFE_1234
    let mut w = Arm64Writer::new();
    w.emit_mov_imm(Reg::GPR1, 0xDEAD_BEEF_CAFE_1234);
    let movz = 0xD2800000 | (0x1234 << 5) | 5;
    let movk1 = 0xF2800000 | (1 << 21) | (0xCAFE << 5) | 5;
    let movk2 = 0xF2800000 | (2 << 21) | (0xBEEF << 5) | 5;
    let movk3 = 0xF2800000 | (3 << 21) | (0xDEAD << 5) | 5;
    assert_eq!(w.bytes().clone(), le(&[movz, movk1, movk2, movk3]));
}

#[test]
fn mov_imm_skips_trailing_zero_halfwords() {
    // 2^16 needs MOVZ (low) + one MOVK for hw 1 and nothing above.
    let mut w = Arm64Writer::new();
    w.emit_mov_imm(Reg::GPR0, 1 << 16);
    let movz = 0xD2800000 | 4;
    let movk1 = 0xF2800000 | (1 << 21) | (1 << 5) | 4;
    assert_eq!(w.bytes().clone(), le(&[movz, movk1]));

    // 2^32: the zero hw-1 halfword is still emitted, hw 2 carries the one.
    let mut w = Arm64Writer::new();
    w.emit_mov_imm(Reg::GPR0, 1 << 32);
    let movk1 = 0xF2800000 | (1 << 21) | 4;
    let movk2 = 0xF2800000 | (2 << 21) | (1 << 5) | 4;
    assert_eq!(w.bytes().clone(), le(&[movz, movk1, movk2]));

    // 2^48.
    let mut w = Arm64Writer::new();
    w.emit_mov_imm(Reg::GPR0, 1 << 48);
    let movk2 = 0xF2800000 | (2 << 21) | 4;
    let movk3 = 0xF2800000 | (3 << 21) | (1 << 5) | 4;
    assert_eq!(w.bytes().clone(), le(&[movz, movk1, movk2, movk3]));
}

#[test]
fn mov_imm_all_ones() {
    let mut w = Arm64Writer::new();
    w.emit_mov_imm(Reg::GPR0, u64::MAX);
    let movz = 0xD2800000 | (0xFFFF << 5) | 4;
    let mk = |hw: u32| 0xF2800000 | (hw << 21) | (0xFFFF << 5) | 4;
    assert_eq!(w.bytes().clone(), le(&[movz, mk(1), mk(2), mk(3)]));
}

#[test]
fn ldr_str_words() {
    // LDR X4, [X1, #3] ; STR X4, [X2, #7]
    let mut w = Arm64Writer::new();
    w.emit_ldr(Reg::GPR0, Reg::RegisterArrayBase, 3);
    w.emit_str(Reg::LocalsArrayBase, 7, Reg::GPR0);
    let ldr = 0xF9400000 | (3 << 10) | (1 << 5) | 4;
    let str_ = 0xF9000000 | (7 << 10) | (2 << 5) | 4;
    assert_eq!(w.bytes().clone(), le(&[ldr, str_]));
}

#[test]
fn add_sub_incr_words() {
    let mut w = Arm64Writer::new();
    w.emit_add(Reg::GPR0, Reg::GPR1, 12);
    w.emit_sub(Reg::SP, Reg::SP, 16);
    w.emit_incr(Reg::GPR0);
    let add = 0x91000000 | (12 << 10) | (5 << 5) | 4;
    let sub = 0xD1000000 | (16 << 10) | (31 << 5) | 31;
    let incr = 0x91000000 | (1 << 10) | (4 << 5) | 4;
    assert_eq!(w.bytes().clone(), le(&[add, sub, incr]));
}

#[test]
fn cmp_words() {
    let mut w = Arm64Writer::new();
    w.emit_cmp(Reg::GPR1, Operand::Reg(Reg::GPR0));
    w.emit_cmp(Reg::GPR0, Operand::Imm64(0));
    let cmp_reg = 0xEB00001F | (4 << 16) | (5 << 5);
    let cmp_imm = 0xF100001F | (4 << 5);
    assert_eq!(w.bytes().clone(), le(&[cmp_reg, cmp_imm]));
}

#[test]
fn cset_lt_word() {
    // CSET X4, LT == CSINC X4, XZR, XZR, GE
    let mut w = Arm64Writer::new();
    w.emit_cset(Reg::GPR0);
    assert_eq!(w.bytes().clone(), le(&[0x9A9FA7E4]));
}

#[test]
fn branch_words() {
    let mut w = Arm64Writer::new();
    w.emit_branch(0x00DEADAF);
    w.emit_branch_eq(0xDEAD);
    w.emit_branch_with_link(Reg::GPR1);
    let b = 0x14000000 | 0x00DEADAF;
    let beq = 0x54000000 | (0xDEAD << 5);
    let blr = 0xD63F0000 | (5 << 5);
    assert_eq!(w.bytes().clone(), le(&[b, beq, blr]));
}

#[test]
fn brk_word() {
    let mut w = Arm64Writer::new();
    w.emit_brk(7);
    assert_eq!(w.bytes().clone(), le(&[0xD4200000 | (7 << 5)]));
}

#[test]
fn push_pop_shapes() {
    let mut w = Arm64Writer::new();
    w.emit_push(Reg::RET);
    w.emit_pop(Some(Reg::RET));
    w.emit_pop(None);
    let sub = 0xD1000000 | (16 << 10) | (31 << 5) | 31;
    let str_ = 0xF9000000 | (31 << 5) | 30;
    let ldr = 0xF9400000 | (31 << 5) | 30;
    let add = 0x91000000 | (16 << 10) | (31 << 5) | 31;
    assert_eq!(w.bytes().clone(), le(&[sub, str_, ldr, add, add]));
}

#[test]
fn packer_packs_fields_most_significant_first() {
    let fields = vec![
        BitIndex { value: 0b101, bits: 3 },
        BitIndex { value: 0, bits: 24 },
        BitIndex { value: 0b11111, bits: 5 },
    ];
    assert_eq!(BitwiseWriter::write(&fields), Ok(0b101 << 29 | 0b11111));
}

#[test]
fn packer_rejects_overflowing_field() {
    let fields = vec![
        BitIndex { value: 9, bits: 3 },
        BitIndex { value: 0, bits: 29 },
    ];
    assert_eq!(BitwiseWriter::write(&fields), Err(JitError::EncodingOverflow));
}

#[test]
fn packer_rejects_wrong_total_width() {
    let fields = vec![BitIndex { value: 1, bits: 31 }];
    assert_eq!(BitwiseWriter::write(&fields), Err(JitError::EncodingShort));
    let fields = vec![BitIndex { value: 1, bits: 33 }];
    assert_eq!(BitwiseWriter::write(&fields), Err(JitError::EncodingShort));
}

#[test]
fn assembler_facade_emits_the_documented_sequences() {
    let mut a = Assembler::default();
    a.load_vm_register(Reg::GPR0, VMRegister(2));
    a.store_vm_register(VMRegister(0), Reg::GPR0);
    a.load_vm_local(Reg::GPR0, VMLocal(1));
    a.store_vm_local(VMLocal(3), Reg::GPR0);
    a.increment(Reg::GPR0);
    a.less_than(Reg::GPR0, Reg::GPR1);
    a.brk();
    a.ret();
    a.no_op();
    let expected = le(&[
        0xF9400000 | (2 << 10) | (1 << 5) | 4,
        0xF9000000 | (1 << 5) | 4,
        0xF9400000 | (1 << 10) | (2 << 5) | 4,
        0xF9000000 | (3 << 10) | (2 << 5) | 4,
        0x91000000 | (1 << 10) | (4 << 5) | 4,
        0xEB00001F | (4 << 16) | (5 << 5),
        0x9A9FA7E4,
        0xD4200000,
        0xD65F03C0,
        0xD503201F,
    ]);
    assert_eq!(a.bytes().clone(), expected);
    assert_eq!(a.len() % 4, 0);
}

#[test]
fn rewrite_and_read_roundtrip() {
    let mut a = Assembler::default();
    a.no_op();
    a.no_op();
    a.rewrite_instr32(4, 0x12345678);
    assert_eq!(a.read_instr32(0), 0xD503201F);
    assert_eq!(a.read_instr32(4), 0x12345678);
}
