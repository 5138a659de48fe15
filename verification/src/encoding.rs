//! Specification-level view of the emitted machine code.
//!
//! Every AArch64 instruction this library emits is a single 32-bit word laid
//! down little-endian.  The spec functions here give the canonical bit
//! pattern of each supported form, with the operands placed in their
//! documented fields; the encoder's contracts are stated against them.

use vstd::prelude::*;
use vstd::arithmetic::power2::pow2;
use vstd::arithmetic::power2::lemma_pow2_adds;
use vstd::arithmetic::power2::lemma2_to64;
use vstd::arithmetic::power2::lemma2_to64_rest;
use vstd::arithmetic::div_mod::lemma_fundamental_div_mod;

verus! {

/// The little-endian byte order of one 32-bit instruction word.
pub open spec fn word_bytes(w: u32) -> Seq<u8> {
    seq![w as u8, (w >> 8) as u8, (w >> 16) as u8, (w >> 24) as u8]
}

/// A whole instruction stream, flattened to bytes.
pub open spec fn words_to_bytes(ws: Seq<u32>) -> Seq<u8>
    decreases ws.len(),
{
    if ws.len() == 0 {
        Seq::empty()
    } else {
        word_bytes(ws.first()) + words_to_bytes(ws.drop_first())
    }
}

pub proof fn lemma_words_to_bytes_len(ws: Seq<u32>)
    ensures
        words_to_bytes(ws).len() == 4 * ws.len(),
    decreases ws.len(),
{
    if ws.len() > 0 {
        lemma_words_to_bytes_len(ws.drop_first());
    }
}

pub proof fn lemma_words_to_bytes_cons(w: u32, rest: Seq<u32>)
    ensures
        words_to_bytes(seq![w] + rest) == word_bytes(w) + words_to_bytes(rest),
{
    assert((seq![w] + rest).len() > 0);
    assert((seq![w] + rest).first() == w);
    assert((seq![w] + rest).drop_first() =~= rest);
}

/// The 32-bit word stored little-endian at byte offset `off`.
pub open spec fn word_at(s: Seq<u8>, off: int) -> u32 {
    (s[off] as u32) | ((s[off + 1] as u32) << 8) | ((s[off + 2] as u32) << 16) | ((s[off
        + 3] as u32) << 24)
}

/// `s` with the four bytes at `off` replaced by the little-endian bytes of
/// `w`.
pub open spec fn splice_word(s: Seq<u8>, off: int, w: u32) -> Seq<u8> {
    s.update(off, w as u8).update(off + 1, (w >> 8) as u8).update(off + 2, (w >> 16) as u8).update(
        off + 3,
        (w >> 24) as u8,
    )
}

/// Reading back a just-spliced word gives the word.
pub proof fn lemma_word_at_splice(s: Seq<u8>, off: int, w: u32)
    requires
        0 <= off,
        off + 4 <= s.len(),
    ensures
        splice_word(s, off, w).len() == s.len(),
        word_at(splice_word(s, off, w), off) == w,
{
    assert(((w as u8) as u32) | ((((w >> 8) as u8) as u32) << 8) | ((((w >> 16) as u8) as u32)
        << 16) | ((((w >> 24) as u8) as u32) << 24) == w) by (bit_vector);
}

/// A splice leaves every word outside its four bytes alone.
pub proof fn lemma_word_at_splice_disjoint(s: Seq<u8>, off: int, w: u32, off2: int)
    requires
        0 <= off,
        off + 4 <= s.len(),
        0 <= off2,
        off2 + 4 <= s.len(),
        off2 + 4 <= off || off + 4 <= off2,
    ensures
        word_at(splice_word(s, off, w), off2) == word_at(s, off2),
{
}

/// Splicing the word that is already there changes nothing.
pub proof fn lemma_splice_word_at_same(s: Seq<u8>, off: int)
    requires
        0 <= off,
        off + 4 <= s.len(),
    ensures
        splice_word(s, off, word_at(s, off)) == s,
{
    let w = word_at(s, off);
    let b0 = s[off];
    let b1 = s[off + 1];
    let b2 = s[off + 2];
    let b3 = s[off + 3];
    assert(w as u8 == b0 && (w >> 8) as u8 == b1 && (w >> 16) as u8 == b2 && (w >> 24) as u8 == b3)
        by (bit_vector)
        requires
            w == (b0 as u32) | ((b1 as u32) << 8) | ((b2 as u32) << 16) | ((b3 as u32) << 24),
    ;
    assert(splice_word(s, off, w) =~= s);
}

/// A delta that fits its field has an encoding below two to the field
/// width.
pub proof fn lemma_enc_signed_bound(delta: int, width: nat)
    requires
        0 < width <= 32,
        fits_signed(delta, width),
    ensures
        enc_signed(delta, width) < pow2(width),
{
    lemma_pow2_adds((width - 1) as nat, 1);
    lemma2_to64();
}

/// The two's-complement encoding of a signed branch delta in a `width`-bit
/// immediate field.
pub open spec fn enc_signed(delta: int, width: nat) -> nat
    recommends
        0 < width <= 32,
        -pow2((width - 1) as nat) <= delta < pow2((width - 1) as nat),
{
    if delta >= 0 {
        delta as nat
    } else {
        (delta + pow2(width)) as nat
    }
}

/// Whether `delta` fits a signed `width`-bit immediate field.
pub open spec fn fits_signed(delta: int, width: nat) -> bool {
    -pow2((width - 1) as nat) <= delta < pow2((width - 1) as nat)
}

// The canonical bit patterns of the emitted forms.  Register operands are
// architectural register numbers, always below 32.

/// MOV (register), 64-bit: ORR Xd, XZR, Xm (shifted register, shift 0).
pub open spec fn enc_mov_reg(dst: u32, src: u32) -> u32 {
    0xAA0003E0u32 | (src << 16) | dst
}

/// MOVZ Xd, #imm16 (hw = 0).
pub open spec fn enc_movz(dst: u32, imm16: u32) -> u32 {
    0xD2800000u32 | (imm16 << 5) | dst
}

/// MOVK Xd, #imm16, LSL #(16*hw).
pub open spec fn enc_movk(dst: u32, hw: u32, imm16: u32) -> u32 {
    0xF2800000u32 | (hw << 21) | (imm16 << 5) | dst
}

/// STR Xt, [Xn, #imm12] (64-bit, unsigned offset, in 8-byte units).
pub open spec fn enc_str(base: u32, imm12: u32, src: u32) -> u32 {
    0xF9000000u32 | (imm12 << 10) | (base << 5) | src
}

/// LDR Xt, [Xn, #imm12] (64-bit, unsigned offset, in 8-byte units).
pub open spec fn enc_ldr(dst: u32, base: u32, imm12: u32) -> u32 {
    0xF9400000u32 | (imm12 << 10) | (base << 5) | dst
}

/// CSET Xd, LT: the alias of CSINC Xd, XZR, XZR, GE.  The alias inverts the
/// condition, so the cond field holds GE (0b1010) and the instruction sets
/// Xd to 1 exactly when the flags say signed less-than.
pub open spec fn enc_cset_lt(dst: u32) -> u32 {
    0x9A9FA7E0u32 | dst
}

/// ADD Xd, Xn, #imm12 (no shift).
pub open spec fn enc_add(dst: u32, src: u32, imm12: u32) -> u32 {
    0x91000000u32 | (imm12 << 10) | (src << 5) | dst
}

/// SUB Xd, Xn, #imm12 (no shift).
pub open spec fn enc_sub(dst: u32, src: u32, imm12: u32) -> u32 {
    0xD1000000u32 | (imm12 << 10) | (src << 5) | dst
}

/// B with a 26-bit word offset field.
pub open spec fn enc_b_raw(imm26: u32) -> u32 {
    0x14000000u32 | imm26
}

/// A linked B: the delta in words, two's-complement, in the low 26 bits.
pub open spec fn enc_b(delta_words: int) -> u32 {
    enc_b_raw(enc_signed(delta_words, 26) as u32)
}

/// B.cond with a 19-bit word offset field; the low five bits hold the
/// condition code and a fixed zero bit.
pub open spec fn enc_bcond_raw(imm19: u32, low5: u32) -> u32 {
    0x54000000u32 | (imm19 << 5) | low5
}

/// A linked B.cond, preserving the condition bits found at the site.
pub open spec fn enc_bcond(delta_words: int, low5: u32) -> u32 {
    enc_bcond_raw(enc_signed(delta_words, 19) as u32, low5)
}

/// B.EQ with a 19-bit word offset field (cond = EQ = 0b0000).
pub open spec fn enc_beq(imm19: u32) -> u32 {
    enc_bcond_raw(imm19, 0)
}

/// BLR Xn.
pub open spec fn enc_blr(target: u32) -> u32 {
    0xD63F0000u32 | (target << 5)
}

/// CMP Xn, Xm: SUBS XZR, Xn, Xm (shifted register, shift 0).
pub open spec fn enc_cmp_reg(lhs: u32, rhs: u32) -> u32 {
    0xEB00001Fu32 | (rhs << 16) | (lhs << 5)
}

/// CMP Xn, #imm12: SUBS XZR, Xn, #imm12.
pub open spec fn enc_cmp_imm(lhs: u32, imm12: u32) -> u32 {
    0xF100001Fu32 | (imm12 << 10) | (lhs << 5)
}

/// RET (to X30).
pub open spec fn enc_ret() -> u32 {
    0xD65F03C0u32
}

/// BRK #imm16.
pub open spec fn enc_brk(imm16: u32) -> u32 {
    0xD4200000u32 | (imm16 << 5)
}

/// NOP.
pub open spec fn enc_nop() -> u32 {
    0xD503201Fu32
}

/// The MOVK words that follow the opening MOVZ of a 64-bit immediate load:
/// one per non-zero remaining halfword, lowest first, at most three.
pub open spec fn movk_words(dst: u32, rest: u64, hw: int) -> Seq<u32>
    decreases 4 - hw,
{
    if rest == 0 || hw < 1 || hw >= 4 {
        Seq::empty()
    } else {
        seq![enc_movk(dst, hw as u32, (rest % 0x10000) as u32)] + movk_words(
            dst,
            rest / 0x10000,
            hw + 1,
        )
    }
}

/// The word sequence that loads a full 64-bit immediate: MOVZ with the low
/// halfword, then MOVK for every further non-zero halfword.
pub open spec fn mov_imm_words(dst: u32, imm: u64) -> Seq<u32> {
    seq![enc_movz(dst, (imm % 0x10000) as u32)] + movk_words(dst, imm / 0x10000, 1)
}

// The architectural reading of the emitted MOVZ/MOVK words, used to state
// that a load-immediate sequence reconstructs exactly the immediate.

/// The word is a 64-bit MOVZ.
pub open spec fn is_movz(w: u32) -> bool {
    w >> 23 == 0b110100101
}

/// The word is a 64-bit MOVK.
pub open spec fn is_movk(w: u32) -> bool {
    w >> 23 == 0b111100101
}

/// The halfword selector of a MOVZ/MOVK.
pub open spec fn mov_hw(w: u32) -> u32 {
    (w >> 21) & 3
}

/// The 16-bit immediate of a MOVZ/MOVK.
pub open spec fn mov_imm16(w: u32) -> u64 {
    ((w >> 5) & 0xFFFF) as u64
}

/// The destination register of a MOVZ/MOVK.
pub open spec fn mov_rd(w: u32) -> u32 {
    w & 0x1F
}

/// What one word does to the register it writes, as the architecture
/// defines it: MOVZ replaces the whole register with the shifted halfword,
/// MOVK keeps everything but the selected halfword.  Other words leave the
/// register alone.
pub open spec fn step_mov_word(v: u64, w: u32) -> u64 {
    if is_movz(w) {
        mov_imm16(w) << ((16 * mov_hw(w)) as u64)
    } else if is_movk(w) {
        (v & !(0xFFFFu64 << ((16 * mov_hw(w)) as u64))) | (mov_imm16(w) << ((16 * mov_hw(
            w,
        )) as u64))
    } else {
        v
    }
}

/// Run a word sequence over a register value.
pub open spec fn run_mov_words(v: u64, ws: Seq<u32>) -> u64
    decreases ws.len(),
{
    if ws.len() == 0 {
        v
    } else {
        run_mov_words(step_mov_word(v, ws.first()), ws.drop_first())
    }
}

proof fn lemma_run_mov_cons(v: u64, w: u32, rest: Seq<u32>)
    ensures
        run_mov_words(v, seq![w] + rest) == run_mov_words(step_mov_word(v, w), rest),
{
    assert((seq![w] + rest).len() > 0);
    assert((seq![w] + rest).first() == w);
    assert((seq![w] + rest).drop_first() =~= rest);
}

proof fn lemma_movk_run(dst: u32, rest: u64, hw: int, v: u64)
    requires
        dst < 32,
        1 <= hw <= 4,
        rest < pow2((64 - 16 * hw) as nat),
        v < pow2((16 * hw) as nat),
    ensures
        run_mov_words(v, movk_words(dst, rest, hw)) == v + rest * pow2((16 * hw) as nat),
    decreases 4 - hw,
{
    lemma2_to64();
    lemma2_to64_rest();
    if rest == 0 || hw >= 4 {
        assert(movk_words(dst, rest, hw) =~= Seq::<u32>::empty());
        assert(rest == 0);
        assert(rest * pow2((16 * hw) as nat) == 0) by (nonlinear_arith)
            requires
                rest == 0,
        ;
    } else {
        let hwv = hw as u32;
        let piece32 = (rest % 0x10000) as u32;
        let w = enc_movk(dst, hwv, piece32);
        let tail = movk_words(dst, rest / 0x10000, hw + 1);
        assert(movk_words(dst, rest, hw) == seq![w] + tail);
        lemma_run_mov_cons(v, w, tail);
        assert(w >> 23 == 0b111100101 && (w >> 21) & 3 == hwv && ((w >> 5) & 0xFFFF) as u64
            == piece32 as u64 && !(w >> 23 == 0b110100101)) by (bit_vector)
            requires
                w == 0xF2800000u32 | (hwv << 21) | (piece32 << 5) | dst,
                dst < 32,
                1 <= hwv < 4,
                piece32 < 0x10000,
        ;
        let piece = mov_imm16(w);
        assert(piece == rest % 0x10000);
        let v2 = step_mov_word(v, w);
        let p_hw = pow2((16 * hw) as nat);
        let p_next = pow2((16 * (hw + 1)) as nat);
        lemma_pow2_adds((16 * hw) as nat, 16);
        assert(p_next == p_hw * 0x10000);
        if hw == 1 {
            assert(v2 == (v & !(0xFFFFu64 << 16)) | (piece << 16));
            assert((v & !(0xFFFFu64 << 16)) | (piece << 16) == v + piece * 0x1_0000 && v + piece
                * 0x1_0000 < 0x1_0000_0000) by (bit_vector)
                requires
                    v < 0x1_0000,
                    piece < 0x1_0000,
            ;
        } else if hw == 2 {
            assert(v2 == (v & !(0xFFFFu64 << 32)) | (piece << 32));
            assert((v & !(0xFFFFu64 << 32)) | (piece << 32) == v + piece * 0x1_0000_0000 && v
                + piece * 0x1_0000_0000 < 0x1_0000_0000_0000) by (bit_vector)
                requires
                    v < 0x1_0000_0000,
                    piece < 0x1_0000,
            ;
        } else {
            assert(hw == 3);
            assert(v2 == (v & !(0xFFFFu64 << 48)) | (piece << 48));
            assert((v & !(0xFFFFu64 << 48)) | (piece << 48) == v + piece * 0x1_0000_0000_0000)
                by (bit_vector)
                requires
                    v < 0x1_0000_0000_0000,
                    piece < 0x1_0000,
            ;
        }
        assert(v2 == v + piece * p_hw);
        assert(v2 < p_next);
        let q = rest / 0x10000;
        lemma_fundamental_div_mod(rest as int, 0x10000);
        assert(q < pow2((64 - 16 * (hw + 1)) as nat)) by {
            let bnd = pow2((64 - 16 * (hw + 1)) as nat);
            lemma_pow2_adds(16, (64 - 16 * (hw + 1)) as nat);
            assert(pow2((64 - 16 * hw) as nat) == 0x10000 * bnd);
            assert(0x10000 * q <= rest) by (nonlinear_arith)
                requires
                    rest == 0x10000 * q + rest % 0x10000,
                    rest % 0x10000 >= 0,
            ;
            assert(q < bnd) by (nonlinear_arith)
                requires
                    0x10000 * q <= rest,
                    rest < 0x10000 * bnd,
            ;
        }
        lemma_movk_run(dst, q, hw + 1, v2);
        assert(run_mov_words(v2, tail) == v2 + q * p_next);
        assert(rest * p_hw == piece * p_hw + q * (0x10000 * p_hw)) by (nonlinear_arith)
            requires
                rest == 0x10000 * q + piece,
        ;
        assert(p_next == p_hw * 0x10000);
        assert(q * (0x10000 * p_hw) == q * p_next) by (nonlinear_arith)
            requires
                p_next == p_hw * 0x10000,
        ;
    }
}

/// Loading a 64-bit immediate is lossless: executing the emitted
/// MOVZ/MOVK sequence for `imm` over any starting register value yields
/// exactly `imm`, under the architecture's reading of those words.
pub proof fn lemma_mov_imm_round_trip(dst: u32, imm: u64, v0: u64)
    requires
        dst < 32,
    ensures
        run_mov_words(v0, mov_imm_words(dst, imm)) == imm,
{
    lemma2_to64();
    lemma2_to64_rest();
    let piece32 = (imm % 0x10000) as u32;
    let w = enc_movz(dst, piece32);
    let tail = movk_words(dst, imm / 0x10000, 1);
    assert(mov_imm_words(dst, imm) == seq![w] + tail);
    lemma_run_mov_cons(v0, w, tail);
    assert(w >> 23 == 0b110100101 && (w >> 21) & 3 == 0 && ((w >> 5) & 0xFFFF) as u64
        == piece32 as u64) by (bit_vector)
        requires
            w == 0xD2800000u32 | (piece32 << 5) | dst,
            dst < 32,
            piece32 < 0x10000,
    ;
    let v1 = step_mov_word(v0, w);
    assert(v1 == mov_imm16(w) << 0u64);
    assert(mov_imm16(w) << 0u64 == mov_imm16(w)) by (bit_vector);
    assert(v1 == imm % 0x10000);
    let q = imm / 0x10000;
    lemma_fundamental_div_mod(imm as int, 0x10000);
    assert(q < pow2(48)) by {
        assert(0x10000 * q <= imm) by (nonlinear_arith)
            requires
                imm == 0x10000 * q + imm % 0x10000,
                imm % 0x10000 >= 0,
        ;
        assert(q < 0x1_0000_0000_0000) by (nonlinear_arith)
            requires
                0x10000 * q <= imm,
                imm < 0x10000 * 0x1_0000_0000_0000,
        ;
    }
    lemma_movk_run(dst, q, 1, v1);
    assert(run_mov_words(v1, tail) == v1 + q * pow2(16));
}

/// The opcode family of a word, by its top six bits.
pub open spec fn top6(w: u32) -> u32 {
    w >> 26
}

/// The top eight bits, which identify B.cond exactly.
pub open spec fn top8(w: u32) -> u32 {
    w >> 24
}

/// Top six bits of an unconditional B.
pub const OP_JMP: u32 = 0b000101;

/// Top six bits of a B.cond.
pub const OP_JEQ: u32 = 0b010101;

} // verus!
