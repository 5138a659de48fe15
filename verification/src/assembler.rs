//! The AArch64 instruction encoder and the assembler facade over it.
//!
//! `BitwiseWriter` is the bit-field packer: the one place where fields are
//! shifted together into a 32-bit instruction word.  `Arm64Writer` emits each
//! supported opcode form through the packer into an append-only byte buffer,
//! and `Assembler` offers the semantically named operations the lowering pass
//! uses.

use vstd::prelude::*;
use vstd::arithmetic::power2::pow2;
use vstd::arithmetic::power2::lemma_pow2_adds;
use vstd::arithmetic::power2::lemma_pow2_strictly_increases;
use vstd::arithmetic::power2::lemma_pow2_unfold;
use vstd::arithmetic::power2::lemma2_to64;
use vstd::arithmetic::power2::lemma2_to64_rest;
use crate::encoding::word_bytes;
use crate::encoding::words_to_bytes;
use crate::encoding::lemma_words_to_bytes_cons;
use crate::encoding::enc_mov_reg;
use crate::encoding::enc_movz;
use crate::encoding::enc_movk;
use crate::encoding::mov_imm_words;
use crate::encoding::movk_words;
use crate::encoding::enc_str;
use crate::encoding::enc_ldr;
use crate::encoding::enc_cset_lt;
use crate::encoding::enc_add;
use crate::encoding::enc_sub;
use crate::encoding::enc_b_raw;
use crate::encoding::enc_blr;
use crate::encoding::enc_beq;
use crate::encoding::enc_cmp_reg;
use crate::encoding::enc_cmp_imm;
use crate::encoding::enc_brk;
use crate::encoding::enc_nop;
use crate::encoding::enc_ret;
use crate::encoding::word_at;
use crate::encoding::splice_word;
use crate::errors::JitError;
use crate::vm::BlockTarget;
use crate::vm::Program;
use crate::vm::VMLocal;
use crate::vm::VMRegister;

verus! {

/// The architectural registers the code generator uses, by role.
#[derive(Clone, Copy, Debug, PartialEq, Eq, Structural)]
pub enum Reg {
    /// Scratch register A: X4.
    GPR0,
    /// Scratch register B: X5.
    GPR1,
    /// The pointer to the VM structure: X0.
    VmStructBase,
    /// The base of the VM's register array: X1.
    RegisterArrayBase,
    /// The base of the VM's locals array: X2.
    LocalsArrayBase,
    /// The link register: X30.
    RET,
    /// The stack pointer: X31.
    SP,
}

impl Reg {
    /// The architectural register number.
    pub open spec fn idx(self) -> u32 {
        match self {
            Reg::GPR0 => 4,
            Reg::GPR1 => 5,
            Reg::VmStructBase => 0,
            Reg::RegisterArrayBase => 1,
            Reg::LocalsArrayBase => 2,
            Reg::RET => 30,
            Reg::SP => 31,
        }
    }

    /// The architectural register number, as a field value for the packer.
    pub fn num(self) -> (n: usize)
        ensures
            n == self.idx(),
            n < 32,
    {
        match self {
            Reg::GPR0 => 4,
            Reg::GPR1 => 5,
            Reg::VmStructBase => 0,
            Reg::RegisterArrayBase => 1,
            Reg::LocalsArrayBase => 2,
            Reg::RET => 30,
            Reg::SP => 31,
        }
    }
}

/// A host function reachable from generated code.  The function's entry
/// address is carried as a plain 64-bit word together with its argument.
#[derive(Clone, Copy, Debug)]
pub enum Func {
    /// A `fn(u64) -> u64` at the given address, and its argument.
    FnSingleInt64WithReturnInt64(u64, u64),
}

/// One field of an instruction word: `value` occupies the next `bits` bits,
/// most significant field first.
#[derive(Clone, Copy, Debug)]
pub struct BitIndex {
    pub bits: usize,
    pub value: usize,
}

/// `value` fits in `bits` bits.  A `usize` always fits 64 bits or more.
pub open spec fn field_fits(f: BitIndex) -> bool {
    f.bits < 64 ==> f.value < pow2(f.bits as nat)
}

/// Every field fits its width.
pub open spec fn fields_fit(s: Seq<BitIndex>) -> bool
    decreases s.len(),
{
    if s.len() == 0 {
        true
    } else {
        fields_fit(s.drop_last()) && field_fits(s.last())
    }
}

/// The sum of the field widths.
pub open spec fn total_bits(s: Seq<BitIndex>) -> int
    decreases s.len(),
{
    if s.len() == 0 {
        0
    } else {
        total_bits(s.drop_last()) + s.last().bits
    }
}

/// The fields concatenated most-significant-first into one number.
pub open spec fn pack_fields(s: Seq<BitIndex>) -> nat
    decreases s.len(),
{
    if s.len() == 0 {
        0
    } else {
        (pack_fields(s.drop_last()) * pow2(s.last().bits as nat) + s.last().value) as nat
    }
}

proof fn lemma_total_bits_nonneg(s: Seq<BitIndex>)
    ensures
        total_bits(s) >= 0,
    decreases s.len(),
{
    if s.len() > 0 {
        lemma_total_bits_nonneg(s.drop_last());
    }
}

proof fn lemma_fields_fit_index(s: Seq<BitIndex>, i: int)
    requires
        fields_fit(s),
        0 <= i < s.len(),
    ensures
        field_fits(s[i]),
    decreases s.len(),
{
    if i < s.len() - 1 {
        lemma_fields_fit_index(s.drop_last(), i);
    }
}

proof fn lemma_take_succ(s: Seq<BitIndex>, i: int)
    requires
        0 <= i < s.len(),
    ensures
        s.take(i + 1).drop_last() == s.take(i),
        s.take(i + 1).last() == s[i],
{
    assert(s.take(i + 1).drop_last() =~= s.take(i));
}

proof fn lemma_fields_fit_prefix(s: Seq<BitIndex>, j: int)
    requires
        fields_fit(s),
        0 <= j <= s.len(),
    ensures
        fields_fit(s.take(j)),
{
    assert forall|k: int| 0 <= k < j implies field_fits(s.take(j)[k]) by {
        lemma_fields_fit_index(s, k);
    }
    lemma_fields_fit_all(s.take(j));
}

proof fn lemma_total_bits_prefix(s: Seq<BitIndex>, j: int)
    requires
        0 <= j <= s.len(),
    ensures
        total_bits(s.take(j)) <= total_bits(s),
    decreases s.len() - j,
{
    if j == s.len() {
        assert(s.take(j) =~= s);
    } else {
        lemma_take_succ(s, j);
        lemma_total_bits_prefix(s, j + 1);
    }
}

/// Packing fields that fit their widths yields a number below two to the
/// total width.
pub proof fn lemma_pack_fields_bound(s: Seq<BitIndex>)
    requires
        fields_fit(s),
    ensures
        pack_fields(s) < pow2(total_bits(s) as nat),
    decreases s.len(),
{
    lemma_total_bits_nonneg(s);
    if s.len() == 0 {
        lemma2_to64();
    } else {
        lemma_total_bits_nonneg(s.drop_last());
        lemma_pack_fields_bound(s.drop_last());
        let p = pack_fields(s.drop_last());
        let rest = total_bits(s.drop_last()) as nat;
        let b = s.last().bits as nat;
        let v = s.last().value;
        lemma_pow2_adds(rest, b);
        if s.last().bits < 64 {
            assert(p * pow2(b) + v < pow2(rest) * pow2(b)) by (nonlinear_arith)
                requires
                    p < pow2(rest),
                    v < pow2(b),
                    pow2(rest) >= 1,
                    pow2(b) >= 1,
            ;
        } else {
            // A usize value is below 2^64, which is at most 2^bits.
            assert(v <= usize::MAX);
            lemma2_to64_rest();
            if b > 64 {
                lemma_pow2_strictly_increases(64, b);
            }
            assert(v < pow2(b));
            assert(p * pow2(b) + v < pow2(rest) * pow2(b)) by (nonlinear_arith)
                requires
                    p < pow2(rest),
                    v < pow2(b),
                    pow2(rest) >= 1,
                    pow2(b) >= 1,
            ;
        }
    }
}

/// Two to the power `bits`, as a machine word.
fn two_pow(bits: usize) -> (r: u64)
    requires
        bits <= 63,
    ensures
        r == pow2(bits as nat),
{
    let mut r: u64 = 1;
    let mut i: usize = 0;
    proof {
        lemma2_to64();
    }
    while i < bits
        invariant
            i <= bits <= 63,
            r == pow2(i as nat),
        decreases bits - i,
    {
        proof {
            lemma_pow2_strictly_increases(i as nat, 63);
            lemma2_to64_rest();
        }
        r = r * 2;
        i = i + 1;
        proof {
            lemma_pow2_unfold(i as nat);
        }
    }
    r
}

/// The bit-field packer: the single place where instruction fields are
/// concatenated into a word.
pub struct BitwiseWriter;

impl BitwiseWriter {
    /// Concatenate the fields, most significant first, into one 32-bit word.
    /// Fails with `EncodingOverflow` if some field value does not fit its
    /// width, and with `EncodingShort` if the widths do not sum to 32.
    pub fn write(fields: &Vec<BitIndex>) -> (r: Result<u32, JitError>)
        ensures
            match r {
                Ok(w) => fields_fit(fields@) && total_bits(fields@) == 32 && w == pack_fields(
                    fields@,
                ),
                Err(JitError::EncodingOverflow) => !fields_fit(fields@),
                Err(JitError::EncodingShort) => fields_fit(fields@) && total_bits(fields@) != 32,
                Err(_) => false,
            },
    {
        let n = fields.len();
        // Every field value must fit its width.
        let mut i: usize = 0;
        while i < n
            invariant
                n == fields@.len(),
                i <= n,
                fields_fit(fields@.take(i as int)),
            decreases n - i,
        {
            let f = fields[i];
            if f.bits < 64 {
                let bound = two_pow(f.bits);
                if (f.value as u64) >= bound {
                    proof {
                        if fields_fit(fields@) {
                            lemma_fields_fit_index(fields@, i as int);
                        }
                    }
                    return Err(JitError::EncodingOverflow);
                }
            }
            proof {
                lemma_take_succ(fields@, i as int);
            }
            i = i + 1;
        }
        proof {
            assert(fields@.take(n as int) =~= fields@);
        }
        // The widths must sum to exactly 32.
        let mut total: usize = 0;
        let mut i: usize = 0;
        while i < n
            invariant
                n == fields@.len(),
                i <= n,
                fields_fit(fields@),
                total == total_bits(fields@.take(i as int)),
                total <= 32,
            decreases n - i,
        {
            let f = fields[i];
            proof {
                lemma_take_succ(fields@, i as int);
            }
            if f.bits > 32 - total {
                proof {
                    lemma_total_bits_nonneg(fields@.take(i as int));
                    lemma_total_bits_prefix(fields@, i as int + 1);
                }
                return Err(JitError::EncodingShort);
            }
            total = total + f.bits;
            i = i + 1;
        }
        proof {
            assert(fields@.take(n as int) =~= fields@);
        }
        if total != 32 {
            return Err(JitError::EncodingShort);
        }
        // Pack.
        let mut w: u64 = 0;
        let mut i: usize = 0;
        while i < n
            invariant
                n == fields@.len(),
                i <= n,
                fields_fit(fields@),
                total_bits(fields@) == 32,
                w == pack_fields(fields@.take(i as int)),
            decreases n - i,
        {
            let f = fields[i];
            proof {
                lemma_take_succ(fields@, i as int);
                lemma_total_bits_nonneg(fields@.take(i as int));
                lemma_total_bits_prefix(fields@, i as int + 1);
                lemma_fields_fit_prefix(fields@, i as int + 1);
                lemma_pack_fields_bound(fields@.take(i as int + 1));
                lemma_pow2_le_32(total_bits(fields@.take(i as int + 1)) as nat);
            }
            let factor = two_pow(f.bits);
            proof {
                let s1 = fields@.take(i as int + 1);
                assert(pack_fields(s1) == w * pow2(f.bits as nat) + f.value);
            }
            w = w * factor + (f.value as u64);
            i = i + 1;
        }
        proof {
            assert(fields@.take(n as int) =~= fields@);
            lemma_pack_fields_bound(fields@);
            lemma2_to64();
        }
        Ok(w as u32)
    }
}

/// If every element fits, the whole list fits.
proof fn lemma_fields_fit_all(s: Seq<BitIndex>)
    requires
        forall|k: int| 0 <= k < s.len() ==> field_fits(s[k]),
    ensures
        fields_fit(s),
    decreases s.len(),
{
    if s.len() > 0 {
        lemma_fields_fit_all(s.drop_last());
    }
}

proof fn lemma_pow2_le_32(e: nat)
    requires
        e <= 32,
    ensures
        pow2(e) <= 0x1_0000_0000,
{
    lemma2_to64();
    if e < 32 {
        lemma_pow2_strictly_increases(e, 32);
    }
}

// Closed forms of the packer's result for the field counts the encoder uses.

proof fn lemma_fields1(s: Seq<BitIndex>)
    requires
        s.len() == 1,
    ensures
        fields_fit(s) <==> field_fits(s[0]),
        total_bits(s) == s[0].bits,
        pack_fields(s) == s[0].value,
{
    assert(s.drop_last() =~= Seq::<BitIndex>::empty());
    assert(fields_fit(Seq::<BitIndex>::empty()));
    assert(total_bits(Seq::<BitIndex>::empty()) == 0);
    assert(pack_fields(Seq::<BitIndex>::empty()) == 0);
    assert(s.last() == s[0]);
    assert(0 * pow2(s[0].bits as nat) == 0) by (nonlinear_arith);
}

pub proof fn lemma_fields2(s: Seq<BitIndex>)
    requires
        s.len() == 2,
    ensures
        fields_fit(s) <==> field_fits(s[0]) && field_fits(s[1]),
        total_bits(s) == s[0].bits + s[1].bits,
        pack_fields(s) == s[0].value * pow2(s[1].bits as nat) + s[1].value,
{
    lemma_fields1(s.drop_last());
}

pub proof fn lemma_fields3(s: Seq<BitIndex>)
    requires
        s.len() == 3,
    ensures
        fields_fit(s) <==> field_fits(s[0]) && field_fits(s[1]) && field_fits(s[2]),
        total_bits(s) == s[0].bits + s[1].bits + s[2].bits,
        pack_fields(s) == (s[0].value * pow2(s[1].bits as nat) + s[1].value) * pow2(
            s[2].bits as nat,
        ) + s[2].value,
{
    lemma_fields2(s.drop_last());
}

proof fn lemma_fields4(s: Seq<BitIndex>)
    requires
        s.len() == 4,
    ensures
        fields_fit(s) <==> field_fits(s[0]) && field_fits(s[1]) && field_fits(s[2]) && field_fits(
            s[3],
        ),
        total_bits(s) == s[0].bits + s[1].bits + s[2].bits + s[3].bits,
        pack_fields(s) == ((s[0].value * pow2(s[1].bits as nat) + s[1].value) * pow2(
            s[2].bits as nat,
        ) + s[2].value) * pow2(s[3].bits as nat) + s[3].value,
{
    lemma_fields3(s.drop_last());
}

proof fn lemma_fields5(s: Seq<BitIndex>)
    requires
        s.len() == 5,
    ensures
        fields_fit(s) <==> field_fits(s[0]) && field_fits(s[1]) && field_fits(s[2]) && field_fits(
            s[3],
        ) && field_fits(s[4]),
        total_bits(s) == s[0].bits + s[1].bits + s[2].bits + s[3].bits + s[4].bits,
        pack_fields(s) == (((s[0].value * pow2(s[1].bits as nat) + s[1].value) * pow2(
            s[2].bits as nat,
        ) + s[2].value) * pow2(s[3].bits as nat) + s[3].value) * pow2(s[4].bits as nat)
            + s[4].value,
{
    lemma_fields4(s.drop_last());
}

/// The append-only machine-code buffer, with one emit routine per supported
/// AArch64 opcode form.  Every routine lays down exactly one 32-bit word,
/// little-endian, built by the bit-field packer.
pub struct Arm64Writer {
    out: Vec<u8>,
}

impl View for Arm64Writer {
    type V = Seq<u8>;

    closed spec fn view(&self) -> Seq<u8> {
        self.out@
    }
}

impl Arm64Writer {
    /// An empty buffer.
    pub fn new() -> (w: Arm64Writer)
        ensures
            w@.len() == 0,
    {
        Arm64Writer { out: Vec::new() }
    }

    /// The buffer length in bytes.
    pub fn len(&self) -> (n: usize)
        ensures
            n == self@.len(),
    {
        self.out.len()
    }

    /// Read-only access to the emitted bytes.
    pub fn bytes(&self) -> (b: &Vec<u8>)
        ensures
            b@ == self@,
    {
        &self.out
    }

    /// Read back the 32-bit word stored little-endian at `offset`.
    pub fn read32(&self, offset: usize) -> (w: u32)
        requires
            offset + 4 <= self@.len(),
        ensures
            w == word_at(self@, offset as int),
    {
        let n = self.out.len();
        proof {
            assert(offset + 4 <= n);
        }
        let b0 = self.out[offset] as u32;
        let b1 = self.out[offset + 1] as u32;
        let b2 = self.out[offset + 2] as u32;
        let b3 = self.out[offset + 3] as u32;
        b0 | (b1 << 8) | (b2 << 16) | (b3 << 24)
    }

    /// Overwrite the 32-bit word at `offset`, little-endian.
    pub fn rewrite32(&mut self, offset: usize, value: u32)
        requires
            offset + 4 <= old(self)@.len(),
        ensures
            final(self)@ == splice_word(old(self)@, offset as int, value),
    {
        let n = self.out.len();
        proof {
            assert(offset + 4 <= n);
        }
        self.out.set(offset, value as u8);
        self.out.set(offset + 1, (value >> 8) as u8);
        self.out.set(offset + 2, (value >> 16) as u8);
        self.out.set(offset + 3, (value >> 24) as u8);
    }

    /// Append one 32-bit word, little-endian.
    fn emit32(&mut self, value: u32)
        ensures
            final(self)@ == old(self)@ + word_bytes(value),
    {
        self.out.push(value as u8);
        self.out.push((value >> 8) as u8);
        self.out.push((value >> 16) as u8);
        self.out.push((value >> 24) as u8);
        proof {
            assert(self.out@ =~= old(self).out@ + word_bytes(value));
        }
    }

    /// Pack the fields and append the resulting word.
    fn emit32_gen(&mut self, fields: &Vec<BitIndex>)
        requires
            fields_fit(fields@),
            total_bits(fields@) == 32,
        ensures
            final(self)@ == old(self)@ + word_bytes(pack_fields(fields@) as u32),
    {
        match BitwiseWriter::write(fields) {
            Ok(w) => {
                self.emit32(w);
            },
            Err(_) => {
                proof {
                    assert(false);
                }
            },
        }
    }

    /// MOV (register), 64-bit: ORR Xd, XZR, Xm.
    pub fn emit_mov_reg(&mut self, dst: Reg, src: Reg)
        ensures
            final(self)@ == old(self)@ + word_bytes(enc_mov_reg(dst.idx(), src.idx())),
    {
        let fields = vec![
            BitIndex { value: 0b10101010000, bits: 11 },
            BitIndex { value: src.num(), bits: 5 },
            BitIndex { value: 0b00000011111, bits: 11 },
            BitIndex { value: dst.num(), bits: 5 },
        ];
        proof {
            let s = fields@;
            lemma_fields4(s);
            lemma2_to64();
            let dv = dst.idx();
            let sv = src.idx();
            assert(pack_fields(s) == ((0b10101010000 * 32 + sv) * 2048 + 0b00000011111) * 32 + dv);
            assert(enc_mov_reg(dv, sv) == ((0b10101010000 * 32 + sv) * 2048 + 0b00000011111) * 32
                + dv) by (bit_vector)
                requires
                    sv < 32,
                    dv < 32,
            ;
        }
        self.emit32_gen(&fields);
    }

    /// RET (to X30).
    pub fn emit_ret(&mut self)
        ensures
            final(self)@ == old(self)@ + word_bytes(enc_ret()),
    {
        let fields = vec![
            BitIndex { value: 0b1101011001011111000000, bits: 22 },
            BitIndex { value: 0b11110, bits: 5 },
            BitIndex { value: 0, bits: 5 },
        ];
        proof {
            let s = fields@;
            lemma_fields3(s);
            lemma2_to64();
            assert(pack_fields(s) == (0b1101011001011111000000 * 32 + 0b11110) * 32);
            assert(enc_ret() == (0b1101011001011111000000 * 32 + 0b11110) * 32) by (bit_vector);
        }
        self.emit32_gen(&fields);
    }

    /// NOP.
    pub fn emit_nop(&mut self)
        ensures
            final(self)@ == old(self)@ + word_bytes(enc_nop()),
    {
        self.emit32(0b1101_0101_0000_0011_0010_0000_0001_1111);
    }

    /// MOVZ Xd, #imm16: the opening word of a 64-bit immediate load.
    fn emit_movz(&mut self, dst: Reg, imm16: usize)
        requires
            imm16 < 0x10000,
        ensures
            final(self)@ == old(self)@ + word_bytes(enc_movz(dst.idx(), imm16 as u32)),
    {
        let fields = vec![
            BitIndex { value: 0b11010010100, bits: 11 },
            BitIndex { value: imm16, bits: 16 },
            BitIndex { value: dst.num(), bits: 5 },
        ];
        proof {
            let s = fields@;
            lemma_fields3(s);
            lemma2_to64();
            let dv = dst.idx();
            let iv = imm16 as u32;
            assert(pack_fields(s) == (0b11010010100 * 0x10000 + imm16) * 32 + dv);
            assert(enc_movz(dv, iv) == (0b11010010100 * 0x10000 + iv) * 32 + dv) by (bit_vector)
                requires
                    iv < 0x10000,
                    dv < 32,
            ;
        }
        self.emit32_gen(&fields);
    }

    /// MOVK Xd, #imm16, LSL #(16*hw).
    fn emit_movk(&mut self, dst: Reg, hw: usize, imm16: usize)
        requires
            1 <= hw < 4,
            imm16 < 0x10000,
        ensures
            final(self)@ == old(self)@ + word_bytes(enc_movk(dst.idx(), hw as u32, imm16 as u32)),
    {
        let fields = vec![
            BitIndex { value: 0b111100101, bits: 9 },
            BitIndex { value: hw, bits: 2 },
            BitIndex { value: imm16, bits: 16 },
            BitIndex { value: dst.num(), bits: 5 },
        ];
        proof {
            let s = fields@;
            lemma_fields4(s);
            lemma2_to64();
            let dv = dst.idx();
            let hv = hw as u32;
            let iv = imm16 as u32;
            assert(pack_fields(s) == ((0b111100101 * 4 + hw) * 0x10000 + imm16) * 32 + dv);
            assert(enc_movk(dv, hv, iv) == ((0b111100101 * 4 + hv) * 0x10000 + iv) * 32 + dv)
                by (bit_vector)
                requires
                    hv < 4,
                    iv < 0x10000,
                    dv < 32,
            ;
        }
        self.emit32_gen(&fields);
    }

    /// Move a full 64-bit immediate into a register: MOVZ for the low
    /// halfword, then MOVK (hw = 1..3) for each further non-zero halfword.
    pub fn emit_mov_imm(&mut self, dst: Reg, imm: u64)
        ensures
            final(self)@ == old(self)@ + words_to_bytes(mov_imm_words(dst.idx(), imm)),
    {
        self.emit_movz(dst, (imm % 0x10000) as usize);
        proof {
            lemma_words_to_bytes_cons(
                enc_movz(dst.idx(), (imm % 0x10000) as u32),
                movk_words(dst.idx(), imm / 0x10000, 1),
            );
        }
        let mut rest: u64 = imm >> 16;
        let mut hw: usize = 1;
        proof {
            assert(imm >> 16 == imm / 0x10000) by (bit_vector);
            assert(old(self)@ + words_to_bytes(mov_imm_words(dst.idx(), imm)) =~= self@
                + words_to_bytes(movk_words(dst.idx(), rest, hw as int)));
        }
        while rest != 0 && hw < 4
            invariant
                1 <= hw <= 4,
                old(self)@ + words_to_bytes(mov_imm_words(dst.idx(), imm)) == self@
                    + words_to_bytes(movk_words(dst.idx(), rest, hw as int)),
            decreases 4 - hw,
        {
            let ghost rest0 = rest;
            let ghost hw0 = hw as int;
            let ghost buf0 = self@;
            let piece = (rest % 0x10000) as usize;
            self.emit_movk(dst, hw, piece);
            rest = rest >> 16;
            hw = hw + 1;
            proof {
                assert(rest0 >> 16 == rest0 / 0x10000) by (bit_vector);
                let w = enc_movk(dst.idx(), hw0 as u32, (rest0 % 0x10000) as u32);
                assert(movk_words(dst.idx(), rest0, hw0) == seq![w] + movk_words(
                    dst.idx(),
                    rest,
                    hw as int,
                ));
                lemma_words_to_bytes_cons(w, movk_words(dst.idx(), rest, hw as int));
                assert(buf0 + (word_bytes(w) + words_to_bytes(
                    movk_words(dst.idx(), rest, hw as int),
                )) =~= (buf0 + word_bytes(w)) + words_to_bytes(
                    movk_words(dst.idx(), rest, hw as int),
                ));
            }
        }
        proof {
            assert(movk_words(dst.idx(), rest, hw as int) =~= Seq::<u32>::empty());
            assert(self@ + words_to_bytes(Seq::<u32>::empty()) =~= self@);
        }
    }

    /// STR Xt, [Xn, #imm12]: store `src` at the base register plus the
    /// scaled 12-bit offset.
    pub fn emit_str(&mut self, dst: Reg, dst_offset: usize, src: Reg)
        requires
            dst_offset < 4096,
        ensures
            final(self)@ == old(self)@ + word_bytes(
                enc_str(dst.idx(), dst_offset as u32, src.idx()),
            ),
    {
        let fields = vec![
            BitIndex { value: 0b1111100100, bits: 10 },
            BitIndex { value: dst_offset, bits: 12 },
            BitIndex { value: dst.num(), bits: 5 },
            BitIndex { value: src.num(), bits: 5 },
        ];
        proof {
            let s = fields@;
            lemma_fields4(s);
            lemma2_to64();
            let bv = dst.idx();
            let tv = src.idx();
            let ov = dst_offset as u32;
            assert(pack_fields(s) == ((0b1111100100 * 4096 + dst_offset) * 32 + bv) * 32 + tv);
            assert(enc_str(bv, ov, tv) == ((0b1111100100 * 4096 + ov) * 32 + bv) * 32 + tv)
                by (bit_vector)
                requires
                    ov < 4096,
                    bv < 32,
                    tv < 32,
            ;
        }
        self.emit32_gen(&fields);
    }

    /// LDR Xt, [Xn, #imm12]: load from the base register plus the scaled
    /// 12-bit offset.
    pub fn emit_ldr(&mut self, dst: Reg, src: Reg, src_offset: usize)
        requires
            src_offset < 4096,
        ensures
            final(self)@ == old(self)@ + word_bytes(
                enc_ldr(dst.idx(), src.idx(), src_offset as u32),
            ),
    {
        let fields = vec![
            BitIndex { value: 0b1111100101, bits: 10 },
            BitIndex { value: src_offset, bits: 12 },
            BitIndex { value: src.num(), bits: 5 },
            BitIndex { value: dst.num(), bits: 5 },
        ];
        proof {
            let s = fields@;
            lemma_fields4(s);
            lemma2_to64();
            let bv = src.idx();
            let tv = dst.idx();
            let ov = src_offset as u32;
            assert(pack_fields(s) == ((0b1111100101 * 4096 + src_offset) * 32 + bv) * 32 + tv);
            assert(enc_ldr(tv, bv, ov) == ((0b1111100101 * 4096 + ov) * 32 + bv) * 32 + tv)
                by (bit_vector)
                requires
                    ov < 4096,
                    bv < 32,
                    tv < 32,
            ;
        }
        self.emit32_gen(&fields);
    }

    /// CSET Xd, LT: set `dst` to 1 when the flags say signed less-than,
    /// else 0.  Encoded as CSINC Xd, XZR, XZR with the inverted condition
    /// (GE) in the condition field, as the alias prescribes.
    pub fn emit_cset(&mut self, dst: Reg)
        ensures
            final(self)@ == old(self)@ + word_bytes(enc_cset_lt(dst.idx())),
    {
        let fields = vec![
            BitIndex { value: 0b1001101010011111, bits: 16 },
            BitIndex { value: 0b1010, bits: 4 },
            BitIndex { value: 0b0111111, bits: 7 },
            BitIndex { value: dst.num(), bits: 5 },
        ];
        proof {
            let s = fields@;
            lemma_fields4(s);
            lemma2_to64();
            let dv = dst.idx();
            assert(pack_fields(s) == ((0b1001101010011111 * 16 + 0b1010) * 128 + 0b0111111) * 32
                + dv);
            assert(enc_cset_lt(dv) == ((0b1001101010011111 * 16 + 0b1010) * 128 + 0b0111111) * 32
                + dv) by (bit_vector)
                requires
                    dv < 32,
            ;
        }
        self.emit32_gen(&fields);
    }

    /// ADD Xd, Xn, #imm12.
    pub fn emit_add(&mut self, dst: Reg, src: Reg, value: u16)
        requires
            value < 4096,
        ensures
            final(self)@ == old(self)@ + word_bytes(enc_add(dst.idx(), src.idx(), value as u32)),
    {
        let fields = vec![
            BitIndex { value: 0b1001000100, bits: 10 },
            BitIndex { value: value as usize, bits: 12 },
            BitIndex { value: src.num(), bits: 5 },
            BitIndex { value: dst.num(), bits: 5 },
        ];
        proof {
            let s = fields@;
            lemma_fields4(s);
            lemma2_to64();
            let dv = dst.idx();
            let sv = src.idx();
            let iv = value as u32;
            assert(pack_fields(s) == ((0b1001000100 * 4096 + value) * 32 + sv) * 32 + dv);
            assert(enc_add(dv, sv, iv) == ((0b1001000100 * 4096 + iv) * 32 + sv) * 32 + dv)
                by (bit_vector)
                requires
                    iv < 4096,
                    sv < 32,
                    dv < 32,
            ;
        }
        self.emit32_gen(&fields);
    }

    /// SUB Xd, Xn, #imm12.
    pub fn emit_sub(&mut self, dst: Reg, src: Reg, value: u16)
        requires
            value < 4096,
        ensures
            final(self)@ == old(self)@ + word_bytes(enc_sub(dst.idx(), src.idx(), value as u32)),
    {
        let fields = vec![
            BitIndex { value: 0b1101000100, bits: 10 },
            BitIndex { value: value as usize, bits: 12 },
            BitIndex { value: src.num(), bits: 5 },
            BitIndex { value: dst.num(), bits: 5 },
        ];
        proof {
            let s = fields@;
            lemma_fields4(s);
            lemma2_to64();
            let dv = dst.idx();
            let sv = src.idx();
            let iv = value as u32;
            assert(pack_fields(s) == ((0b1101000100 * 4096 + value) * 32 + sv) * 32 + dv);
            assert(enc_sub(dv, sv, iv) == ((0b1101000100 * 4096 + iv) * 32 + sv) * 32 + dv)
                by (bit_vector)
                requires
                    iv < 4096,
                    sv < 32,
                    dv < 32,
            ;
        }
        self.emit32_gen(&fields);
    }

    /// Push one register: make a 16-byte stack slot and store into it.
    pub fn emit_push(&mut self, src: Reg)
        ensures
            final(self)@ == old(self)@ + word_bytes(enc_sub(31, 31, 16)) + word_bytes(
                enc_str(31, 0, src.idx()),
            ),
    {
        self.emit_sub(Reg::SP, Reg::SP, 16);
        self.emit_str(Reg::SP, 0, src);
    }

    /// Pop one 16-byte stack slot, optionally loading its value first.
    pub fn emit_pop(&mut self, dst: Option<Reg>)
        ensures
            final(self)@ == match dst {
                Some(d) => old(self)@ + word_bytes(enc_ldr(d.idx(), 31, 0)) + word_bytes(
                    enc_add(31, 31, 16),
                ),
                None => old(self)@ + word_bytes(enc_add(31, 31, 16)),
            },
    {
        if let Some(d) = dst {
            self.emit_ldr(d, Reg::SP, 0);
        }
        self.emit_add(Reg::SP, Reg::SP, 16);
    }

    /// B with the given raw 26-bit word-offset field.
    pub fn emit_branch(&mut self, addr_offset: usize)
        requires
            addr_offset < 0x400_0000,
        ensures
            final(self)@ == old(self)@ + word_bytes(enc_b_raw(addr_offset as u32)),
    {
        let fields = vec![
            BitIndex { value: 0b000101, bits: 6 },
            BitIndex { value: addr_offset, bits: 26 },
        ];
        proof {
            let s = fields@;
            lemma_fields2(s);
            lemma2_to64();
            let ov = addr_offset as u32;
            assert(pack_fields(s) == 0b000101 * 0x400_0000 + addr_offset);
            assert(enc_b_raw(ov) == 0b000101 * 0x400_0000 + ov) by (bit_vector)
                requires
                    ov < 0x400_0000,
            ;
        }
        self.emit32_gen(&fields);
    }

    /// BLR Xn: branch with link to the address in a register.
    pub fn emit_branch_with_link(&mut self, target: Reg)
        ensures
            final(self)@ == old(self)@ + word_bytes(enc_blr(target.idx())),
    {
        let fields = vec![
            BitIndex { value: 0b1101011000111111000000, bits: 22 },
            BitIndex { value: target.num(), bits: 5 },
            BitIndex { value: 0, bits: 5 },
        ];
        proof {
            let s = fields@;
            lemma_fields3(s);
            lemma2_to64();
            let tv = target.idx();
            assert(pack_fields(s) == (0b1101011000111111000000 * 32 + tv) * 32);
            assert(enc_blr(tv) == (0b1101011000111111000000 * 32 + tv) * 32) by (bit_vector)
                requires
                    tv < 32,
            ;
        }
        self.emit32_gen(&fields);
    }

    /// B.EQ with the given raw 19-bit word-offset field.
    pub fn emit_branch_eq(&mut self, imm19: usize)
        requires
            imm19 < 0x8_0000,
        ensures
            final(self)@ == old(self)@ + word_bytes(enc_beq(imm19 as u32)),
    {
        let fields = vec![
            BitIndex { value: 0b01010100, bits: 8 },
            BitIndex { value: imm19, bits: 19 },
            BitIndex { value: 0, bits: 5 },
        ];
        proof {
            let s = fields@;
            lemma_fields3(s);
            lemma2_to64();
            let ov = imm19 as u32;
            assert(pack_fields(s) == (0b01010100 * 0x8_0000 + imm19) * 32);
            assert(enc_beq(ov) == (0b01010100 * 0x8_0000 + ov) * 32) by (bit_vector)
                requires
                    ov < 0x8_0000,
            ;
        }
        self.emit32_gen(&fields);
    }

    /// CMP Xn, Xm or CMP Xn, #imm12: SUBS with the zero register as
    /// destination.
    pub fn emit_cmp(&mut self, lhs: Reg, rhs: Operand)
        requires
            match rhs {
                Operand::Imm64(imm) => imm < 4096,
                Operand::Mem64BaseAndOffset(_, _) => false,
                Operand::Reg(_) => true,
            },
        ensures
            final(self)@ == old(self)@ + word_bytes(cmp_word(lhs, rhs)),
    {
        match rhs {
            Operand::Reg(rhs) => {
                let fields = vec![
                    BitIndex { value: 0b11101011000, bits: 11 },
                    BitIndex { value: rhs.num(), bits: 5 },
                    BitIndex { value: 0, bits: 6 },
                    BitIndex { value: lhs.num(), bits: 5 },
                    BitIndex { value: 0b11111, bits: 5 },
                ];
                proof {
                    let s = fields@;
                    lemma_fields5(s);
                    lemma2_to64();
                    let nv = lhs.idx();
                    let mv = rhs.idx();
                    assert(pack_fields(s) == (((0b11101011000 * 32 + mv) * 64) * 32 + nv) * 32
                        + 0b11111);
                    assert(enc_cmp_reg(nv, mv) == (((0b11101011000 * 32 + mv) * 64) * 32 + nv) * 32
                        + 0b11111) by (bit_vector)
                        requires
                            nv < 32,
                            mv < 32,
                    ;
                }
                self.emit32_gen(&fields);
            },
            Operand::Imm64(imm) => {
                let fields = vec![
                    BitIndex { value: 0b1111000100, bits: 10 },
                    BitIndex { value: imm as usize, bits: 12 },
                    BitIndex { value: lhs.num(), bits: 5 },
                    BitIndex { value: 0b11111, bits: 5 },
                ];
                proof {
                    let s = fields@;
                    lemma_fields4(s);
                    lemma2_to64();
                    let nv = lhs.idx();
                    let iv = imm as u32;
                    assert(pack_fields(s) == ((0b1111000100 * 4096 + imm) * 32 + nv) * 32
                        + 0b11111);
                    assert(enc_cmp_imm(nv, iv) == ((0b1111000100 * 4096 + iv) * 32 + nv) * 32
                        + 0b11111) by (bit_vector)
                        requires
                            iv < 4096,
                            nv < 32,
                    ;
                }
                self.emit32_gen(&fields);
            },
            Operand::Mem64BaseAndOffset(_, _) => {
                proof {
                    assert(false);
                }
            },
        }
    }

    /// ADD Xd, Xd, #1: add one to the value in `dst`.
    pub fn emit_incr(&mut self, dst: Reg)
        ensures
            final(self)@ == old(self)@ + word_bytes(enc_add(dst.idx(), dst.idx(), 1)),
    {
        self.emit_add(dst, dst, 1);
    }

    /// BRK #imm16.
    pub fn emit_brk(&mut self, imm16: u16)
        ensures
            final(self)@ == old(self)@ + word_bytes(enc_brk(imm16 as u32)),
    {
        let fields = vec![
            BitIndex { value: 0b11010100001, bits: 11 },
            BitIndex { value: imm16 as usize, bits: 16 },
            BitIndex { value: 0, bits: 5 },
        ];
        proof {
            let s = fields@;
            lemma_fields3(s);
            lemma2_to64();
            let iv = imm16 as u32;
            assert(pack_fields(s) == (0b11010100001 * 0x10000 + imm16) * 32);
            assert(enc_brk(iv) == (0b11010100001 * 0x10000 + iv) * 32) by (bit_vector)
                requires
                    iv < 0x10000,
            ;
        }
        self.emit32_gen(&fields);
    }
}

/// The word emitted for a compare, by operand form.
pub open spec fn cmp_word(lhs: Reg, rhs: Operand) -> u32 {
    match rhs {
        Operand::Reg(r) => enc_cmp_reg(lhs.idx(), r.idx()),
        Operand::Imm64(imm) => enc_cmp_imm(lhs.idx(), imm as u32),
        Operand::Mem64BaseAndOffset(_, _) => 0,
    }
}

/// Where an assembler operation reads from or writes to: a register, an
/// immediate, or a memory slot at a register base plus a scaled offset.
#[derive(Clone, Copy, Debug)]
pub enum Operand {
    Reg(Reg),
    Imm64(u64),
    Mem64BaseAndOffset(Reg, usize),
}

/// The raw 26-bit field emitted into an unlinked B; the linker overwrites
/// it.
pub const B_PLACEHOLDER: usize = 0xdeadaf;

/// The raw 19-bit field emitted into an unlinked B.cond; the linker
/// overwrites it.
pub const BEQ_PLACEHOLDER: usize = 0xdead;

/// The operand pairs `mov` accepts, with their machine limits.
pub open spec fn mov_ok(dst: Operand, src: Operand) -> bool {
    match (dst, src) {
        (Operand::Reg(_), Operand::Reg(_)) => true,
        (Operand::Reg(_), Operand::Imm64(_)) => true,
        (Operand::Mem64BaseAndOffset(_, off), Operand::Reg(_)) => off < 4096,
        (Operand::Reg(_), Operand::Mem64BaseAndOffset(_, off)) => off < 4096,
        _ => false,
    }
}

/// The bytes `mov` emits for each accepted operand pair.
pub open spec fn mov_bytes(dst: Operand, src: Operand) -> Seq<u8> {
    match (dst, src) {
        (Operand::Reg(d), Operand::Reg(s)) => word_bytes(enc_mov_reg(d.idx(), s.idx())),
        (Operand::Reg(d), Operand::Imm64(imm)) => words_to_bytes(mov_imm_words(d.idx(), imm)),
        (Operand::Mem64BaseAndOffset(b, off), Operand::Reg(s)) => word_bytes(
            enc_str(b.idx(), off as u32, s.idx()),
        ),
        (Operand::Reg(d), Operand::Mem64BaseAndOffset(b, off)) => word_bytes(
            enc_ldr(d.idx(), b.idx(), off as u32),
        ),
        _ => Seq::empty(),
    }
}

/// The bytes of one register push: open a 16-byte stack slot, store into
/// it.
pub open spec fn push_bytes(r: u32) -> Seq<u8> {
    word_bytes(enc_sub(31, 31, 16)) + word_bytes(enc_str(31, 0, r))
}

/// The bytes of one register pop: load from the slot, close it.
pub open spec fn pop_some_bytes(r: u32) -> Seq<u8> {
    word_bytes(enc_ldr(r, 31, 0)) + word_bytes(enc_add(31, 31, 16))
}

/// The bytes of a discarding pop: close the slot without loading.
pub open spec fn pop_none_bytes() -> Seq<u8> {
    word_bytes(enc_add(31, 31, 16))
}

/// The full sequence `call_into_rust` emits: save the fixed registers, set
/// up the argument and the callee address, BLR, fetch the return value,
/// restore.
pub open spec fn call_into_rust_bytes(dst: Reg, func: Func) -> Seq<u8> {
    match func {
        Func::FnSingleInt64WithReturnInt64(addr, arg0) => push_bytes(0) + push_bytes(1)
            + push_bytes(2) + push_bytes(4) + push_bytes(5) + push_bytes(30) + words_to_bytes(
            mov_imm_words(0, arg0),
        ) + words_to_bytes(mov_imm_words(5, addr)) + word_bytes(enc_blr(5)) + word_bytes(
            enc_mov_reg(4, 0),
        ) + pop_some_bytes(30) + pop_some_bytes(5) + (if dst != Reg::GPR0 {
            word_bytes(enc_mov_reg(dst.idx(), 4)) + pop_some_bytes(4)
        } else {
            pop_none_bytes()
        }) + pop_some_bytes(2) + pop_some_bytes(1) + pop_some_bytes(0),
    }
}

/// The assembler facade: the semantically named operations the lowering
/// pass emits, over the raw opcode writer.
pub struct Assembler {
    output: Arm64Writer,
}

impl View for Assembler {
    type V = Seq<u8>;

    closed spec fn view(&self) -> Seq<u8> {
        self.output@
    }
}

impl Default for Assembler {
    /// An assembler with an empty code buffer.
    fn default() -> (r: Assembler)
        ensures
            r@.len() == 0,
    {
        Assembler { output: Arm64Writer::new() }
    }
}

impl Assembler {
    /// The current buffer length in bytes.
    pub fn len(&self) -> (n: usize)
        ensures
            n == self@.len(),
    {
        self.output.len()
    }

    /// Read-only access to the emitted bytes.
    pub fn bytes(&self) -> (b: &Vec<u8>)
        ensures
            b@ == self@,
    {
        self.output.bytes()
    }

    /// Load a full 64-bit immediate into `dst`.
    pub fn load_immediate64(&mut self, dst: Reg, imm: u64)
        ensures
            final(self)@ == old(self)@ + words_to_bytes(mov_imm_words(dst.idx(), imm)),
    {
        self.mov(Operand::Reg(dst), Operand::Imm64(imm));
    }

    /// Store `src` into VM register slot `dst`.
    pub fn store_vm_register(&mut self, dst: VMRegister, src: Reg)
        requires
            dst.0 < 4096,
        ensures
            final(self)@ == old(self)@ + word_bytes(enc_str(1, dst.0 as u32, src.idx())),
    {
        self.mov(Operand::Mem64BaseAndOffset(Reg::RegisterArrayBase, dst.0), Operand::Reg(src));
    }

    /// Load VM register slot `src` into `dst`.
    pub fn load_vm_register(&mut self, dst: Reg, src: VMRegister)
        requires
            src.0 < 4096,
        ensures
            final(self)@ == old(self)@ + word_bytes(enc_ldr(dst.idx(), 1, src.0 as u32)),
    {
        self.mov(Operand::Reg(dst), Operand::Mem64BaseAndOffset(Reg::RegisterArrayBase, src.0));
    }

    /// Store `src` into VM local slot `dst`.
    pub fn store_vm_local(&mut self, dst: VMLocal, src: Reg)
        requires
            dst.0 < 4096,
        ensures
            final(self)@ == old(self)@ + word_bytes(enc_str(2, dst.0 as u32, src.idx())),
    {
        self.mov(Operand::Mem64BaseAndOffset(Reg::LocalsArrayBase, dst.0), Operand::Reg(src));
    }

    /// Load VM local slot `src` into `dst`.
    pub fn load_vm_local(&mut self, dst: Reg, src: VMLocal)
        requires
            src.0 < 4096,
        ensures
            final(self)@ == old(self)@ + word_bytes(enc_ldr(dst.idx(), 2, src.0 as u32)),
    {
        self.mov(Operand::Reg(dst), Operand::Mem64BaseAndOffset(Reg::LocalsArrayBase, src.0));
    }

    /// Add one to the value in `dst`.
    pub fn increment(&mut self, dst: Reg)
        ensures
            final(self)@ == old(self)@ + word_bytes(enc_add(dst.idx(), dst.idx(), 1)),
    {
        self.output.emit_incr(dst);
    }

    /// Compare `src` against `dst` and set `dst` to 1 when `src` is signed
    /// less than `dst`, else 0.  The result overwrites `dst`.
    pub fn less_than(&mut self, dst: Reg, src: Reg)
        ensures
            final(self)@ == old(self)@ + word_bytes(enc_cmp_reg(src.idx(), dst.idx()))
                + word_bytes(enc_cset_lt(dst.idx())),
    {
        self.output.emit_cmp(src, Operand::Reg(dst));
        self.output.emit_cset(dst);
    }

    /// Emit a placeholder unconditional branch and record its site in the
    /// target block, for the linker to resolve.
    pub fn jump(&mut self, target: &BlockTarget, program: &mut Program)
        requires
            target.0 < old(program).blocks@.len(),
        ensures
            final(self)@ == old(self)@ + word_bytes(enc_b_raw(B_PLACEHOLDER as u32)),
            final(program).blocks@.len() == old(program).blocks@.len(),
            forall|i: int|
                0 <= i < old(program).blocks@.len() && i != target.0 ==> final(program).blocks@[i]
                    == old(program).blocks@[i],
            final(program).blocks@[target.0 as int].jumps_to_here@ == old(
                program,
            ).blocks@[target.0 as int].jumps_to_here@.push(old(self)@.len() as usize),
            final(program).blocks@[target.0 as int].instructions@ == old(
                program,
            ).blocks@[target.0 as int].instructions@,
            final(program).blocks@[target.0 as int].offset == old(
                program,
            ).blocks@[target.0 as int].offset,
    {
        self.output.emit_branch(B_PLACEHOLDER);
        let pos = self.len();
        target.insert_jump_marker(program, pos);
    }

    /// Compare `reg` against zero, emit a placeholder B.EQ recorded in the
    /// false target, then a placeholder B recorded in the true target.
    pub fn jump_conditional(
        &mut self,
        reg: Reg,
        true_target: &BlockTarget,
        false_target: &BlockTarget,
        program: &mut Program,
    )
        requires
            true_target.0 < old(program).blocks@.len(),
            false_target.0 < old(program).blocks@.len(),
        ensures
            final(self)@ == old(self)@ + word_bytes(enc_cmp_imm(reg.idx(), 0)) + word_bytes(
                enc_beq(BEQ_PLACEHOLDER as u32),
            ) + word_bytes(enc_b_raw(B_PLACEHOLDER as u32)),
            final(program).blocks@.len() == old(program).blocks@.len(),
            forall|i: int|
                0 <= i < old(program).blocks@.len() && i != true_target.0 && i != false_target.0
                    ==> final(program).blocks@[i] == old(program).blocks@[i],
            true_target.0 != false_target.0 ==> final(program).blocks@[false_target.0 as int].jumps_to_here@
                == old(program).blocks@[false_target.0 as int].jumps_to_here@.push((old(self)@.len() + 4) as usize)
                && final(program).blocks@[true_target.0 as int].jumps_to_here@
                == old(program).blocks@[true_target.0 as int].jumps_to_here@.push((old(self)@.len() + 8) as usize),
            true_target.0 == false_target.0 ==> final(program).blocks@[true_target.0 as int].jumps_to_here@
                == old(program).blocks@[true_target.0 as int].jumps_to_here@.push((old(self)@.len() + 4) as usize).push((old(self)@.len() + 8) as usize),
            forall|i: int|
                0 <= i < old(program).blocks@.len() ==> (#[trigger] final(program).blocks@[i]).instructions@
                    == old(program).blocks@[i].instructions@
                    && final(program).blocks@[i].offset == old(program).blocks@[i].offset,
    {
        self.output.emit_cmp(reg, Operand::Imm64(0));
        self.output.emit_branch_eq(BEQ_PLACEHOLDER);
        let pos = self.len();
        false_target.insert_jump_marker(program, pos);
        self.jump(true_target, program);
    }

    /// Call a host function from generated code: save the fixed registers
    /// around the call, pass the argument in X0, branch-and-link through
    /// X5, and land the returned X0 in `dst`.
    #[verifier::spinoff_prover]
    #[verifier::rlimit(100)]
    pub fn call_into_rust(&mut self, dst: Reg, func: Func)
        ensures
            final(self)@ == old(self)@ + call_into_rust_bytes(dst, func),
    {
        match func {
            Func::FnSingleInt64WithReturnInt64(addr, arg0) => {
                self.output.emit_push(Reg::VmStructBase);
                self.output.emit_push(Reg::RegisterArrayBase);
                self.output.emit_push(Reg::LocalsArrayBase);
                self.output.emit_push(Reg::GPR0);
                self.output.emit_push(Reg::GPR1);
                self.output.emit_push(Reg::RET);

                self.output.emit_mov_imm(Reg::VmStructBase, arg0);
                self.output.emit_mov_imm(Reg::GPR1, addr);
                self.output.emit_branch_with_link(Reg::GPR1);
                self.output.emit_mov_reg(Reg::GPR0, Reg::VmStructBase);

                self.output.emit_pop(Some(Reg::RET));
                self.output.emit_pop(Some(Reg::GPR1));
                if !matches!(dst, Reg::GPR0) {
                    self.output.emit_mov_reg(dst, Reg::GPR0);
                    self.output.emit_pop(Some(Reg::GPR0));
                } else {
                    self.output.emit_pop(None);
                }
                self.output.emit_pop(Some(Reg::LocalsArrayBase));
                self.output.emit_pop(Some(Reg::RegisterArrayBase));
                self.output.emit_pop(Some(Reg::VmStructBase));
                proof {
                    assert(self@ =~= old(self)@ + call_into_rust_bytes(dst, func));
                }
            },
        }
    }

    /// BRK #0.
    pub fn brk(&mut self)
        ensures
            final(self)@ == old(self)@ + word_bytes(enc_brk(0)),
    {
        self.output.emit_brk(0);
    }

    /// Return from the generated function.
    pub fn ret(&mut self)
        ensures
            final(self)@ == old(self)@ + word_bytes(enc_ret()),
    {
        self.output.emit_ret();
    }

    /// Emit a NOP.
    pub fn no_op(&mut self)
        ensures
            final(self)@ == old(self)@ + word_bytes(enc_nop()),
    {
        self.output.emit_nop();
    }

    /// Overwrite the 32-bit word at `offset`; the linker's write-back.
    pub fn rewrite_instr32(&mut self, offset: usize, value: u32)
        requires
            offset + 4 <= old(self)@.len(),
        ensures
            final(self)@ == splice_word(old(self)@, offset as int, value),
    {
        self.output.rewrite32(offset, value);
    }

    /// Read the 32-bit word at `offset`; the linker's decode step.
    pub fn read_instr32(&self, offset: usize) -> (w: u32)
        requires
            offset + 4 <= self@.len(),
        ensures
            w == word_at(self@, offset as int),
    {
        self.output.read32(offset)
    }

    /// Emit the move for any accepted operand pair.
    fn mov(&mut self, dst: Operand, src: Operand)
        requires
            mov_ok(dst, src),
        ensures
            final(self)@ == old(self)@ + mov_bytes(dst, src),
    {
        match (dst, src) {
            (Operand::Reg(d), Operand::Reg(s)) => {
                self.output.emit_mov_reg(d, s);
            },
            (Operand::Reg(d), Operand::Imm64(imm)) => {
                self.output.emit_mov_imm(d, imm);
            },
            (Operand::Mem64BaseAndOffset(b, off), Operand::Reg(s)) => {
                self.output.emit_str(b, off, s);
            },
            (Operand::Reg(d), Operand::Mem64BaseAndOffset(b, off)) => {
                self.output.emit_ldr(d, b, off);
            },
            _ => {
                proof {
                    assert(false);
                }
            },
        }
    }
}

} // verus!
