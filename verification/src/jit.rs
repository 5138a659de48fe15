//! The code generator: the lowering pass that walks a program's blocks and
//! emits native code, and the branch linker that patches the recorded
//! placeholder branches once every block's offset is known.

use vstd::prelude::*;
use vstd::arithmetic::power2::lemma2_to64;
use vstd::arithmetic::div_mod::lemma_fundamental_div_mod_converse_div;
use vstd::arithmetic::div_mod::lemma_fundamental_div_mod;
use crate::assembler::Assembler;
use crate::assembler::BitIndex;
use crate::assembler::BitwiseWriter;
use crate::assembler::Func;
use crate::assembler::Reg;
use crate::assembler::call_into_rust_bytes;
use crate::assembler::B_PLACEHOLDER;
use crate::assembler::BEQ_PLACEHOLDER;
use crate::encoding::enc_add;
use crate::encoding::enc_b;
use crate::encoding::enc_b_raw;
use crate::encoding::enc_bcond;
use crate::encoding::enc_beq;
use crate::encoding::enc_brk;
use crate::encoding::enc_cmp_imm;
use crate::encoding::enc_cmp_reg;
use crate::encoding::enc_cset_lt;
use crate::encoding::enc_ldr;
use crate::encoding::enc_nop;
use crate::encoding::enc_ret;
use crate::encoding::enc_signed;
use crate::encoding::enc_str;
use crate::encoding::fits_signed;
use crate::encoding::mov_imm_words;
use crate::encoding::splice_word;
use crate::encoding::top6;
use crate::encoding::word_at;
use crate::encoding::word_bytes;
use crate::encoding::words_to_bytes;
use crate::encoding::OP_JEQ;
use crate::encoding::OP_JMP;
use crate::errors::JitError;
use crate::vm::Instruction;
use crate::vm::Program;
use crate::vm::VMRegister;

verus! {

/// The native code one instruction lowers to, with placeholder fields in
/// the branch words.  `rand_fn_addr` is the address of the host helper that
/// `LoadRandom` calls.
pub open spec fn inst_bytes(inst: Instruction, rand_fn_addr: u64) -> Seq<u8> {
    match inst {
        Instruction::LoadImmediate { value } => words_to_bytes(mov_imm_words(4, value.0))
            + word_bytes(enc_str(1, 0, 4)),
        Instruction::Load { reg } => word_bytes(enc_ldr(4, 1, reg.0 as u32)) + word_bytes(
            enc_str(1, 0, 4),
        ),
        Instruction::Store { reg } => word_bytes(enc_ldr(4, 1, 0)) + word_bytes(
            enc_str(1, reg.0 as u32, 4),
        ),
        Instruction::SetLocal { local } => word_bytes(enc_ldr(4, 1, 0)) + word_bytes(
            enc_str(2, local.0 as u32, 4),
        ),
        Instruction::GetLocal { local } => word_bytes(enc_ldr(4, 2, local.0 as u32)) + word_bytes(
            enc_str(1, 0, 4),
        ),
        Instruction::Increment => word_bytes(enc_ldr(4, 1, 0)) + word_bytes(enc_add(4, 4, 1))
            + word_bytes(enc_str(1, 0, 4)),
        Instruction::LessThan { lhs } => word_bytes(enc_ldr(4, 1, lhs.0 as u32)) + word_bytes(
            enc_ldr(5, 1, 0),
        ) + word_bytes(enc_cmp_reg(5, 4)) + word_bytes(enc_cset_lt(4)) + word_bytes(
            enc_str(1, 0, 4),
        ),
        Instruction::Breakpoint => word_bytes(enc_brk(0)),
        Instruction::Exit => word_bytes(enc_ret()),
        Instruction::Jump { target } => word_bytes(enc_b_raw(B_PLACEHOLDER as u32)),
        Instruction::JumpConditional { true_target, false_target } => word_bytes(enc_ldr(4, 1, 0))
            + word_bytes(enc_cmp_imm(4, 0)) + word_bytes(enc_beq(BEQ_PLACEHOLDER as u32))
            + word_bytes(enc_b_raw(B_PLACEHOLDER as u32)),
        Instruction::LoadRandom { max } => call_into_rust_bytes(
            Reg::GPR0,
            Func::FnSingleInt64WithReturnInt64(rand_fn_addr, max.0),
        ) + word_bytes(enc_str(1, 0, 4)),
    }
}

/// The instruction's operand indices fit the 12-bit offset field of the
/// loads and stores that carry them.
pub open spec fn inst_encodable(inst: Instruction) -> bool {
    match inst {
        Instruction::Load { reg } => reg.0 < 4096,
        Instruction::Store { reg } => reg.0 < 4096,
        Instruction::SetLocal { local } => local.0 < 4096,
        Instruction::GetLocal { local } => local.0 < 4096,
        Instruction::LessThan { lhs } => lhs.0 < 4096,
        _ => true,
    }
}

/// Every instruction of the program is encodable.
pub open spec fn program_encodable(p: Program) -> bool {
    forall|i: int, j: int|
        0 <= i < p.blocks@.len() && 0 <= j < p.blocks@[i].instructions@.len() ==> inst_encodable(
            #[trigger] p.blocks@[i].instructions@[j],
        )
}

/// What the lowering pass produces: the code bytes, each block's byte
/// offset, and for each block the byte offsets of the placeholder branches
/// that target it, in the order they were emitted.
pub struct CodeLayout {
    pub bytes: Seq<u8>,
    pub offsets: Seq<int>,
    pub jumps: Seq<Seq<int>>,
}

/// The layout before any block is lowered: an empty buffer and one empty
/// branch-site list per block.
pub open spec fn lower_init(n_blocks: int) -> CodeLayout {
    CodeLayout {
        bytes: Seq::empty(),
        offsets: Seq::empty(),
        jumps: Seq::new(n_blocks as nat, |t: int| Seq::<int>::empty()),
    }
}

/// Lower one instruction: append its code and record any branch sites in
/// their targets' lists.
pub open spec fn lower_inst(m: CodeLayout, inst: Instruction, rand_fn_addr: u64) -> CodeLayout {
    let at = m.bytes.len() as int;
    let bytes = m.bytes + inst_bytes(inst, rand_fn_addr);
    match inst {
        Instruction::Jump { target } => CodeLayout {
            bytes,
            offsets: m.offsets,
            jumps: m.jumps.update(target.0 as int, m.jumps[target.0 as int].push(at)),
        },
        Instruction::JumpConditional { true_target, false_target } => {
            let j1 = m.jumps.update(
                false_target.0 as int,
                m.jumps[false_target.0 as int].push(at + 8),
            );
            let j2 = j1.update(true_target.0 as int, j1[true_target.0 as int].push(at + 12));
            CodeLayout { bytes, offsets: m.offsets, jumps: j2 }
        },
        _ => CodeLayout { bytes, offsets: m.offsets, jumps: m.jumps },
    }
}

/// Lower the first `k` instructions of a block.
pub open spec fn lower_insts(
    m: CodeLayout,
    insts: Seq<Instruction>,
    k: int,
    rand_fn_addr: u64,
) -> CodeLayout
    decreases k,
{
    if k <= 0 {
        m
    } else {
        lower_inst(lower_insts(m, insts, k - 1, rand_fn_addr), insts[k - 1], rand_fn_addr)
    }
}

/// Record the next block's offset: the current buffer length.
pub open spec fn start_block(m: CodeLayout) -> CodeLayout {
    CodeLayout { bytes: m.bytes, offsets: m.offsets.push(m.bytes.len() as int), jumps: m.jumps }
}

/// Lower one whole block.
pub open spec fn lower_block(m: CodeLayout, insts: Seq<Instruction>, rand_fn_addr: u64) -> CodeLayout {
    lower_insts(start_block(m), insts, insts.len() as int, rand_fn_addr)
}

/// Lower the first `i` blocks of the program.
pub open spec fn lower_blocks(p: Program, i: int, rand_fn_addr: u64) -> CodeLayout
    decreases i,
{
    if i <= 0 {
        lower_init(p.blocks@.len() as int)
    } else {
        lower_block(
            lower_blocks(p, i - 1, rand_fn_addr),
            p.blocks@[i - 1].instructions@,
            rand_fn_addr,
        )
    }
}

/// The whole program, lowered.
pub open spec fn lowered(p: Program, rand_fn_addr: u64) -> CodeLayout {
    lower_blocks(p, p.blocks@.len() as int, rand_fn_addr)
}

/// Link one recorded branch site: decode the placeholder's opcode family
/// from its top six bits, compute the signed word delta to the target,
/// range-check it against the family's field width, and splice the patched
/// word back, preserving a B.cond's condition bits.
pub open spec fn link_site(bytes: Seq<u8>, target_off: int, site: int) -> Result<
    Seq<u8>,
    JitError,
> {
    let w = word_at(bytes, site);
    let delta = (target_off - site) / 4;
    if top6(w) == OP_JMP {
        if fits_signed(delta, 26) {
            Ok(splice_word(bytes, site, enc_b(delta)))
        } else {
            Err(JitError::BranchOutOfRange)
        }
    } else if top6(w) == OP_JEQ {
        if fits_signed(delta, 19) {
            Ok(splice_word(bytes, site, enc_bcond(delta, w & 0x1F)))
        } else {
            Err(JitError::BranchOutOfRange)
        }
    } else {
        Err(JitError::UnknownBranchOpcode)
    }
}

/// Link the sites of one target block, from index `k` on, stopping at the
/// first failure.
pub open spec fn link_sites(bytes: Seq<u8>, target_off: int, sites: Seq<int>, k: int) -> Result<
    Seq<u8>,
    JitError,
>
    decreases sites.len() - k,
{
    if k >= sites.len() {
        Ok(bytes)
    } else {
        match link_site(bytes, target_off, sites[k]) {
            Ok(b) => link_sites(b, target_off, sites, k + 1),
            Err(e) => Err(e),
        }
    }
}

/// Link every recorded site of every block, from block `t` on.
pub open spec fn link_blocks(bytes: Seq<u8>, m: CodeLayout, t: int) -> Result<Seq<u8>, JitError>
    decreases m.jumps.len() - t,
{
    if t >= m.jumps.len() {
        Ok(bytes)
    } else {
        match link_sites(bytes, m.offsets[t], m.jumps[t], 0) {
            Ok(b) => link_blocks(b, m, t + 1),
            Err(e) => Err(e),
        }
    }
}

/// What `Jit::compile` produces for a program: the lowered code with every
/// branch linked, or the first error of the pass.
pub open spec fn compiled_bytes(p: Program, rand_fn_addr: u64) -> Result<Seq<u8>, JitError> {
    if !program_encodable(p) {
        Err(JitError::EncodingOverflow)
    } else {
        link_blocks(lowered(p, rand_fn_addr).bytes, lowered(p, rand_fn_addr), 0)
    }
}

/// Structural facts the lowering pass guarantees: the buffer holds whole
/// words, block offsets lie word-aligned inside it, and every recorded
/// branch site names a whole word inside it.
pub open spec fn layout_wf(m: CodeLayout) -> bool {
    &&& m.bytes.len() % 4 == 0
    &&& forall|t: int|
        0 <= t < m.offsets.len() ==> 0 <= #[trigger] m.offsets[t] <= m.bytes.len()
            && m.offsets[t] % 4 == 0
    &&& forall|t: int, k: int|
        0 <= t < m.jumps.len() && 0 <= k < m.jumps[t].len() ==> 0 <= #[trigger] m.jumps[t][k]
            && m.jumps[t][k] + 4 <= m.bytes.len() && m.jumps[t][k] % 4 == 0
}

/// Every lowering produces code whose length is a whole number of words.
pub proof fn lemma_inst_bytes_mod4(inst: Instruction, rand_fn_addr: u64)
    ensures
        inst_bytes(inst, rand_fn_addr).len() % 4 == 0,
{
    match inst {
        Instruction::LoadImmediate { value } => {
            crate::encoding::lemma_words_to_bytes_len(mov_imm_words(4, value.0));
        },
        Instruction::LoadRandom { max } => {
            let f = Func::FnSingleInt64WithReturnInt64(rand_fn_addr, max.0);
            crate::encoding::lemma_words_to_bytes_len(mov_imm_words(0, max.0));
            crate::encoding::lemma_words_to_bytes_len(mov_imm_words(5, rand_fn_addr));
        },
        _ => {},
    }
}

proof fn lemma_lower_inst_wf(m: CodeLayout, inst: Instruction, rand_fn_addr: u64)
    requires
        layout_wf(m),
        inst matches Instruction::Jump { target } ==> target.0 < m.jumps.len(),
        inst matches Instruction::JumpConditional { true_target, false_target } ==> true_target.0
            < m.jumps.len() && false_target.0 < m.jumps.len(),
    ensures
        layout_wf(lower_inst(m, inst, rand_fn_addr)),
        lower_inst(m, inst, rand_fn_addr).bytes.len() == m.bytes.len() + inst_bytes(
            inst,
            rand_fn_addr,
        ).len(),
        lower_inst(m, inst, rand_fn_addr).offsets == m.offsets,
        lower_inst(m, inst, rand_fn_addr).jumps.len() == m.jumps.len(),
{
    lemma_inst_bytes_mod4(inst, rand_fn_addr);
    match inst {
        Instruction::Jump { target } => {
            assert(inst_bytes(inst, rand_fn_addr).len() == 4);
        },
        Instruction::JumpConditional { true_target, false_target } => {
            assert(inst_bytes(inst, rand_fn_addr).len() == 16);
        },
        _ => {},
    }
}

/// Mapping a `usize` sequence into the integers, element by element.
pub open spec fn usizes_as_ints(s: Seq<usize>) -> Seq<int> {
    s.map_values(|x: usize| x as int)
}

proof fn lemma_usizes_as_ints_push(s: Seq<usize>, x: usize)
    ensures
        usizes_as_ints(s.push(x)) == usizes_as_ints(s).push(x as int),
{
    assert(usizes_as_ints(s.push(x)) =~= usizes_as_ints(s).push(x as int));
}

/// The word at this site already links to this target: relinking it
/// changes nothing.
pub open spec fn site_linked(b: Seq<u8>, target_off: int, site: int) -> bool {
    link_site(b, target_off, site) == Ok::<Seq<u8>, JitError>(b)
}

/// Every recorded site names a whole word of a buffer of length `b_len`,
/// and no site is recorded twice: each emitted branch is recorded in
/// exactly one target's list.
pub open spec fn sites_wf(b_len: int, m: CodeLayout) -> bool {
    &&& forall|t: int, k: int|
        0 <= t < m.jumps.len() && 0 <= k < m.jumps[t].len() ==> 0 <= #[trigger] m.jumps[t][k]
            && m.jumps[t][k] + 4 <= b_len && m.jumps[t][k] % 4 == 0
    &&& forall|t1: int, k1: int, t2: int, k2: int|
        #![trigger m.jumps[t1][k1], m.jumps[t2][k2]]
        0 <= t1 < m.jumps.len() && 0 <= k1 < m.jumps[t1].len() && 0 <= t2 < m.jumps.len() && 0
            <= k2 < m.jumps[t2].len() && (t1 != t2 || k1 != k2) ==> m.jumps[t1][k1]
            != m.jumps[t2][k2]
}

/// Two distinct word-aligned offsets are at least a word apart.
proof fn lemma_aligned_distinct_disjoint(a: int, b: int)
    requires
        a % 4 == 0,
        b % 4 == 0,
        a != b,
    ensures
        a + 4 <= b || b + 4 <= a,
{
    lemma_fundamental_div_mod(a, 4);
    lemma_fundamental_div_mod(b, 4);
}

/// A successful link leaves the site linked: reading the patched word back
/// decodes to the same family and splices the same word again.
proof fn lemma_link_site_ok(b: Seq<u8>, toff: int, site: int)
    requires
        0 <= site,
        site + 4 <= b.len(),
        link_site(b, toff, site) is Ok,
    ensures
        link_site(b, toff, site) matches Ok(b2) && b2.len() == b.len() && site_linked(
            b2,
            toff,
            site,
        ),
{
    lemma2_to64();
    let w = word_at(b, site);
    let delta = (toff - site) / 4;
    if top6(w) == OP_JMP {
        crate::encoding::lemma_enc_signed_bound(delta, 26);
        let w2 = enc_b(delta);
        let iv = enc_signed(delta, 26) as u32;
        assert((0x14000000u32 | iv) >> 26 == 0b000101) by (bit_vector)
            requires
                iv < 0x400_0000,
        ;
        crate::encoding::lemma_word_at_splice(b, site, w2);
        let b2 = splice_word(b, site, w2);
        crate::encoding::lemma_splice_word_at_same(b2, site);
    } else {
        crate::encoding::lemma_enc_signed_bound(delta, 19);
        let l = w & 0x1F;
        assert((w & 0x1F) < 32) by (bit_vector);
        let w2 = enc_bcond(delta, l);
        let iv = enc_signed(delta, 19) as u32;
        assert((0x54000000u32 | (iv << 5) | l) >> 26 == 0b010101 && (0x54000000u32 | (iv << 5) | l)
            & 0x1F == l) by (bit_vector)
            requires
                iv < 0x8_0000,
                l < 32,
        ;
        crate::encoding::lemma_word_at_splice(b, site, w2);
        let b2 = splice_word(b, site, w2);
        crate::encoding::lemma_splice_word_at_same(b2, site);
    }
}

/// Linking one site is idempotent: after a successful link, linking the
/// same site to the same target again changes nothing.  The patched word
/// depends only on the target and site offsets and the opcode family, not
/// on the immediate bits it replaced.
pub proof fn lemma_link_site_idempotent(bytes: Seq<u8>, target_off: int, site: int)
    requires
        0 <= site,
        site + 4 <= bytes.len(),
        link_site(bytes, target_off, site) is Ok,
    ensures
        link_site(bytes, target_off, site) matches Ok(b2) && link_site(b2, target_off, site)
            == Ok::<Seq<u8>, JitError>(b2),
{
    lemma_link_site_ok(bytes, target_off, site);
}

/// A linked site stays linked in any same-length buffer that holds the
/// same word there.
proof fn lemma_site_linked_same_word(b1: Seq<u8>, b2: Seq<u8>, toff: int, site: int)
    requires
        0 <= site,
        site + 4 <= b1.len(),
        b2.len() == b1.len(),
        site_linked(b1, toff, site),
        word_at(b2, site) == word_at(b1, site),
    ensures
        site_linked(b2, toff, site),
{
    lemma2_to64();
    let w = word_at(b1, site);
    let delta = (toff - site) / 4;
    if top6(w) == OP_JMP {
        crate::encoding::lemma_word_at_splice(b1, site, enc_b(delta));
        assert(word_at(b1, site) == enc_b(delta));
        crate::encoding::lemma_splice_word_at_same(b2, site);
    } else if top6(w) == OP_JEQ {
        crate::encoding::lemma_word_at_splice(b1, site, enc_bcond(delta, w & 0x1F));
        assert(word_at(b1, site) == enc_bcond(delta, w & 0x1F));
        crate::encoding::lemma_splice_word_at_same(b2, site);
    }
}

/// The link pass over one target's list: every listed site ends up linked,
/// and every word outside the listed sites is untouched.
proof fn lemma_link_sites_pass(b0: Seq<u8>, toff: int, sites: Seq<int>, k: int)
    requires
        0 <= k <= sites.len(),
        forall|k2: int|
            0 <= k2 < sites.len() ==> 0 <= #[trigger] sites[k2] && sites[k2] + 4 <= b0.len()
                && sites[k2] % 4 == 0,
        forall|k1: int, k2: int|
            #![trigger sites[k1], sites[k2]]
            0 <= k1 < sites.len() && 0 <= k2 < sites.len() && k1 != k2 ==> sites[k1] != sites[k2],
        link_sites(b0, toff, sites, k) is Ok,
    ensures
        link_sites(b0, toff, sites, k) matches Ok(b1) && b1.len() == b0.len() && (forall|k2: int|
            k <= k2 < sites.len() ==> site_linked(b1, toff, #[trigger] sites[k2])) && (forall|
            s: int,
        |
            0 <= s && s + 4 <= b0.len() && s % 4 == 0 && (forall|k2: int|
                k <= k2 < sites.len() ==> #[trigger] sites[k2] != s) ==> #[trigger] word_at(b1, s)
                == word_at(b0, s)),
    decreases sites.len() - k,
{
    if k >= sites.len() {
    } else {
        let site = sites[k];
        lemma_link_site_ok(b0, toff, site);
        let bn = match link_site(b0, toff, site) {
            Ok(bn) => bn,
            Err(_) => b0,
        };
        lemma_link_sites_pass(bn, toff, sites, k + 1);
        let b1 = match link_sites(bn, toff, sites, k + 1) {
            Ok(b1) => b1,
            Err(_) => b0,
        };
        // The word spliced at `site` survives the rest of the pass.
        assert forall|k2: int| k <= k2 < sites.len() implies site_linked(
            b1,
            toff,
            #[trigger] sites[k2],
        ) by {
            if k2 == k {
                assert(forall|k3: int| k + 1 <= k3 < sites.len() ==> #[trigger] sites[k3] != site);
                assert(word_at(b1, site) == word_at(bn, site));
                lemma_site_linked_same_word(bn, b1, toff, site);
            }
        }
        assert forall|s: int|
            0 <= s && s + 4 <= b0.len() && s % 4 == 0 && (forall|k2: int|
                k <= k2 < sites.len() ==> #[trigger] sites[k2] != s) implies #[trigger] word_at(
            b1,
            s,
        ) == word_at(b0, s) by {
            assert(sites[k] != s);
            lemma_aligned_distinct_disjoint(site, s);
            crate::encoding::lemma_word_at_splice_disjoint(b0, site, word_at(bn, site), s);
            // bn is b0 with one word spliced at `site`.
            if top6(word_at(b0, site)) == OP_JMP {
                crate::encoding::lemma_word_at_splice_disjoint(
                    b0,
                    site,
                    enc_b((toff - site) / 4),
                    s,
                );
            } else {
                crate::encoding::lemma_word_at_splice_disjoint(
                    b0,
                    site,
                    enc_bcond((toff - site) / 4, word_at(b0, site) & 0x1F),
                    s,
                );
            }
            assert(word_at(bn, s) == word_at(b0, s));
            assert(word_at(b1, s) == word_at(bn, s));
        }
    }
}

/// A buffer whose listed sites are all already linked passes through the
/// per-block fold unchanged.
proof fn lemma_link_sites_of_linked(b: Seq<u8>, toff: int, sites: Seq<int>, k: int)
    requires
        0 <= k <= sites.len(),
        forall|k2: int| k <= k2 < sites.len() ==> site_linked(b, toff, #[trigger] sites[k2]),
    ensures
        link_sites(b, toff, sites, k) == Ok::<Seq<u8>, JitError>(b),
    decreases sites.len() - k,
{
    if k < sites.len() {
        lemma_link_sites_of_linked(b, toff, sites, k + 1);
    }
}

/// A buffer whose recorded sites are all already linked passes through the
/// whole link pass unchanged.
proof fn lemma_link_blocks_of_linked(b: Seq<u8>, m: CodeLayout, t: int)
    requires
        0 <= t <= m.jumps.len(),
        m.offsets.len() == m.jumps.len(),
        forall|t2: int, k2: int|
            t <= t2 < m.jumps.len() && 0 <= k2 < m.jumps[t2].len() ==> site_linked(
                b,
                m.offsets[t2],
                #[trigger] m.jumps[t2][k2],
            ),
    ensures
        link_blocks(b, m, t) == Ok::<Seq<u8>, JitError>(b),
    decreases m.jumps.len() - t,
{
    if t < m.jumps.len() {
        lemma_link_sites_of_linked(b, m.offsets[t], m.jumps[t], 0);
        lemma_link_blocks_of_linked(b, m, t + 1);
    }
}

/// The whole link pass from block `t` on: every recorded site of the
/// remaining blocks ends up linked, and all other words are untouched.
proof fn lemma_link_pass(b0: Seq<u8>, m: CodeLayout, t: int)
    requires
        0 <= t <= m.jumps.len(),
        m.offsets.len() == m.jumps.len(),
        sites_wf(b0.len() as int, m),
        link_blocks(b0, m, t) is Ok,
    ensures
        link_blocks(b0, m, t) matches Ok(bf) && bf.len() == b0.len() && (forall|t2: int, k2: int|
            t <= t2 < m.jumps.len() && 0 <= k2 < m.jumps[t2].len() ==> site_linked(
                bf,
                m.offsets[t2],
                #[trigger] m.jumps[t2][k2],
            )) && (forall|s: int|
            0 <= s && s + 4 <= b0.len() && s % 4 == 0 && (forall|t2: int, k2: int|
                t <= t2 < m.jumps.len() && 0 <= k2 < m.jumps[t2].len() ==> #[trigger] m.jumps[t2][k2]
                    != s) ==> #[trigger] word_at(bf, s) == word_at(b0, s)),
    decreases m.jumps.len() - t,
{
    if t >= m.jumps.len() {
    } else {
        lemma_link_sites_pass(b0, m.offsets[t], m.jumps[t], 0);
        let b1 = match link_sites(b0, m.offsets[t], m.jumps[t], 0) {
            Ok(b1) => b1,
            Err(_) => b0,
        };
        lemma_link_pass(b1, m, t + 1);
        let bf = match link_blocks(b1, m, t + 1) {
            Ok(bf) => bf,
            Err(_) => b0,
        };
        assert forall|t2: int, k2: int|
            t <= t2 < m.jumps.len() && 0 <= k2 < m.jumps[t2].len() implies site_linked(
            bf,
            m.offsets[t2],
            #[trigger] m.jumps[t2][k2],
        ) by {
            if t2 == t {
                let s = m.jumps[t][k2];
                assert(forall|t3: int, k3: int|
                    t + 1 <= t3 < m.jumps.len() && 0 <= k3 < m.jumps[t3].len()
                        ==> #[trigger] m.jumps[t3][k3] != s);
                assert(word_at(bf, s) == word_at(b1, s));
                lemma_site_linked_same_word(b1, bf, m.offsets[t], s);
            }
        }
        assert forall|s: int|
            0 <= s && s + 4 <= b0.len() && s % 4 == 0 && (forall|t2: int, k2: int|
                t <= t2 < m.jumps.len() && 0 <= k2 < m.jumps[t2].len() ==> #[trigger] m.jumps[t2][k2]
                    != s) implies #[trigger] word_at(bf, s) == word_at(b0, s) by {
            assert(forall|k2: int|
                0 <= k2 < m.jumps[t].len() ==> #[trigger] m.jumps[t][k2] != s);
            assert(word_at(b1, s) == word_at(b0, s));
            assert(word_at(bf, s) == word_at(b1, s));
        }
    }
}

proof fn lemma_lower_inst_sites(m: CodeLayout, inst: Instruction, rand_fn_addr: u64)
    requires
        layout_wf(m),
        sites_wf(m.bytes.len() as int, m),
        inst.targets_ok(m.jumps.len() as nat),
    ensures
        sites_wf(lower_inst(m, inst, rand_fn_addr).bytes.len() as int, lower_inst(m, inst, rand_fn_addr)),
{
    let m2 = lower_inst(m, inst, rand_fn_addr);
    lemma_inst_bytes_mod4(inst, rand_fn_addr);
    let at = m.bytes.len() as int;
    match inst {
        Instruction::Jump { target } => {
            let tt = target.0 as int;
            assert(inst_bytes(inst, rand_fn_addr).len() == 4);
            assert forall|t1: int, k1: int, t2: int, k2: int|
                #![trigger m2.jumps[t1][k1], m2.jumps[t2][k2]]
                0 <= t1 < m2.jumps.len() && 0 <= k1 < m2.jumps[t1].len() && 0 <= t2
                    < m2.jumps.len() && 0 <= k2 < m2.jumps[t2].len() && (t1 != t2 || k1
                    != k2) implies m2.jumps[t1][k1] != m2.jumps[t2][k2] by {
                let old1 = !(t1 == tt && k1 == m.jumps[tt].len());
                let old2 = !(t2 == tt && k2 == m.jumps[tt].len());
                if old1 {
                    assert(m2.jumps[t1][k1] == m.jumps[t1][k1]);
                    assert(m.jumps[t1][k1] + 4 <= at);
                }
                if old2 {
                    assert(m2.jumps[t2][k2] == m.jumps[t2][k2]);
                    assert(m.jumps[t2][k2] + 4 <= at);
                }
            }
        },
        Instruction::JumpConditional { true_target, false_target } => {
            let ft = false_target.0 as int;
            let tt = true_target.0 as int;
            assert(inst_bytes(inst, rand_fn_addr).len() == 16);
            assert forall|t1: int, k1: int, t2: int, k2: int|
                #![trigger m2.jumps[t1][k1], m2.jumps[t2][k2]]
                0 <= t1 < m2.jumps.len() && 0 <= k1 < m2.jumps[t1].len() && 0 <= t2
                    < m2.jumps.len() && 0 <= k2 < m2.jumps[t2].len() && (t1 != t2 || k1
                    != k2) implies m2.jumps[t1][k1] != m2.jumps[t2][k2] by {
                let j1 = m.jumps.update(ft, m.jumps[ft].push(at + 8));
                let v1 = m2.jumps[t1][k1];
                let v2 = m2.jumps[t2][k2];
                // Each index is an old site, the B.cond site, or the B site.
                assert(v1 == at + 8 || v1 == at + 12 || (0 <= t1 < m.jumps.len() && 0 <= k1
                    < m.jumps[t1].len() && v1 == m.jumps[t1][k1]));
                assert(v2 == at + 8 || v2 == at + 12 || (0 <= t2 < m.jumps.len() && 0 <= k2
                    < m.jumps[t2].len() && v2 == m.jumps[t2][k2]));
                // The two new sites land at distinct list positions, so the
                // pair (t1, k1) != (t2, k2) rules out reading the same new
                // site twice.
                if v1 == v2 {
                    if v1 == at + 8 {
                        assert(t1 == ft && k1 == j1[ft].len() - 1);
                        assert(t2 == ft && k2 == j1[ft].len() - 1);
                    } else if v1 == at + 12 {
                        assert(t1 == tt && k1 == m2.jumps[tt].len() - 1);
                        assert(t2 == tt && k2 == m2.jumps[tt].len() - 1);
                    }
                }
            }
        },
        _ => {
            assert(m2.jumps == m.jumps);
        },
    }
}

proof fn lemma_lower_insts_sites(
    m: CodeLayout,
    insts: Seq<Instruction>,
    k: int,
    rand_fn_addr: u64,
)
    requires
        0 <= k <= insts.len(),
        layout_wf(m),
        sites_wf(m.bytes.len() as int, m),
        forall|j: int| 0 <= j < k ==> (#[trigger] insts[j]).targets_ok(m.jumps.len() as nat),
    ensures
        layout_wf(lower_insts(m, insts, k, rand_fn_addr)),
        sites_wf(
            lower_insts(m, insts, k, rand_fn_addr).bytes.len() as int,
            lower_insts(m, insts, k, rand_fn_addr),
        ),
        lower_insts(m, insts, k, rand_fn_addr).jumps.len() == m.jumps.len(),
        lower_insts(m, insts, k, rand_fn_addr).offsets == m.offsets,
    decreases k,
{
    if k > 0 {
        lemma_lower_insts_sites(m, insts, k - 1, rand_fn_addr);
        let mk = lower_insts(m, insts, k - 1, rand_fn_addr);
        lemma_lower_inst_wf(mk, insts[k - 1], rand_fn_addr);
        lemma_lower_inst_sites(mk, insts[k - 1], rand_fn_addr);
    }
}

proof fn lemma_lower_blocks_sites(p: Program, i: int, rand_fn_addr: u64)
    requires
        p.wf(),
        0 <= i <= p.blocks@.len(),
    ensures
        layout_wf(lower_blocks(p, i, rand_fn_addr)),
        sites_wf(
            lower_blocks(p, i, rand_fn_addr).bytes.len() as int,
            lower_blocks(p, i, rand_fn_addr),
        ),
        lower_blocks(p, i, rand_fn_addr).jumps.len() == p.blocks@.len(),
        lower_blocks(p, i, rand_fn_addr).offsets.len() == i,
    decreases i,
{
    if i > 0 {
        lemma_lower_blocks_sites(p, i - 1, rand_fn_addr);
        let mprev = lower_blocks(p, i - 1, rand_fn_addr);
        let ms = start_block(mprev);
        assert(layout_wf(ms));
        assert(sites_wf(ms.bytes.len() as int, ms));
        assert forall|j: int|
            0 <= j < p.blocks@[i - 1].instructions@.len() implies (#[trigger] p.blocks@[i
            - 1].instructions@[j]).targets_ok(ms.jumps.len() as nat) by {
            assert(p.blocks@[i - 1].instructions@[j].targets_ok(p.blocks@.len()));
        }
        lemma_lower_insts_sites(
            ms,
            p.blocks@[i - 1].instructions@,
            p.blocks@[i - 1].instructions@.len() as int,
            rand_fn_addr,
        );
    }
}

/// A well-formed program's lowering records each branch site once, as a
/// whole word inside the buffer: the invariant the linker relies on.
pub proof fn lemma_lowered_sites_wf(p: Program, rand_fn_addr: u64)
    requires
        p.wf(),
    ensures
        layout_wf(lowered(p, rand_fn_addr)),
        sites_wf(lowered(p, rand_fn_addr).bytes.len() as int, lowered(p, rand_fn_addr)),
        lowered(p, rand_fn_addr).offsets.len() == lowered(p, rand_fn_addr).jumps.len(),
{
    lemma_lower_blocks_sites(p, p.blocks@.len() as int, rand_fn_addr);
}

/// Branch range, positively: in a successful compile every recorded site
/// holds a branch whose signed word delta to its target block fits the
/// field width of its opcode family, so relinking it succeeds in place.
pub proof fn lemma_compiled_branches_in_range(p: Program, rand_fn_addr: u64)
    requires
        p.wf(),
        compiled_bytes(p, rand_fn_addr) is Ok,
    ensures
        compiled_bytes(p, rand_fn_addr) matches Ok(b) && (forall|t: int, k: int|
            0 <= t < lowered(p, rand_fn_addr).jumps.len() && 0 <= k < lowered(
                p,
                rand_fn_addr,
            ).jumps[t].len() ==> site_linked(
                b,
                lowered(p, rand_fn_addr).offsets[t],
                #[trigger] lowered(p, rand_fn_addr).jumps[t][k],
            )),
{
    lemma_lowered_sites_wf(p, rand_fn_addr);
    lemma_link_pass(lowered(p, rand_fn_addr).bytes, lowered(p, rand_fn_addr), 0);
}

/// Linker idempotence for every compiled program: linking the compiler's
/// output a second time leaves every byte as it is.
pub proof fn lemma_compiled_linker_idempotent(p: Program, rand_fn_addr: u64)
    requires
        p.wf(),
        compiled_bytes(p, rand_fn_addr) is Ok,
    ensures
        compiled_bytes(p, rand_fn_addr) matches Ok(b) && link_blocks(b, lowered(p, rand_fn_addr), 0)
            == Ok::<Seq<u8>, JitError>(b),
{
    lemma_lowered_sites_wf(p, rand_fn_addr);
    lemma_linker_idempotent(lowered(p, rand_fn_addr).bytes, lowered(p, rand_fn_addr));
}

/// Linker idempotence: over a layout whose sites are whole distinct words,
/// running the whole link pass a second time on its own output changes
/// nothing.  Every linked branch re-decodes to its own family and
/// re-encodes the same delta, because the delta depends only on the frozen
/// block offsets and the site itself.
pub proof fn lemma_linker_idempotent(bytes: Seq<u8>, m: CodeLayout)
    requires
        m.offsets.len() == m.jumps.len(),
        sites_wf(bytes.len() as int, m),
        link_blocks(bytes, m, 0) is Ok,
    ensures
        link_blocks(bytes, m, 0) matches Ok(b) && link_blocks(b, m, 0) == Ok::<Seq<u8>, JitError>(
            b,
        ),
{
    lemma_link_pass(bytes, m, 0);
    let b = match link_blocks(bytes, m, 0) {
        Ok(b) => b,
        Err(_) => bytes,
    };
    lemma_link_blocks_of_linked(b, m, 0);
}

/// The code generator's output: the machine-code buffer and each block's
/// byte offset in it.
pub struct Jit {
    assembler: Assembler,
    block_offsets: Vec<usize>,
}

impl View for Jit {
    type V = Seq<u8>;

    closed spec fn view(&self) -> Seq<u8> {
        self.assembler@
    }
}

impl Default for Jit {
    /// A code generator with an empty buffer.
    fn default() -> (r: Jit)
        ensures
            r@.len() == 0,
            r.offsets().len() == 0,
    {
        Jit { assembler: Assembler::default(), block_offsets: Vec::new() }
    }
}

impl Jit {
    /// The byte offsets the blocks were laid out at.
    pub closed spec fn offsets(&self) -> Seq<usize> {
        self.block_offsets@
    }

    /// Read-only access to the code bytes.
    pub fn code(&self) -> (b: &Vec<u8>)
        ensures
            b@ == self@,
    {
        self.assembler.bytes()
    }

    /// The code length in bytes.
    pub fn code_len(&self) -> (n: usize)
        ensures
            n == self@.len(),
    {
        self.assembler.len()
    }

    /// Read-only access to the block offsets.
    pub fn block_offsets(&self) -> (o: &Vec<usize>)
        ensures
            o@ == self.offsets(),
    {
        &self.block_offsets
    }

    /// A four-instruction stub: three NOPs and a RET.
    pub fn dummy() -> (r: Jit)
        ensures
            r@ == word_bytes(enc_nop()) + word_bytes(enc_nop()) + word_bytes(enc_nop())
                + word_bytes(enc_ret()),
            r.offsets().len() == 0,
    {
        let mut jit = Jit::default();
        jit.assembler.no_op();
        jit.assembler.no_op();
        jit.assembler.no_op();
        jit.assembler.ret();
        proof {
            assert(jit.assembler@ =~= word_bytes(enc_nop()) + word_bytes(enc_nop()) + word_bytes(
                enc_nop(),
            ) + word_bytes(enc_ret()));
        }
        jit
    }

    /// Compile a program: walk its blocks once, record each block's byte
    /// offset, lower every instruction to its native sequence while
    /// recording branch sites, then link every recorded branch.
    /// `rand_fn_addr` is the address of the host helper handed to
    /// `LoadRandom` calls.
    #[verifier::rlimit(100)]
    pub fn compile(program: &mut Program, rand_fn_addr: u64) -> (r: Result<Jit, JitError>)
        requires
            old(program).wf(),
            old(program).fresh(),
        ensures
            final(program).blocks@.len() == old(program).blocks@.len(),
            forall|k: int|
                0 <= k < old(program).blocks@.len() ==> (#[trigger] final(program).blocks@[k]).instructions@ == old(program).blocks@[k].instructions@,
            match r {
                Ok(jit) => {
                    &&& compiled_bytes(*old(program), rand_fn_addr) == Ok::<Seq<u8>, JitError>(
                        jit@,
                    )
                    &&& jit@.len() == lowered(*old(program), rand_fn_addr).bytes.len()
                    &&& jit@.len() % 4 == 0
                    &&& usizes_as_ints(jit.offsets()) == lowered(
                        *old(program),
                        rand_fn_addr,
                    ).offsets
                    &&& forall|t: int|
                        0 <= t < final(program).blocks@.len() ==> (#[trigger] final(program).blocks@[t]).offset as int == lowered(*old(program), rand_fn_addr).offsets[t]
                            && usizes_as_ints(final(program).blocks@[t].jumps_to_here@) == lowered(
                            *old(program),
                            rand_fn_addr,
                        ).jumps[t]
                },
                Err(e) => compiled_bytes(*old(program), rand_fn_addr) == Err::<Seq<u8>, JitError>(
                    e,
                ),
            },
    {
        let ghost p0 = *program;
        let mut jit = Jit::default();
        let n = program.blocks.len();
        proof {
            let m0 = lower_blocks(p0, 0, rand_fn_addr);
            assert(jit.assembler@ =~= m0.bytes);
            assert(usizes_as_ints(jit.block_offsets@) =~= m0.offsets);
            assert forall|t: int| 0 <= t < n implies usizes_as_ints(
                (#[trigger] program.blocks@[t]).jumps_to_here@,
            ) == m0.jumps[t] by {
                assert(program.blocks@[t].jumps_to_here@.len() == 0);
                assert(usizes_as_ints(program.blocks@[t].jumps_to_here@) =~= Seq::<int>::empty());
            }
        }
        let mut i: usize = 0;
        while i < n
            invariant
                p0 == *old(program),
                p0.wf(),
                p0.fresh(),
                n == p0.blocks@.len(),
                i <= n,
                program.blocks@.len() == n,
                forall|k: int|
                    0 <= k < n ==> (#[trigger] program.blocks@[k]).instructions@
                        == p0.blocks@[k].instructions@,
                ({
                    let m = lower_blocks(p0, i as int, rand_fn_addr);
                    &&& jit.assembler@ == m.bytes
                    &&& usizes_as_ints(jit.block_offsets@) == m.offsets
                    &&& m.offsets.len() == i
                    &&& m.jumps.len() == n
                    &&& layout_wf(m)
                    &&& forall|k: int|
                        0 <= k < i ==> (#[trigger] program.blocks@[k]).offset as int == m.offsets[k]
                    &&& forall|t: int|
                        0 <= t < n ==> usizes_as_ints(
                            (#[trigger] program.blocks@[t]).jumps_to_here@,
                        ) == m.jumps[t]
                }),
                forall|k: int, j2: int|
                    0 <= k < i && 0 <= j2 < p0.blocks@[k].instructions@.len() ==> inst_encodable(
                        #[trigger] p0.blocks@[k].instructions@[j2],
                    ),
            decreases n - i,
        {
            let ghost m_i = lower_blocks(p0, i as int, rand_fn_addr);
            let offset = jit.assembler.len();
            {
                let blk = &mut program.blocks[i];
                blk.offset = offset;
            }
            let ghost offs0 = jit.block_offsets@;
            jit.block_offsets.push(offset);
            proof {
                lemma_usizes_as_ints_push(offs0, offset);
                assert(usizes_as_ints(jit.block_offsets@) == start_block(m_i).offsets);
            }
            let insts_len = program.blocks[i].instructions.len();
            let mut j: usize = 0;
            while j < insts_len
                invariant
                    p0 == *old(program),
                    p0.wf(),
                    p0.fresh(),
                    n == p0.blocks@.len(),
                    j <= insts_len,
                    i < n,
                    program.blocks@.len() == n,
                    forall|k: int, j2: int|
                        0 <= k < i && 0 <= j2 < p0.blocks@[k].instructions@.len()
                            ==> inst_encodable(#[trigger] p0.blocks@[k].instructions@[j2]),
                    insts_len == p0.blocks@[i as int].instructions@.len(),
                    forall|k: int|
                        0 <= k < n ==> (#[trigger] program.blocks@[k]).instructions@
                            == p0.blocks@[k].instructions@,
                    ({
                        let mb = lower_insts(
                            start_block(lower_blocks(p0, i as int, rand_fn_addr)),
                            p0.blocks@[i as int].instructions@,
                            j as int,
                            rand_fn_addr,
                        );
                        &&& jit.assembler@ == mb.bytes
                        &&& usizes_as_ints(jit.block_offsets@) == mb.offsets
                        &&& mb.offsets.len() == i + 1
                        &&& mb.jumps.len() == n
                        &&& layout_wf(mb)
                        &&& forall|k: int|
                            0 <= k <= i ==> (#[trigger] program.blocks@[k]).offset as int
                                == mb.offsets[k]
                        &&& forall|t: int|
                            0 <= t < n ==> usizes_as_ints(
                                (#[trigger] program.blocks@[t]).jumps_to_here@,
                            ) == mb.jumps[t]
                    }),
                    forall|j2: int|
                        0 <= j2 < j ==> inst_encodable(
                            #[trigger] p0.blocks@[i as int].instructions@[j2],
                        ),
                decreases insts_len - j,
            {
                let ghost insts = p0.blocks@[i as int].instructions@;
                let ghost mb = lower_insts(
                    start_block(lower_blocks(p0, i as int, rand_fn_addr)),
                    insts,
                    j as int,
                    rand_fn_addr,
                );
                let inst = program.blocks[i].instructions[j];
                proof {
                    assert(inst == insts[j as int]);
                    assert(insts[j as int].targets_ok(p0.blocks@.len() as nat));
                    lemma_lower_inst_wf(mb, inst, rand_fn_addr);
                    assert(lower_insts(
                        start_block(lower_blocks(p0, i as int, rand_fn_addr)),
                        insts,
                        j as int + 1,
                        rand_fn_addr,
                    ) == lower_inst(mb, inst, rand_fn_addr));
                }
                match inst {
                    Instruction::LoadImmediate { value } => {
                        jit.assembler.load_immediate64(Reg::GPR0, value.0);
                        jit.assembler.store_vm_register(VMRegister(0), Reg::GPR0);
                        proof {
                            assert(jit.assembler@ =~= mb.bytes + inst_bytes(inst, rand_fn_addr));
                        }
                    },
                    Instruction::Load { reg } => {
                        if reg.0 >= 4096 {
                            proof {
                                assert(!program_encodable(p0));
                            }
                            return Err(JitError::EncodingOverflow);
                        }
                        jit.assembler.load_vm_register(Reg::GPR0, reg);
                        jit.assembler.store_vm_register(VMRegister(0), Reg::GPR0);
                        proof {
                            assert(jit.assembler@ =~= mb.bytes + inst_bytes(inst, rand_fn_addr));
                        }
                    },
                    Instruction::Store { reg } => {
                        if reg.0 >= 4096 {
                            proof {
                                assert(!program_encodable(p0));
                            }
                            return Err(JitError::EncodingOverflow);
                        }
                        jit.assembler.load_vm_register(Reg::GPR0, VMRegister(0));
                        jit.assembler.store_vm_register(reg, Reg::GPR0);
                        proof {
                            assert(jit.assembler@ =~= mb.bytes + inst_bytes(inst, rand_fn_addr));
                        }
                    },
                    Instruction::SetLocal { local } => {
                        if local.0 >= 4096 {
                            proof {
                                assert(!program_encodable(p0));
                            }
                            return Err(JitError::EncodingOverflow);
                        }
                        jit.assembler.load_vm_register(Reg::GPR0, VMRegister(0));
                        jit.assembler.store_vm_local(local, Reg::GPR0);
                        proof {
                            assert(jit.assembler@ =~= mb.bytes + inst_bytes(inst, rand_fn_addr));
                        }
                    },
                    Instruction::GetLocal { local } => {
                        if local.0 >= 4096 {
                            proof {
                                assert(!program_encodable(p0));
                            }
                            return Err(JitError::EncodingOverflow);
                        }
                        jit.assembler.load_vm_local(Reg::GPR0, local);
                        jit.assembler.store_vm_register(VMRegister(0), Reg::GPR0);
                        proof {
                            assert(jit.assembler@ =~= mb.bytes + inst_bytes(inst, rand_fn_addr));
                        }
                    },
                    Instruction::Increment => {
                        jit.assembler.load_vm_register(Reg::GPR0, VMRegister(0));
                        jit.assembler.increment(Reg::GPR0);
                        jit.assembler.store_vm_register(VMRegister(0), Reg::GPR0);
                        proof {
                            assert(jit.assembler@ =~= mb.bytes + inst_bytes(inst, rand_fn_addr));
                        }
                    },
                    Instruction::LessThan { lhs } => {
                        if lhs.0 >= 4096 {
                            proof {
                                assert(!program_encodable(p0));
                            }
                            return Err(JitError::EncodingOverflow);
                        }
                        jit.assembler.load_vm_register(Reg::GPR0, lhs);
                        jit.assembler.load_vm_register(Reg::GPR1, VMRegister(0));
                        jit.assembler.less_than(Reg::GPR0, Reg::GPR1);
                        jit.assembler.store_vm_register(VMRegister(0), Reg::GPR0);
                        proof {
                            assert(jit.assembler@ =~= mb.bytes + inst_bytes(inst, rand_fn_addr));
                        }
                    },
                    Instruction::LoadRandom { max } => {
                        jit.assembler.call_into_rust(
                            Reg::GPR0,
                            Func::FnSingleInt64WithReturnInt64(rand_fn_addr, max.0),
                        );
                        jit.assembler.store_vm_register(VMRegister(0), Reg::GPR0);
                        proof {
                            assert(jit.assembler@ =~= mb.bytes + inst_bytes(inst, rand_fn_addr));
                        }
                    },
                    Instruction::Breakpoint => {
                        jit.assembler.brk();
                        proof {
                            assert(jit.assembler@ =~= mb.bytes + inst_bytes(inst, rand_fn_addr));
                        }
                    },
                    Instruction::Exit => {
                        jit.assembler.ret();
                        proof {
                            assert(jit.assembler@ =~= mb.bytes + inst_bytes(inst, rand_fn_addr));
                        }
                    },
                    Instruction::Jump { target } => {
                        let ghost jt0 = program.blocks@[target.0 as int].jumps_to_here@;
                        jit.assembler.jump(&target, program);
                        let len_now = jit.assembler.len();
                        proof {
                            assert(len_now == mb.bytes.len() + 4);
                            assert(jit.assembler@ =~= mb.bytes + inst_bytes(inst, rand_fn_addr));
                            lemma_usizes_as_ints_push(jt0, mb.bytes.len() as usize);
                            let mb2 = lower_inst(mb, inst, rand_fn_addr);
                            assert forall|t: int| 0 <= t < n implies usizes_as_ints(
                                (#[trigger] program.blocks@[t]).jumps_to_here@,
                            ) == mb2.jumps[t] by {}
                        }
                    },
                    Instruction::JumpConditional { true_target, false_target } => {
                        let ghost jf0 = program.blocks@[false_target.0 as int].jumps_to_here@;
                        let ghost jt0 = program.blocks@[true_target.0 as int].jumps_to_here@;
                        jit.assembler.load_vm_register(Reg::GPR0, VMRegister(0));
                        jit.assembler.jump_conditional(
                            Reg::GPR0,
                            &true_target,
                            &false_target,
                            program,
                        );
                        let len_now = jit.assembler.len();
                        proof {
                            assert(len_now == mb.bytes.len() + 16);
                            assert(jit.assembler@ =~= mb.bytes + inst_bytes(inst, rand_fn_addr));
                            let mb2 = lower_inst(mb, inst, rand_fn_addr);
                            if true_target.0 == false_target.0 {
                                lemma_usizes_as_ints_push(jt0, (mb.bytes.len() + 8) as usize);
                                lemma_usizes_as_ints_push(
                                    jt0.push((mb.bytes.len() + 8) as usize),
                                    (mb.bytes.len() + 12) as usize,
                                );
                            } else {
                                lemma_usizes_as_ints_push(jf0, (mb.bytes.len() + 8) as usize);
                                lemma_usizes_as_ints_push(jt0, (mb.bytes.len() + 12) as usize);
                            }
                            assert forall|t: int| 0 <= t < n implies usizes_as_ints(
                                (#[trigger] program.blocks@[t]).jumps_to_here@,
                            ) == mb2.jumps[t] by {}
                        }
                    },
                }
                j = j + 1;
            }
            proof {
                assert(lower_blocks(p0, i as int + 1, rand_fn_addr) == lower_block(
                    lower_blocks(p0, i as int, rand_fn_addr),
                    p0.blocks@[i as int].instructions@,
                    rand_fn_addr,
                ));
            }
            i = i + 1;
        }
        proof {
            assert(program_encodable(p0));
            assert(lowered(p0, rand_fn_addr) == lower_blocks(p0, n as int, rand_fn_addr));
        }
        let ghost m = lowered(p0, rand_fn_addr);
        let mut t: usize = 0;
        while t < n
            invariant
                p0 == *old(program),
                n == p0.blocks@.len(),
                program_encodable(p0),
                m == lowered(p0, rand_fn_addr),
                layout_wf(m),
                t <= n,
                m.jumps.len() == n,
                m.offsets.len() == n,
                program.blocks@.len() == n,
                jit.assembler@.len() == m.bytes.len(),
                usizes_as_ints(jit.block_offsets@) == m.offsets,
                forall|k: int|
                    0 <= k < n ==> (#[trigger] program.blocks@[k]).instructions@
                        == p0.blocks@[k].instructions@,
                forall|k: int|
                    0 <= k < n ==> (#[trigger] program.blocks@[k]).offset as int == m.offsets[k],
                forall|k: int|
                    0 <= k < n ==> usizes_as_ints((#[trigger] program.blocks@[k]).jumps_to_here@)
                        == m.jumps[k],
                link_blocks(m.bytes, m, 0) == link_blocks(jit.assembler@, m, t as int),
            decreases n - t,
        {
            let toff = program.blocks[t].offset;
            let n_sites = program.blocks[t].jumps_to_here.len();
            proof {
                assert(usizes_as_ints(program.blocks@[t as int].jumps_to_here@).len()
                    == m.jumps[t as int].len());
            }
            let mut k2: usize = 0;
            while k2 < n_sites
                invariant
                    p0 == *old(program),
                    n == p0.blocks@.len(),
                    program_encodable(p0),
                    m == lowered(p0, rand_fn_addr),
                    layout_wf(m),
                    m.jumps.len() == n,
                    m.offsets.len() == n,
                    k2 <= n_sites,
                    t < n,
                    program.blocks@.len() == n,
                    n_sites == m.jumps[t as int].len(),
                    toff as int == m.offsets[t as int],
                    jit.assembler@.len() == m.bytes.len(),
                    usizes_as_ints(jit.block_offsets@) == m.offsets,
                    forall|k: int|
                        0 <= k < n ==> (#[trigger] program.blocks@[k]).instructions@
                            == p0.blocks@[k].instructions@,
                    forall|k: int|
                        0 <= k < n ==> (#[trigger] program.blocks@[k]).offset as int
                            == m.offsets[k],
                    forall|k: int|
                        0 <= k < n ==> usizes_as_ints(
                            (#[trigger] program.blocks@[k]).jumps_to_here@,
                        ) == m.jumps[k],
                    link_blocks(m.bytes, m, 0) == match link_sites(
                        jit.assembler@,
                        m.offsets[t as int],
                        m.jumps[t as int],
                        k2 as int,
                    ) {
                        Ok(b) => link_blocks(b, m, t as int + 1),
                        Err(e) => Err(e),
                    },
                decreases n_sites - k2,
            {
                let site = program.blocks[t].jumps_to_here[k2];
                proof {
                    assert(site as int == m.jumps[t as int][k2 as int]);
                }
                let ghost before = jit.assembler@;
                match jit.link_and_rewrite(toff, site) {
                    Ok(_) => {
                        proof {
                            assert(link_sites(before, m.offsets[t as int], m.jumps[t as int], k2 as int)
                                == link_sites(
                                jit.assembler@,
                                m.offsets[t as int],
                                m.jumps[t as int],
                                k2 as int + 1,
                            ));
                        }
                    },
                    Err(e) => {
                        proof {
                            assert(link_blocks(m.bytes, m, 0) == Err::<Seq<u8>, JitError>(e));
                        }
                        return Err(e);
                    },
                }
                k2 = k2 + 1;
            }
            t = t + 1;
        }
        proof {
            assert(link_blocks(jit.assembler@, m, n as int) == Ok::<Seq<u8>, JitError>(
                jit.assembler@,
            ));
        }
        Ok(jit)
    }

    /// Patch the placeholder branch at `instr_offset` to reach
    /// `target_offset`: the linker's step for one recorded site.
    pub fn link_and_rewrite(&mut self, target_offset: usize, instr_offset: usize) -> (r: Result<
        (),
        JitError,
    >)
        requires
            instr_offset + 4 <= old(self)@.len(),
            target_offset <= old(self)@.len(),
            instr_offset % 4 == 0,
            target_offset % 4 == 0,
        ensures
            final(self).offsets() == old(self).offsets(),
            match link_site(old(self)@, target_offset as int, instr_offset as int) {
                Ok(b) => r is Ok && final(self)@ == b,
                Err(e) => r == Err::<(), JitError>(e) && final(self)@ == old(self)@,
            },
    {
        let w = self.assembler.read_instr32(instr_offset);
        let op = w >> 26;
        let ghost delta = (target_offset as int - instr_offset as int) / 4;
        proof {
            lemma2_to64();
            if target_offset >= instr_offset {
                let k = (target_offset - instr_offset) / 4 as int;
                lemma_fundamental_div_mod(target_offset as int - instr_offset as int, 4);
            } else {
                let diff = instr_offset as int - target_offset as int;
                lemma_fundamental_div_mod(diff, 4);
                let k = diff / 4;
                assert(diff == 4 * k);
                assert(target_offset as int - instr_offset as int == (-k) * 4 + 0) by (nonlinear_arith)
                    requires
                        diff == 4 * k,
                        diff == instr_offset as int - target_offset as int,
                ;
                lemma_fundamental_div_mod_converse_div(
                    target_offset as int - instr_offset as int,
                    4,
                    -k,
                    0,
                );
                assert((target_offset as int - instr_offset as int) / 4 == -k);
            }
        }
        if op == 0b000101 {
            // Unconditional B: a 26-bit signed word-delta field.
            let imm26: usize = if target_offset >= instr_offset {
                let d = (target_offset - instr_offset) / 4;
                if d >= 0x200_0000 {
                    return Err(JitError::BranchOutOfRange);
                }
                d
            } else {
                let d = (instr_offset - target_offset) / 4;
                if d > 0x200_0000 {
                    return Err(JitError::BranchOutOfRange);
                }
                0x400_0000 - d
            };
            proof {
                assert(fits_signed(delta, 26));
                assert(imm26 == enc_signed(delta, 26));
            }
            let fields = vec![
                BitIndex { value: 0b000101, bits: 6 },
                BitIndex { value: imm26, bits: 26 },
            ];
            proof {
                crate::assembler::lemma_fields2(fields@);
            }
            let value = match BitwiseWriter::write(&fields) {
                Ok(v) => v,
                Err(_) => {
                    proof {
                        assert(false);
                    }
                    0
                },
            };
            proof {
                let iv = imm26 as u32;
                assert(value == 0b000101 * 0x400_0000 + imm26);
                assert(enc_b_raw(iv) == 0b000101 * 0x400_0000 + iv) by (bit_vector)
                    requires
                        iv < 0x400_0000,
                ;
                assert(value == enc_b(delta));
            }
            self.assembler.rewrite_instr32(instr_offset, value);
            Ok(())
        } else if op == 0b010101 {
            // B.cond: a 19-bit signed word-delta field; keep the condition
            // bits.
            let imm19: usize = if target_offset >= instr_offset {
                let d = (target_offset - instr_offset) / 4;
                if d >= 0x4_0000 {
                    return Err(JitError::BranchOutOfRange);
                }
                d
            } else {
                let d = (instr_offset - target_offset) / 4;
                if d > 0x4_0000 {
                    return Err(JitError::BranchOutOfRange);
                }
                0x8_0000 - d
            };
            proof {
                assert(fits_signed(delta, 19));
                assert(imm19 == enc_signed(delta, 19));
            }
            let low5 = (w & 0x1F) as usize;
            proof {
                assert((w & 0x1F) < 32) by (bit_vector);
            }
            let fields = vec![
                BitIndex { value: 0b01010100, bits: 8 },
                BitIndex { value: imm19, bits: 19 },
                BitIndex { value: low5, bits: 5 },
            ];
            proof {
                crate::assembler::lemma_fields3(fields@);
            }
            let value = match BitwiseWriter::write(&fields) {
                Ok(v) => v,
                Err(_) => {
                    proof {
                        assert(false);
                    }
                    0
                },
            };
            proof {
                let iv = imm19 as u32;
                let lv = w & 0x1F;
                assert(value == (0b01010100 * 0x8_0000 + imm19) * 32 + low5);
                assert(0x54000000u32 | (iv << 5) | lv == (0b01010100 * 0x8_0000 + iv) * 32 + lv)
                    by (bit_vector)
                    requires
                        iv < 0x8_0000,
                        lv < 32,
                ;
                assert(value == enc_bcond(delta, lv));
            }
            self.assembler.rewrite_instr32(instr_offset, value);
            Ok(())
        } else {
            Err(JitError::UnknownBranchOpcode)
        }
    }
}

} // verus!
