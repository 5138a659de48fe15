//! The textual front end: parses the line-oriented assembly source into a
//! program.
//!
//! The source is line-oriented.  Comments begin with `//` and blank lines
//! are ignored.  A block begins at column 0 with `LABEL:`, where a label is
//! a run of ASCII letters, digits and underscores; instruction lines follow
//! it.  Operands are decimal immediates, `r<index>` registers, `.<index>`
//! locals and `#<label>` block references.  Every referenced label must be
//! declared somewhere in the file.

use vstd::prelude::*;
use vstd::string::StringSliceAdditionalSpecFns;
use vstd::slice::slice_subrange;
use vstd::slice::slice_to_vec;
use crate::vm::BlockTarget;
use crate::vm::Instruction;
use crate::vm::Program;
use crate::vm::Value;
use crate::vm::VMLocal;
use crate::vm::VMRegister;

verus! {

/// What went wrong on a source line.
#[derive(Clone, Copy, Debug, PartialEq, Eq, Structural)]
pub enum ParseErrorKind {
    /// A block label line was expected.
    ExpectedBlockLabel,
    /// The same label was declared twice.
    DuplicateLabel,
    /// The line does not start with a known opcode.
    UnknownInstruction,
    /// An operand did not parse.
    BadOperand,
    /// A referenced label is declared nowhere in the file.
    UndeclaredLabel,
}

/// A parse failure: the one-based source line and what was wrong.  The
/// label-declaration check runs after the last line and reports line 0.
#[derive(Clone, Copy, Debug, PartialEq, Eq, Structural)]
pub struct ParseError {
    pub line: usize,
    pub kind: ParseErrorKind,
}

/// An ASCII decimal digit.
pub open spec fn is_digit_byte(b: u8) -> bool {
    0x30 <= b <= 0x39
}

/// An ASCII letter or digit.
pub open spec fn is_alnum_byte(b: u8) -> bool {
    is_digit_byte(b) || (0x41 <= b <= 0x5A) || (0x61 <= b <= 0x7A)
}

/// A label character: an ASCII letter, digit or underscore.
pub open spec fn is_label_byte(b: u8) -> bool {
    is_alnum_byte(b) || b == 0x5F
}

/// The whitespace stripped around tokens: space, tab and carriage return.
pub open spec fn is_space_byte(b: u8) -> bool {
    b == 0x20 || b == 0x09 || b == 0x0D
}

/// The text with its leading whitespace removed.
pub open spec fn trim_front(s: Seq<u8>) -> Seq<u8>
    decreases s.len(),
{
    if s.len() > 0 && is_space_byte(s.first()) {
        trim_front(s.drop_first())
    } else {
        s
    }
}

/// The text with its trailing whitespace removed.
pub open spec fn trim_back(s: Seq<u8>) -> Seq<u8>
    decreases s.len(),
{
    if s.len() > 0 && is_space_byte(s.last()) {
        trim_back(s.drop_last())
    } else {
        s
    }
}

/// The text with whitespace removed on both sides.
pub open spec fn trim_spec(s: Seq<u8>) -> Seq<u8> {
    trim_back(trim_front(s))
}

/// All bytes are decimal digits.
pub open spec fn all_digits(s: Seq<u8>) -> bool {
    forall|i: int| 0 <= i < s.len() ==> is_digit_byte(#[trigger] s[i])
}

/// The number the digit string denotes.
pub open spec fn digits_val(s: Seq<u8>) -> int
    decreases s.len(),
{
    if s.len() == 0 {
        0
    } else {
        digits_val(s.drop_last()) * 10 + (s.last() - 0x30)
    }
}

/// What parsing an unsigned decimal means: an optional leading plus sign,
/// then at least one digit, with the value in range.
pub open spec fn spec_parse_u64(s: Seq<u8>) -> Option<u64> {
    let t = if s.len() > 0 && s[0] == 0x2B {
        s.drop_first()
    } else {
        s
    };
    if t.len() > 0 && all_digits(t) && digits_val(t) <= u64::MAX {
        Some(digits_val(t) as u64)
    } else {
        None
    }
}

/// As `spec_parse_u64`, bounded by the machine's index range.
pub open spec fn spec_parse_usize(s: Seq<u8>) -> Option<usize> {
    match spec_parse_u64(s) {
        Some(v) => if v <= usize::MAX {
            Some(v as usize)
        } else {
            None
        },
        None => None,
    }
}

/// What extracting a one-character prefix means: after trimming, the text
/// must open with the prefix character, and the rest, trimmed again, must
/// be a machine-range decimal index.
pub open spec fn spec_extract_prefix(s: Seq<u8>, pattern: u8) -> Result<usize, ()> {
    let t = trim_spec(s);
    if t.len() > 0 && t[0] == pattern {
        match spec_parse_usize(trim_spec(t.drop_first())) {
            Some(v) => Ok(v),
            None => Err(()),
        }
    } else {
        Err(())
    }
}

/// The parser's abstract state: the labels declared so far, the label of
/// each created block (in creation order, so a label's position is its
/// block index), each block's instructions, and the index of the block
/// instruction lines currently append to (negative while a declaration is
/// expected).
pub struct ParseModel {
    pub declared: Seq<Seq<u8>>,
    pub labels: Seq<Seq<u8>>,
    pub blocks: Seq<Seq<Instruction>>,
    pub cur: int,
}

/// The state before any line is read.
pub open spec fn parse_init() -> ParseModel {
    ParseModel { declared: Seq::empty(), labels: Seq::empty(), blocks: Seq::empty(), cur: -1 }
}

/// The index of the first newline at or after `i`, or the end.
pub open spec fn find_line_end(src: Seq<u8>, i: int) -> int
    decreases src.len() - i,
{
    if i < 0 || i >= src.len() {
        src.len() as int
    } else if src[i] == 0x0A {
        i
    } else {
        find_line_end(src, i + 1)
    }
}

/// The index at or after `i` where a `//` comment opens, or the end.
pub open spec fn find_comment(s: Seq<u8>, i: int) -> int
    decreases s.len() - i,
{
    if i < 0 || i >= s.len() {
        s.len() as int
    } else if s[i] == 0x2F && i + 1 < s.len() && s[i + 1] == 0x2F {
        i
    } else {
        find_comment(s, i + 1)
    }
}

/// The index of the first space at or after `i`, or the end.
pub open spec fn find_space(s: Seq<u8>, i: int) -> int
    decreases s.len() - i,
{
    if i < 0 || i >= s.len() {
        s.len() as int
    } else if s[i] == 0x20 {
        i
    } else {
        find_space(s, i + 1)
    }
}

/// The end of the run of label characters starting at `i`.
pub open spec fn label_end(s: Seq<u8>, i: int) -> int
    decreases s.len() - i,
{
    if i < 0 || i >= s.len() {
        s.len() as int
    } else if is_label_byte(s[i]) {
        label_end(s, i + 1)
    } else {
        i
    }
}

/// The first position holding this label, if any.
pub open spec fn find_label(labels: Seq<Seq<u8>>, label: Seq<u8>, i: int) -> Option<int>
    decreases labels.len() - i,
{
    if i < 0 || i >= labels.len() {
        None
    } else if labels[i] == label {
        Some(i)
    } else {
        find_label(labels, label, i + 1)
    }
}

/// The label occurs in the list.
pub open spec fn contains_label(labels: Seq<Seq<u8>>, label: Seq<u8>) -> bool {
    exists|i: int| 0 <= i < labels.len() && labels[i] == label
}

/// Resolve a label to its block index, creating an empty block on first
/// reference.
pub open spec fn model_get_or_create(m: ParseModel, label: Seq<u8>) -> (int, ParseModel) {
    match find_label(m.labels, label, 0) {
        Some(i) => (i, m),
        None => (
            m.labels.len() as int,
            ParseModel {
                labels: m.labels.push(label),
                blocks: m.blocks.push(Seq::empty()),
                ..m
            },
        ),
    }
}

/// A `#<label>` block reference: the trimmed text must open with `#`, and
/// the rest, trimmed, is the label, which resolves as a block reference.
pub open spec fn model_block_literal(m: ParseModel, s: Seq<u8>) -> (Option<int>, ParseModel) {
    let t = trim_spec(s);
    if t.len() > 0 && t[0] == 0x23 {
        let r = model_get_or_create(m, trim_spec(t.drop_first()));
        (Some(r.0), r.1)
    } else {
        (None, m)
    }
}

/// Append one instruction to block `bi`.
pub open spec fn model_append(m: ParseModel, bi: int, inst: Instruction) -> ParseModel {
    ParseModel { blocks: m.blocks.update(bi, m.blocks[bi].push(inst)), ..m }
}

/// One instruction line of block `bi`: the opcode runs to the first space;
/// what follows it is the operand text.
pub open spec fn model_instruction_line(
    m: ParseModel,
    t: Seq<u8>,
    bi: int,
    line_no: usize,
) -> Result<ParseModel, ParseError> {
    let sp = find_space(t, 0);
    if sp < t.len() {
        let op = t.take(sp);
        let rest = t.subrange(sp + 1, t.len() as int);
        if op == kw_load_imm_s() {
            match spec_parse_u64(rest) {
                Some(v) => Ok(
                    model_append(m, bi, Instruction::LoadImmediate { value: Value(v) }),
                ),
                None => Err(ParseError { line: line_no, kind: ParseErrorKind::BadOperand }),
            }
        } else if op == kw_load_reg_s() {
            match spec_extract_prefix(rest, 0x72) {
                Ok(i) => Ok(model_append(m, bi, Instruction::Load { reg: VMRegister(i) })),
                Err(_) => Err(ParseError { line: line_no, kind: ParseErrorKind::BadOperand }),
            }
        } else if op == kw_store_reg_s() {
            match spec_extract_prefix(rest, 0x72) {
                Ok(i) => Ok(model_append(m, bi, Instruction::Store { reg: VMRegister(i) })),
                Err(_) => Err(ParseError { line: line_no, kind: ParseErrorKind::BadOperand }),
            }
        } else if op == kw_set_local_s() {
            match spec_extract_prefix(rest, 0x2E) {
                Ok(i) => Ok(model_append(m, bi, Instruction::SetLocal { local: VMLocal(i) })),
                Err(_) => Err(ParseError { line: line_no, kind: ParseErrorKind::BadOperand }),
            }
        } else if op == kw_get_local_s() {
            match spec_extract_prefix(rest, 0x2E) {
                Ok(i) => Ok(model_append(m, bi, Instruction::GetLocal { local: VMLocal(i) })),
                Err(_) => Err(ParseError { line: line_no, kind: ParseErrorKind::BadOperand }),
            }
        } else if op == kw_less_than_s() {
            match spec_extract_prefix(rest, 0x72) {
                Ok(i) => Ok(model_append(m, bi, Instruction::LessThan { lhs: VMRegister(i) })),
                Err(_) => Err(ParseError { line: line_no, kind: ParseErrorKind::BadOperand }),
            }
        } else if op == kw_jump_s() {
            let r = model_block_literal(m, rest);
            match r.0 {
                Some(tgt) => Ok(
                    model_append(
                        r.1,
                        bi,
                        Instruction::Jump { target: BlockTarget(tgt as usize) },
                    ),
                ),
                None => Err(ParseError { line: line_no, kind: ParseErrorKind::BadOperand }),
            }
        } else if op == kw_jump_either_s() {
            let sp2 = find_space(t, sp + 1);
            if sp2 >= t.len() {
                Err(ParseError { line: line_no, kind: ParseErrorKind::BadOperand })
            } else {
                let r1 = model_block_literal(m, t.subrange(sp + 1, sp2));
                let r2 = model_block_literal(r1.1, t.subrange(sp2 + 1, t.len() as int));
                match (r1.0, r2.0) {
                    (Some(tt), Some(ff)) => Ok(
                        model_append(
                            r2.1,
                            bi,
                            Instruction::JumpConditional {
                                true_target: BlockTarget(tt as usize),
                                false_target: BlockTarget(ff as usize),
                            },
                        ),
                    ),
                    _ => Err(ParseError { line: line_no, kind: ParseErrorKind::BadOperand }),
                }
            }
        } else {
            Err(ParseError { line: line_no, kind: ParseErrorKind::UnknownInstruction })
        }
    } else {
        if t == kw_incr_s() {
            Ok(model_append(m, bi, Instruction::Increment))
        } else if t == kw_break_s() {
            Ok(model_append(m, bi, Instruction::Breakpoint))
        } else if t == kw_ret_s() {
            Ok(model_append(m, bi, Instruction::Exit))
        } else {
            Err(ParseError { line: line_no, kind: ParseErrorKind::UnknownInstruction })
        }
    }
}

/// One source line.  A letter or digit at column 0 reopens declaration
/// position; the line is trimmed, its `//` comment stripped and trimmed
/// again; a blank line does nothing; otherwise the line is a `LABEL:`
/// declaration (the label being its leading run of label characters,
/// declared at most once) or an instruction of the current block.
pub open spec fn model_line(m: ParseModel, line: Seq<u8>, line_no: usize) -> Result<
    ParseModel,
    ParseError,
> {
    let m1 = if line.len() > 0 && is_alnum_byte(line[0]) {
        ParseModel { cur: -1, ..m }
    } else {
        m
    };
    let t1 = trim_spec(line);
    let t = trim_spec(t1.take(find_comment(t1, 0)));
    if t.len() == 0 {
        Ok(m1)
    } else if m1.cur < 0 {
        if t.last() == 0x3A {
            let label = t.take(label_end(t, 0));
            if contains_label(m1.declared, label) {
                Err(ParseError { line: line_no, kind: ParseErrorKind::DuplicateLabel })
            } else {
                let r = model_get_or_create(
                    ParseModel { declared: m1.declared.push(label), ..m1 },
                    label,
                );
                Ok(ParseModel { cur: r.0, ..r.1 })
            }
        } else {
            Err(ParseError { line: line_no, kind: ParseErrorKind::ExpectedBlockLabel })
        }
    } else {
        model_instruction_line(m1, t, m1.cur, line_no)
    }
}

/// After the last line, every referenced label must be declared.
pub open spec fn model_finish(m: ParseModel) -> Result<ParseModel, ParseError> {
    if forall|i: int|
        0 <= i < m.labels.len() ==> contains_label(m.declared, #[trigger] m.labels[i]) {
        Ok(m)
    } else {
        Err(ParseError { line: 0, kind: ParseErrorKind::UndeclaredLabel })
    }
}

/// Parse line by line from byte `pos` on.
pub open spec fn model_parse_from(
    src: Seq<u8>,
    pos: int,
    line_no: usize,
    m: ParseModel,
) -> Result<ParseModel, ParseError>
    decreases src.len() - pos,
    via model_parse_from_decreases
{
    if pos < 0 || pos >= src.len() {
        model_finish(m)
    } else {
        let le = find_line_end(src, pos);
        match model_line(m, src.subrange(pos, le), (line_no + 1) as usize) {
            Ok(m2) => model_parse_from(
                src,
                if le >= src.len() {
                    src.len() as int
                } else {
                    le + 1
                },
                (line_no + 1) as usize,
                m2,
            ),
            Err(e) => Err(e),
        }
    }
}

/// What parsing a whole source means.
pub open spec fn spec_parse_program(src: Seq<u8>) -> Result<ParseModel, ParseError> {
    model_parse_from(src, 0, 0, parse_init())
}

/// A line is read only through its comment-stripped, trimmed content, and
/// through whether its first column opens a declaration: editing or
/// deleting a `//` comment, or changing surrounding whitespace within the
/// line, never changes what the line parses to.
pub proof fn lemma_line_reads_stripped_content(
    m: ParseModel,
    l1: Seq<u8>,
    l2: Seq<u8>,
    line_no: usize,
)
    requires
        (l1.len() > 0 && is_alnum_byte(l1[0])) == (l2.len() > 0 && is_alnum_byte(l2[0])),
        trim_spec(trim_spec(l1).take(find_comment(trim_spec(l1), 0))) == trim_spec(
            trim_spec(l2).take(find_comment(trim_spec(l2), 0)),
        ),
    ensures
        model_line(m, l1, line_no) == model_line(m, l2, line_no),
{
}

/// A blank or comment-only line changes nothing but the declaration
/// position, and only when its first column is a letter or digit — so
/// inserting or deleting such lines never changes the program being
/// built.
pub proof fn lemma_blank_line_is_inert(m: ParseModel, line: Seq<u8>, line_no: usize)
    requires
        trim_spec(trim_spec(line).take(find_comment(trim_spec(line), 0))).len() == 0,
    ensures
        model_line(m, line, line_no) matches Ok(m2) && m2.declared == m.declared && m2.labels
            == m.labels && m2.blocks == m.blocks,
{
}

#[via_fn]
proof fn model_parse_from_decreases(src: Seq<u8>, pos: int, line_no: usize, m: ParseModel) {
    if 0 <= pos < src.len() {
        lemma_find_line_end_bounds(src, pos);
    }
}

/// A line runs from its start to its end, inside the source.
pub proof fn lemma_find_line_end_bounds(src: Seq<u8>, i: int)
    requires
        0 <= i <= src.len(),
    ensures
        i <= find_line_end(src, i) <= src.len(),
    decreases src.len() - i,
{
    if i < src.len() && src[i] != 0x0A {
        lemma_find_line_end_bounds(src, i + 1);
    }
}

// The opcode keywords, as byte strings.

/// "LOAD_IMM"
pub open spec fn kw_load_imm_s() -> Seq<u8> {
    seq![0x4Cu8, 0x4Fu8, 0x41u8, 0x44u8, 0x5Fu8, 0x49u8, 0x4Du8, 0x4Du8]
}

/// "LOAD_REG"
pub open spec fn kw_load_reg_s() -> Seq<u8> {
    seq![0x4Cu8, 0x4Fu8, 0x41u8, 0x44u8, 0x5Fu8, 0x52u8, 0x45u8, 0x47u8]
}

/// "STORE_REG"
pub open spec fn kw_store_reg_s() -> Seq<u8> {
    seq![0x53u8, 0x54u8, 0x4Fu8, 0x52u8, 0x45u8, 0x5Fu8, 0x52u8, 0x45u8, 0x47u8]
}

/// "SET_LOCAL"
pub open spec fn kw_set_local_s() -> Seq<u8> {
    seq![0x53u8, 0x45u8, 0x54u8, 0x5Fu8, 0x4Cu8, 0x4Fu8, 0x43u8, 0x41u8, 0x4Cu8]
}

/// "GET_LOCAL"
pub open spec fn kw_get_local_s() -> Seq<u8> {
    seq![0x47u8, 0x45u8, 0x54u8, 0x5Fu8, 0x4Cu8, 0x4Fu8, 0x43u8, 0x41u8, 0x4Cu8]
}

/// "LESS_THAN"
pub open spec fn kw_less_than_s() -> Seq<u8> {
    seq![0x4Cu8, 0x45u8, 0x53u8, 0x53u8, 0x5Fu8, 0x54u8, 0x48u8, 0x41u8, 0x4Eu8]
}

/// "JUMP"
pub open spec fn kw_jump_s() -> Seq<u8> {
    seq![0x4Au8, 0x55u8, 0x4Du8, 0x50u8]
}

/// "JUMP_EITHER"
pub open spec fn kw_jump_either_s() -> Seq<u8> {
    seq![0x4Au8, 0x55u8, 0x4Du8, 0x50u8, 0x5Fu8, 0x45u8, 0x49u8, 0x54u8, 0x48u8, 0x45u8, 0x52u8]
}

/// "INCR"
pub open spec fn kw_incr_s() -> Seq<u8> {
    seq![0x49u8, 0x4Eu8, 0x43u8, 0x52u8]
}

/// "BREAK"
pub open spec fn kw_break_s() -> Seq<u8> {
    seq![0x42u8, 0x52u8, 0x45u8, 0x41u8, 0x4Bu8]
}

/// "RET"
pub open spec fn kw_ret_s() -> Seq<u8> {
    seq![0x52u8, 0x45u8, 0x54u8]
}

fn is_space_x(b: u8) -> (r: bool)
    ensures
        r == is_space_byte(b),
{
    b == 0x20 || b == 0x09 || b == 0x0D
}

fn is_alnum_x(b: u8) -> (r: bool)
    ensures
        r == is_alnum_byte(b),
{
    (0x30 <= b && b <= 0x39) || (0x41 <= b && b <= 0x5A) || (0x61 <= b && b <= 0x7A)
}

fn is_label_x(b: u8) -> (r: bool)
    ensures
        r == is_label_byte(b),
{
    is_alnum_x(b) || b == 0x5F
}

/// Compare two byte strings.
fn bytes_eq(x: &[u8], y: &[u8]) -> (r: bool)
    ensures
        r == (x@ == y@),
{
    if x.len() != y.len() {
        proof {
            assert(x@.len() != y@.len());
        }
        return false;
    }
    let n = x.len();
    let mut i: usize = 0;
    while i < n
        invariant
            n == x@.len() == y@.len(),
            i <= n,
            forall|k: int| 0 <= k < i ==> x@[k] == y@[k],
        decreases n - i,
    {
        if x[i] != y[i] {
            return false;
        }
        i = i + 1;
    }
    proof {
        assert(x@ =~= y@);
    }
    true
}

/// Trim whitespace from both ends of `code[a..b]`, returning the trimmed
/// range.
fn trim_range(code: &[u8], a: usize, b: usize) -> (r: (usize, usize))
    requires
        a <= b <= code@.len(),
    ensures
        a <= r.0 <= r.1 <= b,
        code@.subrange(r.0 as int, r.1 as int) == trim_spec(code@.subrange(a as int, b as int)),
{
    let mut i = a;
    while i < b && is_space_x(code[i])
        invariant
            a <= i <= b <= code@.len(),
            trim_front(code@.subrange(a as int, b as int)) == trim_front(
                code@.subrange(i as int, b as int),
            ),
        decreases b - i,
    {
        proof {
            assert(code@.subrange(i as int, b as int).drop_first() =~= code@.subrange(
                i as int + 1,
                b as int,
            ));
        }
        i = i + 1;
    }
    proof {
        assert(trim_front(code@.subrange(a as int, b as int)) == code@.subrange(
            i as int,
            b as int,
        ));
    }
    let mut j = b;
    while j > i && is_space_x(code[j - 1])
        invariant
            a <= i <= j <= b <= code@.len(),
            trim_back(code@.subrange(i as int, b as int)) == trim_back(
                code@.subrange(i as int, j as int),
            ),
        decreases j,
    {
        proof {
            assert(code@.subrange(i as int, j as int).drop_last() =~= code@.subrange(
                i as int,
                j as int - 1,
            ));
        }
        j = j - 1;
    }
    proof {
        assert(trim_back(code@.subrange(i as int, j as int)) == code@.subrange(
            i as int,
            j as int,
        ));
    }
    (i, j)
}

proof fn lemma_take_succ_u8(s: Seq<u8>, i: int)
    requires
        0 <= i < s.len(),
    ensures
        s.take(i + 1).drop_last() == s.take(i),
        s.take(i + 1).last() == s[i],
{
    assert(s.take(i + 1).drop_last() =~= s.take(i));
}

proof fn lemma_digits_prefix(s: Seq<u8>, k: int)
    requires
        all_digits(s),
        0 <= k <= s.len(),
    ensures
        0 <= digits_val(s.take(k)) <= digits_val(s),
    decreases s.len() - k,
{
    lemma_digits_nonneg(s, k);
    if k == s.len() {
        assert(s.take(k) =~= s);
    } else {
        lemma_take_succ_u8(s, k);
        lemma_digits_nonneg(s, k);
        let pre = digits_val(s.take(k));
        let nxt = digits_val(s.take(k + 1));
        assert(nxt == pre * 10 + (s[k] - 0x30));
        assert(nxt >= pre) by (nonlinear_arith)
            requires
                nxt == pre * 10 + (s[k] - 0x30),
                s[k] >= 0x30,
                pre >= 0,
        ;
        lemma_digits_prefix(s, k + 1);
    }
}

proof fn lemma_digits_nonneg(s: Seq<u8>, k: int)
    requires
        all_digits(s),
        0 <= k <= s.len(),
    ensures
        digits_val(s.take(k)) >= 0,
    decreases k,
{
    if k == 0 {
        assert(s.take(0) =~= Seq::<u8>::empty());
    } else {
        lemma_take_succ_u8(s, k - 1);
        lemma_digits_nonneg(s, k - 1);
        let pre = digits_val(s.take(k - 1));
        assert(digits_val(s.take(k)) == pre * 10 + (s[k - 1] - 0x30));
        assert(pre >= 0 ==> pre * 10 >= 0) by (nonlinear_arith);
    }
}

/// Parse an unsigned decimal with an optional leading plus sign.
fn parse_u64_bytes(s: &[u8]) -> (r: Option<u64>)
    ensures
        r == spec_parse_u64(s@),
{
    let n = s.len();
    let mut start: usize = 0;
    if n > 0 && s[0] == 0x2B {
        start = 1;
    }
    proof {
        if start == 1 {
            assert(s@.drop_first() =~= s@.subrange(1, n as int));
        } else {
            assert(s@ =~= s@.subrange(0, n as int));
        }
    }
    let ghost t = s@.subrange(start as int, n as int);
    if start >= n {
        return None;
    }
    let mut val: u64 = 0;
    let mut i = start;
    while i < n
        invariant
            start <= i <= n,
            start < n,
            n == s@.len(),
            t == s@.subrange(start as int, n as int),
            t == (if s@.len() > 0 && s@[0] == 0x2B {
                s@.drop_first()
            } else {
                s@
            }),
            t.len() == n - start,
            all_digits(t.take(i - start)),
            val == digits_val(t.take(i - start)),
        decreases n - i,
    {
        let b = s[i];
        if !(0x30 <= b && b <= 0x39) {
            proof {
                assert(t[i - start] == b);
            }
            return None;
        }
        let d = (b - 0x30) as u64;
        let limit = (u64::MAX - d) / 10;
        proof {
            lemma_take_succ_u8(t, i - start);
            vstd::arithmetic::div_mod::lemma_fundamental_div_mod((u64::MAX - d) as int, 10);
        }
        if val > limit {
            // The full number can only be larger still.
            proof {
                let part = digits_val(t.take(i - start + 1));
                assert(part == val * 10 + d);
                assert(val * 10 + d > u64::MAX) by (nonlinear_arith)
                    requires
                        val > (u64::MAX - d) / 10,
                        (u64::MAX - d) == 10 * ((u64::MAX - d) / 10) + (u64::MAX - d) % 10,
                        0 <= (u64::MAX - d) % 10 < 10,
                        d <= 9,
                ;
                if all_digits(t) {
                    lemma_digits_prefix(t, i - start + 1);
                }
            }
            return None;
        }
        proof {
            assert(val * 10 + d <= u64::MAX) by (nonlinear_arith)
                requires
                    val <= (u64::MAX - d) / 10,
                    (u64::MAX - d) == 10 * ((u64::MAX - d) / 10) + (u64::MAX - d) % 10,
                    0 <= (u64::MAX - d) % 10,
            ;
        }
        val = val * 10 + d;
        i = i + 1;
    }
    proof {
        assert(t.take(n - start) =~= t);
    }
    Some(val)
}

/// Parse an unsigned decimal index that must fit the machine's index
/// range.
fn parse_usize_bytes(s: &[u8]) -> (r: Option<usize>)
    ensures
        r == spec_parse_usize(s@),
{
    match parse_u64_bytes(s) {
        Some(v) => if v <= usize::MAX as u64 {
            Some(v as usize)
        } else {
            None
        },
        None => None,
    }
}

/// Extract a `<pattern><index>` operand: trim, demand the prefix
/// character, and parse the trimmed rest as a decimal index.
pub fn extract_prefix(s: &[u8], pattern: u8) -> (r: Result<usize, ()>)
    ensures
        r == spec_extract_prefix(s@, pattern),
{
    let n = s.len();
    let (a, b) = trim_range(s, 0, n);
    proof {
        assert(s@.subrange(0, n as int) =~= s@);
    }
    if a == b || s[a] != pattern {
        return Err(());
    }
    proof {
        assert(trim_spec(s@)[0] == s@[a as int]);
        assert(s@.subrange(a as int, b as int).drop_first() =~= s@.subrange(a as int + 1, b as int));
    }
    let (a2, b2) = trim_range(s, a + 1, b);
    match parse_usize_bytes(slice_subrange(s, a2, b2)) {
        Some(v) => Ok(v),
        None => Err(()),
    }
}

/// A register operand, `r<index>`.
#[derive(Clone, Copy, Debug)]
pub struct VMRegisterTarget(pub VMRegister);

impl VMRegisterTarget {
    /// Parse `r<index>`.
    pub fn from_bytes(s: &[u8]) -> (r: Result<VMRegisterTarget, ()>)
        ensures
            match r {
                Ok(t) => spec_extract_prefix(s@, 0x72) == Ok::<usize, ()>(t.0.0),
                Err(_) => spec_extract_prefix(s@, 0x72) is Err,
            },
    {
        match extract_prefix(s, 0x72) {
            Ok(v) => Ok(VMRegisterTarget(VMRegister(v))),
            Err(_) => Err(()),
        }
    }
}

/// A local-variable operand, `.<index>`.
#[derive(Clone, Copy, Debug)]
pub struct VMLocalTarget(pub VMLocal);

impl VMLocalTarget {
    /// Parse `.<index>`.
    pub fn from_bytes(s: &[u8]) -> (r: Result<VMLocalTarget, ()>)
        ensures
            match r {
                Ok(t) => spec_extract_prefix(s@, 0x2E) == Ok::<usize, ()>(t.0.0),
                Err(_) => spec_extract_prefix(s@, 0x2E) is Err,
            },
    {
        match extract_prefix(s, 0x2E) {
            Ok(v) => Ok(VMLocalTarget(VMLocal(v))),
            Err(_) => Err(()),
        }
    }
}

/// Append a parsed instruction to a block, keeping the program well
/// formed.
pub fn add_unary(program: &mut Program, block: &BlockTarget, instruction: Instruction)
    requires
        old(program).wf(),
        old(program).fresh(),
        block.0 < old(program).blocks@.len(),
        instruction.targets_ok(old(program).blocks@.len() as nat),
    ensures
        final(program).wf(),
        final(program).fresh(),
        final(program).blocks@.len() == old(program).blocks@.len(),
        final(program).blocks@[block.0 as int].instructions@ == old(program).blocks@[block.0 as int].instructions@.push(instruction),
        forall|i: int|
            0 <= i < old(program).blocks@.len() && i != block.0 ==> final(program).blocks@[i]
                == old(program).blocks@[i],
        final(program).blocks@[block.0 as int].jumps_to_here@ == old(program).blocks@[block.0 as int].jumps_to_here@,
        final(program).blocks@[block.0 as int].offset == old(program).blocks@[block.0 as int].offset,
{
    block.append(program, instruction);
    proof {
        assert forall|i: int, j: int|
            0 <= i < program.blocks@.len() && 0 <= j
                < program.blocks@[i].instructions@.len() implies (#[trigger] program.blocks@[i].instructions@[j]).targets_ok(
            program.blocks@.len() as nat,
        ) by {
            if i == block.0 as int && j == program.blocks@[i].instructions@.len() - 1 {
            } else {
                assert(old(program).blocks@[i].instructions@[j].targets_ok(
                    old(program).blocks@.len() as nat,
                ));
            }
        }
    }
}

/// Map a one-operand parse to its line-tagged error, appending the
/// instruction when the operand was good.
pub fn add_single_operand(
    program: &mut Program,
    block: &BlockTarget,
    parsed: Option<Instruction>,
    line_num: usize,
) -> (r: Result<(), ParseError>)
    requires
        old(program).wf(),
        old(program).fresh(),
        block.0 < old(program).blocks@.len(),
        parsed matches Some(inst) ==> inst.targets_ok(old(program).blocks@.len() as nat),
    ensures
        final(program).wf(),
        final(program).fresh(),
        final(program).blocks@.len() == old(program).blocks@.len(),
        match parsed {
            Some(inst) => r is Ok && final(program).blocks@[block.0 as int].instructions@ == old(program).blocks@[block.0 as int].instructions@.push(inst) && (forall|i: int|
                0 <= i < old(program).blocks@.len() && i != block.0 ==> final(program).blocks@[i]
                    == old(program).blocks@[i])
                && final(program).blocks@[block.0 as int].jumps_to_here@ == old(program).blocks@[block.0 as int].jumps_to_here@
                && final(program).blocks@[block.0 as int].offset == old(program).blocks@[block.0 as int].offset,
            None => r == Err::<(), ParseError>(
                ParseError { line: line_num, kind: ParseErrorKind::BadOperand },
            ) && *final(program) == *old(program),
        },
{
    match parsed {
        Some(inst) => {
            add_unary(program, block, inst);
            Ok(())
        },
        None => Err(ParseError { line: line_num, kind: ParseErrorKind::BadOperand }),
    }
}

/// Combine the two resolved targets of a conditional jump, mapping a
/// missing one to its line-tagged error.
pub fn add_double_operand(
    program: &mut Program,
    block: &BlockTarget,
    true_target: Option<BlockTarget>,
    false_target: Option<BlockTarget>,
    line_num: usize,
) -> (r: Result<(), ParseError>)
    requires
        old(program).wf(),
        old(program).fresh(),
        block.0 < old(program).blocks@.len(),
        true_target matches Some(t) ==> t.0 < old(program).blocks@.len(),
        false_target matches Some(t) ==> t.0 < old(program).blocks@.len(),
    ensures
        final(program).wf(),
        final(program).fresh(),
        final(program).blocks@.len() == old(program).blocks@.len(),
        match (true_target, false_target) {
            (Some(t), Some(f)) => r is Ok && final(program).blocks@[block.0 as int].instructions@ == old(program).blocks@[block.0 as int].instructions@.push(
                Instruction::JumpConditional { true_target: t, false_target: f },
            ) && (forall|i: int|
                0 <= i < old(program).blocks@.len() && i != block.0 ==> final(program).blocks@[i]
                    == old(program).blocks@[i])
                && final(program).blocks@[block.0 as int].jumps_to_here@ == old(program).blocks@[block.0 as int].jumps_to_here@
                && final(program).blocks@[block.0 as int].offset == old(program).blocks@[block.0 as int].offset,
            _ => r == Err::<(), ParseError>(
                ParseError { line: line_num, kind: ParseErrorKind::BadOperand },
            ) && *final(program) == *old(program),
        },
{
    match (true_target, false_target) {
        (Some(t), Some(f)) => {
            add_unary(
                program,
                block,
                Instruction::JumpConditional { true_target: t, false_target: f },
            );
            Ok(())
        },
        _ => Err(ParseError { line: line_num, kind: ParseErrorKind::BadOperand }),
    }
}

// "LOAD_IMM"
fn kw_load_imm() -> (r: Vec<u8>)
    ensures
        r@ == kw_load_imm_s(),
{
    let r = vec![0x4Cu8, 0x4Fu8, 0x41u8, 0x44u8, 0x5Fu8, 0x49u8, 0x4Du8, 0x4Du8];
    proof {
        assert(r@ =~= kw_load_imm_s());
    }
    r
}

// "LOAD_REG"
fn kw_load_reg() -> (r: Vec<u8>)
    ensures
        r@ == kw_load_reg_s(),
{
    let r = vec![0x4Cu8, 0x4Fu8, 0x41u8, 0x44u8, 0x5Fu8, 0x52u8, 0x45u8, 0x47u8];
    proof {
        assert(r@ =~= kw_load_reg_s());
    }
    r
}

// "STORE_REG"
fn kw_store_reg() -> (r: Vec<u8>)
    ensures
        r@ == kw_store_reg_s(),
{
    let r = vec![0x53u8, 0x54u8, 0x4Fu8, 0x52u8, 0x45u8, 0x5Fu8, 0x52u8, 0x45u8, 0x47u8];
    proof {
        assert(r@ =~= kw_store_reg_s());
    }
    r
}

// "SET_LOCAL"
fn kw_set_local() -> (r: Vec<u8>)
    ensures
        r@ == kw_set_local_s(),
{
    let r = vec![0x53u8, 0x45u8, 0x54u8, 0x5Fu8, 0x4Cu8, 0x4Fu8, 0x43u8, 0x41u8, 0x4Cu8];
    proof {
        assert(r@ =~= kw_set_local_s());
    }
    r
}

// "GET_LOCAL"
fn kw_get_local() -> (r: Vec<u8>)
    ensures
        r@ == kw_get_local_s(),
{
    let r = vec![0x47u8, 0x45u8, 0x54u8, 0x5Fu8, 0x4Cu8, 0x4Fu8, 0x43u8, 0x41u8, 0x4Cu8];
    proof {
        assert(r@ =~= kw_get_local_s());
    }
    r
}

// "LESS_THAN"
fn kw_less_than() -> (r: Vec<u8>)
    ensures
        r@ == kw_less_than_s(),
{
    let r = vec![0x4Cu8, 0x45u8, 0x53u8, 0x53u8, 0x5Fu8, 0x54u8, 0x48u8, 0x41u8, 0x4Eu8];
    proof {
        assert(r@ =~= kw_less_than_s());
    }
    r
}

// "JUMP"
fn kw_jump() -> (r: Vec<u8>)
    ensures
        r@ == kw_jump_s(),
{
    let r = vec![0x4Au8, 0x55u8, 0x4Du8, 0x50u8];
    proof {
        assert(r@ =~= kw_jump_s());
    }
    r
}

// "JUMP_EITHER"
fn kw_jump_either() -> (r: Vec<u8>)
    ensures
        r@ == kw_jump_either_s(),
{
    let r = vec![0x4Au8, 0x55u8, 0x4Du8, 0x50u8, 0x5Fu8, 0x45u8, 0x49u8, 0x54u8, 0x48u8, 0x45u8, 0x52u8];
    proof {
        assert(r@ =~= kw_jump_either_s());
    }
    r
}

// "INCR"
fn kw_incr() -> (r: Vec<u8>)
    ensures
        r@ == kw_incr_s(),
{
    let r = vec![0x49u8, 0x4Eu8, 0x43u8, 0x52u8];
    proof {
        assert(r@ =~= kw_incr_s());
    }
    r
}

// "BREAK"
fn kw_break() -> (r: Vec<u8>)
    ensures
        r@ == kw_break_s(),
{
    let r = vec![0x42u8, 0x52u8, 0x45u8, 0x41u8, 0x4Bu8];
    proof {
        assert(r@ =~= kw_break_s());
    }
    r
}

// "RET"
fn kw_ret() -> (r: Vec<u8>)
    ensures
        r@ == kw_ret_s(),
{
    let r = vec![0x52u8, 0x45u8, 0x54u8];
    proof {
        assert(r@ =~= kw_ret_s());
    }
    r
}

#[derive(Clone, Copy)]
enum ParserState {
    BlockStart,
    BlockInstructions(BlockTarget),
}

/// The parser: holds the source text and the program being built, with the
/// label bookkeeping that resolves block references.
pub struct Parser<'a> {
    code: &'a [u8],
    state: ParserState,
    program: Program,
    blocks_with_declarations: Vec<Vec<u8>>,
    block_targets: Vec<(Vec<u8>, BlockTarget)>,
}

proof fn lemma_declared_push(s: Seq<Vec<u8>>, v: Vec<u8>)
    ensures
        (s.push(v)).map_values(|x: Vec<u8>| x@) == s.map_values(|x: Vec<u8>| x@).push(v@),
{
    assert((s.push(v)).map_values(|x: Vec<u8>| x@) =~= s.map_values(|x: Vec<u8>| x@).push(v@));
}

proof fn lemma_targets_push(s: Seq<(Vec<u8>, BlockTarget)>, e: (Vec<u8>, BlockTarget))
    ensures
        (s.push(e)).map_values(|x: (Vec<u8>, BlockTarget)| x.0@) == s.map_values(
            |x: (Vec<u8>, BlockTarget)| x.0@,
        ).push(e.0@),
{
    assert((s.push(e)).map_values(|x: (Vec<u8>, BlockTarget)| x.0@) =~= s.map_values(
        |x: (Vec<u8>, BlockTarget)| x.0@,
    ).push(e.0@));
}

impl<'a> Parser<'a> {
    /// The source text being parsed.
    pub closed spec fn src(self) -> Seq<u8> {
        self.code@
    }

    /// The abstract state the concrete bookkeeping stands for.
    pub closed spec fn model(self) -> ParseModel {
        ParseModel {
            declared: self.blocks_with_declarations@.map_values(|x: Vec<u8>| x@),
            labels: self.block_targets@.map_values(|x: (Vec<u8>, BlockTarget)| x.0@),
            blocks: self.program.blocks@.map_values(|b: crate::vm::BasicBlock| b.instructions@),
            cur: match self.state {
                ParserState::BlockStart => -1,
                ParserState::BlockInstructions(b) => b.0 as int,
            },
        }
    }

    /// The parser's internal consistency: the program under construction
    /// is well formed; blocks and label entries are in lockstep, entry `i`
    /// naming block `i`; and no label is entered twice.
    pub closed spec fn inv(self) -> bool {
        &&& self.program.wf()
        &&& self.program.fresh()
        &&& self.block_targets@.len() == self.program.blocks@.len()
        &&& forall|i: int|
            0 <= i < self.block_targets@.len() ==> (#[trigger] self.block_targets@[i]).1.0 == i
        &&& forall|i: int, j: int|
            0 <= i < j < self.block_targets@.len() ==> (#[trigger] self.block_targets@[i]).0@ != (
            #[trigger] self.block_targets@[j]).0@
        &&& match self.state {
            ParserState::BlockInstructions(b) => b.0 < self.program.blocks@.len(),
            ParserState::BlockStart => true,
        }
    }

    /// A parser over the given source text, in the starting state.
    pub fn new(code: &'a str) -> (r: Parser<'a>)
        ensures
            r.inv(),
            r.src() == code.spec_bytes(),
            r.model() == parse_init(),
    {
        let r = Parser {
            code: code.as_bytes(),
            state: ParserState::BlockStart,
            program: Program { blocks: Vec::new() },
            blocks_with_declarations: Vec::new(),
            block_targets: Vec::new(),
        };
        proof {
            assert(r.model().declared =~= parse_init().declared);
            assert(r.model().labels =~= parse_init().labels);
            assert(r.model().blocks =~= parse_init().blocks);
        }
        r
    }

    /// Parse the whole source: line by line, as `spec_parse_program`
    /// describes.  A successful parse yields exactly the program of the
    /// parse model, well formed and ready for the lowering pass; a failing
    /// one yields exactly the model's error.
    pub fn parse(self) -> (r: Result<Program, ParseError>)
        requires
            self.inv(),
            self.model() == parse_init(),
        ensures
            match r {
                Ok(p) => {
                    &&& p.wf() && p.fresh()
                    &&& spec_parse_program(self.src()) matches Ok(m) && p.blocks@.len()
                        == m.blocks.len() && (forall|i: int|
                        0 <= i < m.blocks.len() ==> (#[trigger] p.blocks@[i]).instructions@
                            == m.blocks[i])
                },
                Err(e) => spec_parse_program(self.src()) == Err::<ParseModel, ParseError>(e),
            },
    {
        let ghost src = self.code@;
        let mut this = self;
        let n = this.code.len();
        let mut pos: usize = 0;
        let mut line_no: usize = 0;
        while pos < n
            invariant
                this.inv(),
                this.code@ == src,
                self.src() == src,
                n == src.len(),
                line_no <= pos,
                model_parse_from(src, 0, 0, parse_init()) == model_parse_from(
                    src,
                    pos as int,
                    line_no,
                    this.model(),
                ),
            decreases n - pos,
        {
            line_no = line_no + 1;
            let ls = pos;
            let mut le = ls;
            while le < n && this.code[le] != 0x0A
                invariant
                    ls <= le <= n,
                    this.code@ == src,
                    n == src.len(),
                    find_line_end(src, ls as int) == find_line_end(src, le as int),
                decreases n - le,
            {
                le = le + 1;
            }
            proof {
                assert(find_line_end(src, ls as int) == le as int);
            }
            pos = if le >= n {
                n
            } else {
                le + 1
            };
            match this.process_line(ls, le, line_no) {
                Ok(_) => {},
                Err(e) => {
                    return Err(e);
                },
            }
        }
        match this.validate_all_blocks_are_declared() {
            Ok(_) => {},
            Err(e) => {
                return Err(e);
            },
        }
        proof {
            assert(spec_parse_program(src) == model_finish(this.model()));
        }
        Ok(this.program)
    }

    /// Handle one source line.
    fn process_line(&mut self, ls: usize, le: usize, line_no: usize) -> (r: Result<
        (),
        ParseError,
    >)
        requires
            old(self).inv(),
            ls <= le <= old(self).code@.len(),
        ensures
            final(self).inv(),
            final(self).code == old(self).code,
            match model_line(
                old(self).model(),
                old(self).code@.subrange(ls as int, le as int),
                line_no,
            ) {
                Ok(m2) => r is Ok && final(self).model() == m2,
                Err(e) => r == Err::<(), ParseError>(e),
            },
    {
        let ghost line = old(self).code@.subrange(ls as int, le as int);
        // A line that opens at column 0 with a letter or digit starts a new
        // block declaration.
        if ls < le && is_alnum_x(self.code[ls]) {
            proof {
                assert(line[0] == old(self).code@[ls as int]);
            }
            self.state = ParserState::BlockStart;
        }
        let ghost m1 = self.model();
        let (a, b) = trim_range(self.code, ls, le);
        let ghost t1 = trim_spec(line);
        // Strip a `//` comment and trim what is left of the line.
        let mut c = b;
        let mut i = a;
        while i < c
            invariant
                a <= i <= c <= b <= self.code@.len(),
                t1 == self.code@.subrange(a as int, b as int),
                c == b ==> find_comment(t1, 0) == find_comment(t1, i - a),
                c < b ==> find_comment(t1, 0) == c - a && i >= c,
            decreases c - i,
        {
            proof {
                assert(t1[i - a] == self.code@[i as int]);
                if i + 1 < b {
                    assert(t1[i - a + 1] == self.code@[i as int + 1]);
                }
            }
            if self.code[i] == 0x2F && i + 1 < c && self.code[i + 1] == 0x2F {
                c = i;
            } else {
                i = i + 1;
            }
        }
        proof {
            assert(find_comment(t1, 0) == c - a);
        }
        let (a2, b2) = trim_range(self.code, a, c);
        let ghost t = trim_spec(t1.take(find_comment(t1, 0)));
        proof {
            assert(self.code@.subrange(a as int, c as int) =~= t1.take(c - a));
            assert(self.code@.subrange(a2 as int, b2 as int) == t);
        }
        if a2 == b2 {
            return Ok(());
        }
        let st = self.state;
        match st {
            ParserState::BlockStart => {
                proof {
                    assert(t.last() == self.code@[b2 as int - 1]);
                }
                if self.code[b2 - 1] == 0x3A {
                    match self.parse_block_start(a2, b2) {
                        Ok(bt) => {
                            self.state = ParserState::BlockInstructions(bt);
                            Ok(())
                        },
                        Err(_) => Err(
                            ParseError { line: line_no, kind: ParseErrorKind::DuplicateLabel },
                        ),
                    }
                } else {
                    Err(ParseError { line: line_no, kind: ParseErrorKind::ExpectedBlockLabel })
                }
            },
            ParserState::BlockInstructions(blk) => {
                self.parse_block_instructions(a2, b2, blk, line_no)
            },
        }
    }

    /// Open a block declaration: collect the leading label characters,
    /// refuse a duplicate declaration, and resolve or create its block.
    fn parse_block_start(&mut self, a: usize, b: usize) -> (r: Result<BlockTarget, ()>)
        requires
            old(self).inv(),
            a < b <= old(self).code@.len(),
        ensures
            final(self).inv(),
            final(self).code == old(self).code,
            final(self).state == old(self).state,
            r matches Ok(bt) ==> bt.0 < final(self).program.blocks@.len(),
            ({
                let t = old(self).code@.subrange(a as int, b as int);
                let label = t.take(label_end(t, 0));
                &&& (contains_label(old(self).model().declared, label) ==> r is Err
                    && final(self).model() == old(self).model())
                &&& (!contains_label(old(self).model().declared, label) ==> (r matches Ok(bt) && ({
                    let g = model_get_or_create(
                        (ParseModel { declared: old(self).model().declared.push(label), ..old(self).model() }),
                        label,
                    );
                    bt.0 as int == g.0 && final(self).model() == g.1
                })))
            }),
    {
        let ghost t = old(self).code@.subrange(a as int, b as int);
        let mut e = a;
        while e < b && is_label_x(self.code[e])
            invariant
                a <= e <= b <= self.code@.len(),
                t == self.code@.subrange(a as int, b as int),
                label_end(t, 0) == label_end(t, e - a),
            decreases b - e,
        {
            proof {
                assert(t[e - a] == self.code@[e as int]);
            }
            e = e + 1;
        }
        proof {
            if e < b {
                assert(t[e - a] == self.code@[e as int]);
            }
            assert(label_end(t, 0) == e - a);
        }
        let label = slice_to_vec(slice_subrange(self.code, a, e));
        proof {
            assert(label@ =~= t.take(label_end(t, 0)));
        }
        if self.label_declared(&label) {
            return Err(());
        }
        let label2 = slice_to_vec(slice_subrange(self.code, a, e));
        let ghost decl0 = self.blocks_with_declarations@;
        self.blocks_with_declarations.push(label2);
        proof {
            lemma_declared_push(decl0, label2);
        }
        Ok(self.get_or_create_block(label))
    }

    /// Whether this label was already declared.
    fn label_declared(&self, label: &Vec<u8>) -> (r: bool)
        ensures
            r == contains_label(self.model().declared, label@),
    {
        let n = self.blocks_with_declarations.len();
        let mut i: usize = 0;
        while i < n
            invariant
                i <= n,
                n == self.blocks_with_declarations@.len(),
                forall|k: int|
                    0 <= k < i ==> (#[trigger] self.blocks_with_declarations@[k])@ != label@,
            decreases n - i,
        {
            if bytes_eq(self.blocks_with_declarations[i].as_slice(), label.as_slice()) {
                proof {
                    assert(self.model().declared[i as int] == label@);
                }
                return true;
            }
            i = i + 1;
        }
        proof {
            assert forall|k: int|
                0 <= k < self.model().declared.len() implies #[trigger] self.model().declared[k]
                != label@ by {
                assert(self.blocks_with_declarations@[k]@ != label@);
            }
        }
        false
    }

    /// Resolve a label to its block, creating the block on first
    /// reference.
    fn get_or_create_block(&mut self, label: Vec<u8>) -> (bt: BlockTarget)
        requires
            old(self).inv(),
        ensures
            final(self).inv(),
            final(self).code == old(self).code,
            final(self).state == old(self).state,
            bt.0 < final(self).program.blocks@.len(),
            final(self).program.blocks@.len() >= old(self).program.blocks@.len(),
            ({
                let r = model_get_or_create(old(self).model(), label@);
                bt.0 as int == r.0 && final(self).model() == r.1
            }),
    {
        let ghost labels0 = old(self).model().labels;
        let n = self.block_targets.len();
        let mut i: usize = 0;
        while i < n
            invariant
                self == old(self),
                self.inv(),
                i <= n,
                n == self.block_targets@.len(),
                labels0 == self.model().labels,
                find_label(labels0, label@, 0) == find_label(labels0, label@, i as int),
                forall|k: int| 0 <= k < i ==> #[trigger] labels0[k] != label@,
            decreases n - i,
        {
            let hit = bytes_eq(self.block_targets[i].0.as_slice(), label.as_slice());
            if hit {
                proof {
                    assert(labels0[i as int] == label@);
                    assert(find_label(labels0, label@, i as int) == Some(i as int));
                }
                let bt = self.block_targets[i].1;
                return bt;
            }
            proof {
                assert(labels0[i as int] != label@);
            }
            i = i + 1;
        }
        proof {
            assert(find_label(labels0, label@, 0) is None);
        }
        let bt = self.program.make_block();
        proof {
            assert forall|k: int, j: int|
                0 <= k < self.program.blocks@.len() && 0 <= j
                    < self.program.blocks@[k].instructions@.len() implies (
            #[trigger] self.program.blocks@[k].instructions@[j]).targets_ok(
                self.program.blocks@.len() as nat,
            ) by {
                assert(old(self).program.blocks@[k].instructions@[j].targets_ok(
                    old(self).program.blocks@.len() as nat,
                ));
            }
        }
        let ghost targets0 = self.block_targets@;
        let ghost blocks0 = self.program.blocks@;
        self.block_targets.push((label, bt));
        proof {
            lemma_targets_push(targets0, (label, bt));
            assert(self.program.blocks@.last().instructions@ =~= Seq::<Instruction>::empty());
            assert(self.model().blocks =~= old(self).model().blocks.push(Seq::<
                Instruction,
            >::empty()));
            assert forall|k: int, j: int|
                0 <= k < j < self.block_targets@.len() implies (
            #[trigger] self.block_targets@[k]).0@ != (#[trigger] self.block_targets@[j]).0@ by {
                if j == self.block_targets@.len() - 1 {
                    assert(labels0[k] == self.block_targets@[k].0@);
                }
            }
            assert(self.model() == model_get_or_create(old(self).model(), label@).1);
        }
        bt
    }

    /// Resolve a `#<label>` block reference.
    fn block_target_literal(&mut self, a: usize, b: usize) -> (r: Result<BlockTarget, ()>)
        requires
            old(self).inv(),
            a <= b <= old(self).code@.len(),
        ensures
            final(self).inv(),
            final(self).code == old(self).code,
            final(self).state == old(self).state,
            final(self).program.blocks@.len() >= old(self).program.blocks@.len(),
            r matches Ok(bt) ==> bt.0 < final(self).program.blocks@.len(),
            ({
                let lit = model_block_literal(
                    old(self).model(),
                    old(self).code@.subrange(a as int, b as int),
                );
                &&& (r matches Ok(bt) ==> lit.0 == Some(bt.0 as int) && final(self).model()
                    == lit.1)
                &&& (r is Err ==> lit.0 is None && final(self).model() == old(self).model())
            }),
    {
        let ghost t = trim_spec(old(self).code@.subrange(a as int, b as int));
        let (a1, b1) = trim_range(self.code, a, b);
        if a1 == b1 || self.code[a1] != 0x23 {
            proof {
                if a1 < b1 {
                    assert(t[0] == self.code@[a1 as int]);
                }
            }
            return Err(());
        }
        proof {
            assert(t[0] == self.code@[a1 as int]);
            assert(t.drop_first() =~= self.code@.subrange(a1 as int + 1, b1 as int));
        }
        let (a2, b2) = trim_range(self.code, a1 + 1, b1);
        let label = slice_to_vec(slice_subrange(self.code, a2, b2));
        proof {
            assert(label@ == trim_spec(t.drop_first()));
        }
        Ok(self.get_or_create_block(label))
    }

    /// Parse one instruction line inside a block: the opcode runs to the
    /// first space; the rest of the line is the operand text.
    fn parse_block_instructions(
        &mut self,
        a: usize,
        b: usize,
        blk: BlockTarget,
        line_no: usize,
    ) -> (r: Result<(), ParseError>)
        requires
            old(self).inv(),
            a <= b <= old(self).code@.len(),
            blk.0 < old(self).program.blocks@.len(),
        ensures
            final(self).inv(),
            final(self).code == old(self).code,
            ({
                let t = old(self).code@.subrange(a as int, b as int);
                match model_instruction_line(old(self).model(), t, blk.0 as int, line_no) {
                    Ok(m2) => r is Ok && final(self).model() == m2 && final(self).state == old(self).state,
                    Err(e) => r == Err::<(), ParseError>(e),
                }
            }),
    {
        let ghost t = old(self).code@.subrange(a as int, b as int);
        let ghost m0 = old(self).model();
        let ghost bi = blk.0 as int;
        let code = self.code;
        let mut sp = a;
        while sp < b && code[sp] != 0x20
            invariant
                a <= sp <= b <= code@.len(),
                t == code@.subrange(a as int, b as int),
                find_space(t, 0) == find_space(t, sp - a),
            decreases b - sp,
        {
            proof {
                assert(t[sp - a] == code@[sp as int]);
            }
            sp = sp + 1;
        }
        proof {
            if sp < b {
                assert(t[sp - a] == code@[sp as int]);
            }
            assert(find_space(t, 0) == sp - a);
        }
        if sp < b {
            let op = slice_subrange(code, a, sp);
            let rest = slice_subrange(code, sp + 1, b);
            proof {
                assert(op@ =~= t.take(sp - a));
                assert(rest@ =~= t.subrange(sp - a + 1, t.len() as int));
            }
            if bytes_eq(op, kw_load_imm().as_slice()) {
                let parsed = match parse_u64_bytes(rest) {
                    Some(v) => Some(Instruction::LoadImmediate { value: Value(v) }),
                    None => None,
                };
                let r = add_single_operand(&mut self.program, &blk, parsed, line_no);
                proof {
                    if parsed is Some {
                        assert(self.model().blocks =~= m0.blocks.update(
                            bi,
                            m0.blocks[bi].push(parsed->0),
                        ));
                    }
                }
                r
            } else if bytes_eq(op, kw_load_reg().as_slice()) {
                let parsed = match VMRegisterTarget::from_bytes(rest) {
                    Ok(tg) => Some(Instruction::Load { reg: tg.0 }),
                    Err(_) => None,
                };
                let r = add_single_operand(&mut self.program, &blk, parsed, line_no);
                proof {
                    if parsed is Some {
                        assert(self.model().blocks =~= m0.blocks.update(
                            bi,
                            m0.blocks[bi].push(parsed->0),
                        ));
                    }
                }
                r
            } else if bytes_eq(op, kw_store_reg().as_slice()) {
                let parsed = match VMRegisterTarget::from_bytes(rest) {
                    Ok(tg) => Some(Instruction::Store { reg: tg.0 }),
                    Err(_) => None,
                };
                let r = add_single_operand(&mut self.program, &blk, parsed, line_no);
                proof {
                    if parsed is Some {
                        assert(self.model().blocks =~= m0.blocks.update(
                            bi,
                            m0.blocks[bi].push(parsed->0),
                        ));
                    }
                }
                r
            } else if bytes_eq(op, kw_set_local().as_slice()) {
                let parsed = match VMLocalTarget::from_bytes(rest) {
                    Ok(tg) => Some(Instruction::SetLocal { local: tg.0 }),
                    Err(_) => None,
                };
                let r = add_single_operand(&mut self.program, &blk, parsed, line_no);
                proof {
                    if parsed is Some {
                        assert(self.model().blocks =~= m0.blocks.update(
                            bi,
                            m0.blocks[bi].push(parsed->0),
                        ));
                    }
                }
                r
            } else if bytes_eq(op, kw_get_local().as_slice()) {
                let parsed = match VMLocalTarget::from_bytes(rest) {
                    Ok(tg) => Some(Instruction::GetLocal { local: tg.0 }),
                    Err(_) => None,
                };
                let r = add_single_operand(&mut self.program, &blk, parsed, line_no);
                proof {
                    if parsed is Some {
                        assert(self.model().blocks =~= m0.blocks.update(
                            bi,
                            m0.blocks[bi].push(parsed->0),
                        ));
                    }
                }
                r
            } else if bytes_eq(op, kw_less_than().as_slice()) {
                let parsed = match VMRegisterTarget::from_bytes(rest) {
                    Ok(tg) => Some(Instruction::LessThan { lhs: tg.0 }),
                    Err(_) => None,
                };
                let r = add_single_operand(&mut self.program, &blk, parsed, line_no);
                proof {
                    if parsed is Some {
                        assert(self.model().blocks =~= m0.blocks.update(
                            bi,
                            m0.blocks[bi].push(parsed->0),
                        ));
                    }
                }
                r
            } else if bytes_eq(op, kw_jump().as_slice()) {
                proof {
                    assert(code@.subrange(sp as int + 1, b as int) == t.subrange(
                        sp - a + 1,
                        t.len() as int,
                    ));
                }
                let parsed = match self.block_target_literal(sp + 1, b) {
                    Ok(tg) => Some(Instruction::Jump { target: tg }),
                    Err(_) => None,
                };
                let ghost mmid = self.model();
                let r = add_single_operand(&mut self.program, &blk, parsed, line_no);
                proof {
                    if parsed is Some {
                        assert(self.model().blocks =~= mmid.blocks.update(
                            bi,
                            mmid.blocks[bi].push(parsed->0),
                        ));
                    }
                }
                r
            } else if bytes_eq(op, kw_jump_either().as_slice()) {
                // Two block references separated by a space.
                let mut sp2 = sp + 1;
                while sp2 < b && code[sp2] != 0x20
                    invariant
                        sp + 1 <= sp2 <= b <= code@.len(),
                        a <= sp < b,
                        t == code@.subrange(a as int, b as int),
                        find_space(t, sp - a + 1) == find_space(t, sp2 - a),
                    decreases b - sp2,
                {
                    proof {
                        assert(t[sp2 - a] == code@[sp2 as int]);
                    }
                    sp2 = sp2 + 1;
                }
                proof {
                    if sp2 < b {
                        assert(t[sp2 - a] == code@[sp2 as int]);
                    }
                    assert(find_space(t, sp - a + 1) == sp2 - a);
                }
                if sp2 >= b {
                    return Err(ParseError { line: line_no, kind: ParseErrorKind::BadOperand });
                }
                proof {
                    assert(code@.subrange(sp as int + 1, sp2 as int) == t.subrange(
                        sp - a + 1,
                        sp2 - a,
                    ));
                    assert(code@.subrange(sp2 as int + 1, b as int) == t.subrange(
                        sp2 - a + 1,
                        t.len() as int,
                    ));
                }
                let tt = match self.block_target_literal(sp + 1, sp2) {
                    Ok(tg) => Some(tg),
                    Err(_) => None,
                };
                let ff = match self.block_target_literal(sp2 + 1, b) {
                    Ok(tg) => Some(tg),
                    Err(_) => None,
                };
                let ghost mmid = self.model();
                let r = add_double_operand(&mut self.program, &blk, tt, ff, line_no);
                proof {
                    if tt is Some && ff is Some {
                        let inst = Instruction::JumpConditional {
                            true_target: tt->0,
                            false_target: ff->0,
                        };
                        assert(self.model().blocks =~= mmid.blocks.update(
                            bi,
                            mmid.blocks[bi].push(inst),
                        ));
                    }
                }
                r
            } else {
                Err(ParseError { line: line_no, kind: ParseErrorKind::UnknownInstruction })
            }
        } else {
            let line = slice_subrange(code, a, b);
            proof {
                assert(line@ =~= t);
            }
            if bytes_eq(line, kw_incr().as_slice()) {
                add_unary(&mut self.program, &blk, Instruction::Increment);
                proof {
                    assert(self.model().blocks =~= m0.blocks.update(
                        bi,
                        m0.blocks[bi].push(Instruction::Increment),
                    ));
                }
                Ok(())
            } else if bytes_eq(line, kw_break().as_slice()) {
                add_unary(&mut self.program, &blk, Instruction::Breakpoint);
                proof {
                    assert(self.model().blocks =~= m0.blocks.update(
                        bi,
                        m0.blocks[bi].push(Instruction::Breakpoint),
                    ));
                }
                Ok(())
            } else if bytes_eq(line, kw_ret().as_slice()) {
                add_unary(&mut self.program, &blk, Instruction::Exit);
                proof {
                    assert(self.model().blocks =~= m0.blocks.update(
                        bi,
                        m0.blocks[bi].push(Instruction::Exit),
                    ));
                }
                Ok(())
            } else {
                Err(ParseError { line: line_no, kind: ParseErrorKind::UnknownInstruction })
            }
        }
    }

    /// Every referenced label must be declared somewhere in the file.
    fn validate_all_blocks_are_declared(&self) -> (r: Result<(), ParseError>)
        requires
            self.inv(),
        ensures
            match model_finish(self.model()) {
                Ok(_) => r is Ok,
                Err(e) => r == Err::<(), ParseError>(e),
            },
    {
        let n = self.block_targets.len();
        let mut i: usize = 0;
        while i < n
            invariant
                i <= n,
                n == self.block_targets@.len(),
                self.inv(),
                forall|k: int|
                    0 <= k < i ==> contains_label(
                        self.model().declared,
                        #[trigger] self.model().labels[k],
                    ),
            decreases n - i,
        {
            let declared = self.label_declared(&self.block_targets[i].0);
            if !declared {
                proof {
                    assert(self.model().labels[i as int] == self.block_targets@[i as int].0@);
                    assert(!contains_label(self.model().declared, self.model().labels[i as int]));
                }
                return Err(ParseError { line: 0, kind: ParseErrorKind::UndeclaredLabel });
            }
            proof {
                assert(self.model().labels[i as int] == self.block_targets@[i as int].0@);
            }
            i = i + 1;
        }
        Ok(())
    }
}

} // verus!
