use vstd::prelude::*;

use crate::lexer::{Mnemonic, Register};
use crate::parser::{contains_label, instrs_view, names_view, InstrView, Instruction, Operand, OperandView};

verus! {

/// Why a program is not well formed, and where.
#[derive(Debug, Clone)]
pub enum SemanticError {
    /// A number outside `[0, limit)`.
    ImmTooLargeError { line: usize, ch: usize, limit: i64 },
    /// An instruction with another number of operands than `expected`.
    InvalidOperandNumError { line: usize, ch: usize, expected: usize },
    /// An instruction that would write to the zero register.
    SubstitutionToZeroError { line: usize, ch: usize },
    /// An operand, at `position` (from 0), of a kind that `kinds` does not admit.
    InvalidOperandKindError { line: usize, ch: usize, position: usize, kinds: u8 },
    /// A label that the program does not define.
    LabelNotFoundError { line: usize, ch: usize, label: String },
}

/// A semantic error as a mathematical value.
pub ghost enum SemanticErrorView {
    ImmTooLarge { line: usize, ch: usize, limit: i64 },
    InvalidOperandNum { line: usize, ch: usize, expected: usize },
    SubstitutionToZero { line: usize, ch: usize },
    InvalidOperandKind { line: usize, ch: usize, position: usize, kinds: u8 },
    LabelNotFound { line: usize, ch: usize, label: Seq<char> },
}

impl View for SemanticError {
    type V = SemanticErrorView;

    open spec fn view(&self) -> SemanticErrorView {
        match self {
            SemanticError::ImmTooLargeError { line, ch, limit } => SemanticErrorView::ImmTooLarge {
                line: *line,
                ch: *ch,
                limit: *limit,
            },
            SemanticError::InvalidOperandNumError { line, ch, expected } => SemanticErrorView::InvalidOperandNum {
                line: *line,
                ch: *ch,
                expected: *expected,
            },
            SemanticError::SubstitutionToZeroError { line, ch } => SemanticErrorView::SubstitutionToZero {
                line: *line,
                ch: *ch,
            },
            SemanticError::InvalidOperandKindError { line, ch, position, kinds } => SemanticErrorView::InvalidOperandKind {
                line: *line,
                ch: *ch,
                position: *position,
                kinds: *kinds,
            },
            SemanticError::LabelNotFoundError { line, ch, label } => SemanticErrorView::LabelNotFound {
                line: *line,
                ch: *ch,
                label: label@,
            },
        }
    }
}

/// The operand kinds, as bits of a mask of admissible kinds.
pub const REGISTER: u8 = 1;
pub const LABEL: u8 = 2;
pub const DIGIT: u8 = 4;
/// A number or a label: `DIGIT | LABEL`.
pub const DIGIT_OR_LABEL: u8 = 6;

/// Whether the mask `kinds` admits a register (bit `REGISTER`).
pub open spec fn admits_register(kinds: u8) -> bool {
    kinds % 2 == 1
}

/// Whether the mask `kinds` admits a label (bit `LABEL`).
pub open spec fn admits_label(kinds: u8) -> bool {
    (kinds / 2) % 2 == 1
}

/// Whether the mask `kinds` admits a number (bit `DIGIT`).
pub open spec fn admits_digit(kinds: u8) -> bool {
    (kinds / 4) % 2 == 1
}

pub open spec fn spec_is_arithmetic(m: Mnemonic) -> bool {
    matches!(m, Mnemonic::Add | Mnemonic::Sub | Mnemonic::Addi | Mnemonic::Subi | Mnemonic::Slli
        | Mnemonic::Fadd | Mnemonic::Fsub | Mnemonic::Fmul | Mnemonic::Fdiv)
}

pub open spec fn spec_is_arithmetic_ext(m: Mnemonic) -> bool {
    matches!(m, Mnemonic::Fabs | Mnemonic::Fneg | Mnemonic::Fsqrt | Mnemonic::Itof | Mnemonic::Ftoi)
}

pub open spec fn spec_is_arithmetic_imm(m: Mnemonic) -> bool {
    matches!(m, Mnemonic::Addi | Mnemonic::Subi | Mnemonic::Slli)
}

pub open spec fn spec_is_conditional_branch(m: Mnemonic) -> bool {
    matches!(m, Mnemonic::Ibeq | Mnemonic::Ibne | Mnemonic::Ible | Mnemonic::Iblt | Mnemonic::Fblt
        | Mnemonic::Fble | Mnemonic::Libeq | Mnemonic::Libne | Mnemonic::Lible | Mnemonic::Liblt
        | Mnemonic::Lfblt | Mnemonic::Lfble)
}

pub open spec fn spec_is_conditional_branch_ext(m: Mnemonic) -> bool {
    matches!(m, Mnemonic::Fbps | Mnemonic::Fbng | Mnemonic::Lfbps | Mnemonic::Lfbng)
}

/// Whether `m` is one of Add, Sub, Addi, Subi, Slli, Fadd, Fsub, Fmul, Fdiv.
pub fn is_arithmetic(m: Mnemonic) -> (r: bool)
    ensures
        r == spec_is_arithmetic(m),
{
    match m {
        Mnemonic::Add | Mnemonic::Sub | Mnemonic::Addi | Mnemonic::Subi | Mnemonic::Slli
        | Mnemonic::Fadd | Mnemonic::Fsub | Mnemonic::Fmul | Mnemonic::Fdiv => true,
        _ => false,
    }
}

/// Whether `m` is one of Fabs, Fneg, Fsqrt, Itof, Ftoi.
pub fn is_arithmetic_ext(m: Mnemonic) -> (r: bool)
    ensures
        r == spec_is_arithmetic_ext(m),
{
    match m {
        Mnemonic::Fabs | Mnemonic::Fneg | Mnemonic::Fsqrt | Mnemonic::Itof | Mnemonic::Ftoi => true,
        _ => false,
    }
}

/// Whether `m` is one of Addi, Subi, Slli.
pub fn is_arithmetic_imm(m: Mnemonic) -> (r: bool)
    ensures
        r == spec_is_arithmetic_imm(m),
{
    match m {
        Mnemonic::Addi | Mnemonic::Subi | Mnemonic::Slli => true,
        _ => false,
    }
}

/// Whether `m` branches on two registers, a real branch or a long one.
pub fn is_conditional_branch(m: Mnemonic) -> (r: bool)
    ensures
        r == spec_is_conditional_branch(m),
{
    match m {
        Mnemonic::Ibeq | Mnemonic::Ibne | Mnemonic::Ible | Mnemonic::Iblt | Mnemonic::Fblt
        | Mnemonic::Fble | Mnemonic::Libeq | Mnemonic::Libne | Mnemonic::Lible | Mnemonic::Liblt
        | Mnemonic::Lfblt | Mnemonic::Lfble => true,
        _ => false,
    }
}

/// Whether `m` branches on one register, a real branch or a long one.
pub fn is_conditional_branch_ext(m: Mnemonic) -> (r: bool)
    ensures
        r == spec_is_conditional_branch_ext(m),
{
    match m {
        Mnemonic::Fbps | Mnemonic::Fbng | Mnemonic::Lfbps | Mnemonic::Lfbng => true,
        _ => false,
    }
}

/// The admissible kinds of each operand of `m`.
pub open spec fn operand_kinds(m: Mnemonic) -> Seq<u8> {
    if spec_is_arithmetic_imm(m) {
        seq![REGISTER, REGISTER, DIGIT]
    } else if spec_is_arithmetic(m) {
        seq![REGISTER, REGISTER, REGISTER]
    } else if spec_is_arithmetic_ext(m) {
        seq![REGISTER, REGISTER]
    } else if spec_is_conditional_branch(m) {
        seq![REGISTER, REGISTER, LABEL]
    } else if spec_is_conditional_branch_ext(m) {
        seq![REGISTER, LABEL]
    } else {
        match m {
            Mnemonic::J | Mnemonic::Call => seq![LABEL],
            Mnemonic::Jr | Mnemonic::Usend | Mnemonic::Urecv => seq![REGISTER],
            Mnemonic::Lw | Mnemonic::Sw => seq![REGISTER, REGISTER, DIGIT],
            _ => seq![REGISTER, DIGIT_OR_LABEL],
        }
    }
}

/// The position of the number operand of `m` that must lie in `[0, limit)`, with the limit.
pub open spec fn imm_bound(m: Mnemonic) -> Option<(int, i64)> {
    if spec_is_arithmetic_imm(m) {
        Some((2, 256))
    } else {
        match m {
            Mnemonic::Lw | Mnemonic::Sw => Some((2, 256)),
            Mnemonic::Movl | Mnemonic::Movh => Some((1, 65536)),
            _ => None,
        }
    }
}

/// Whether `m` writes its first operand, which then must not be the zero register.
pub open spec fn writes_first(m: Mnemonic) -> bool {
    spec_is_arithmetic(m) || spec_is_arithmetic_ext(m) || m == Mnemonic::Urecv || m == Mnemonic::Lw
        || m == Mnemonic::Movl || m == Mnemonic::Movh
}

/// The error of an operand `o` at `position`, where `kinds` are admissible.
pub open spec fn operand_error(
    o: OperandView,
    kinds: u8,
    position: int,
    labels: Seq<Seq<char>>,
    line: usize,
    ch: usize,
) -> Option<SemanticErrorView> {
    let bad = SemanticErrorView::InvalidOperandKind { line, ch, position: position as usize, kinds };
    match o {
        OperandView::Reg(_) => if admits_register(kinds) { None } else { Some(bad) },
        OperandView::Label(l) => if !admits_label(kinds) {
            Some(bad)
        } else if labels.contains(l) {
            None
        } else {
            Some(SemanticErrorView::LabelNotFound { line, ch, label: l })
        },
        OperandView::Digit(_) => if admits_digit(kinds) { None } else { Some(bad) },
    }
}

/// The first error among the operands from `k` on.
pub open spec fn operands_error_from(
    ops: Seq<OperandView>,
    kinds: Seq<u8>,
    labels: Seq<Seq<char>>,
    line: usize,
    ch: usize,
    k: int,
) -> Option<SemanticErrorView>
    decreases ops.len() - k,
{
    if k < 0 || k >= ops.len() {
        None
    } else {
        match operand_error(ops[k], kinds[k], k, labels, line, ch) {
            Some(e) => Some(e),
            None => operands_error_from(ops, kinds, labels, line, ch, k + 1),
        }
    }
}

/// Whether the operands `ops` have the number and the kinds that `kinds` gives.
pub open spec fn confirm_spec(
    ops: Seq<OperandView>,
    kinds: Seq<u8>,
    labels: Seq<Seq<char>>,
    line: usize,
    ch: usize,
) -> Result<(), SemanticErrorView> {
    if ops.len() != kinds.len() {
        Err(SemanticErrorView::InvalidOperandNum { line, ch, expected: kinds.len() as usize })
    } else {
        match operands_error_from(ops, kinds, labels, line, ch, 0) {
            Some(e) => Err(e),
            None => Ok(()),
        }
    }
}

/// The first thing wrong with an instruction: its operands, then the range of its
/// number, then a write to the zero register.
pub open spec fn check_instr(ins: InstrView, labels: Seq<Seq<char>>) -> Result<(), SemanticErrorView> {
    let (m, ops, line, ch) = (ins.mnemonic, ins.operands, ins.line, ins.ch);
    match confirm_spec(ops, operand_kinds(m), labels, line, ch) {
        Err(e) => Err(e),
        Ok(()) => match imm_bound(m) {
            Some((k, limit)) if ops[k] is Digit && !(0 <= ops[k]->Digit_0 < limit) => Err(
                SemanticErrorView::ImmTooLarge { line, ch, limit },
            ),
            _ => if writes_first(m) && ops[0] == OperandView::Reg(Register::Zero) {
                Err(SemanticErrorView::SubstitutionToZero { line, ch })
            } else {
                Ok(())
            },
        },
    }
}

/// The first error among the instructions from `k` on.
pub open spec fn check_from(s: Seq<InstrView>, labels: Seq<Seq<char>>, k: int) -> Result<(), SemanticErrorView>
    decreases s.len() - k,
{
    if k < 0 || k >= s.len() {
        Ok(())
    } else {
        match check_instr(s[k], labels) {
            Err(e) => Err(e),
            Ok(()) => check_from(s, labels, k + 1),
        }
    }
}

/// Whether every instruction of `s` passes the checks.
pub open spec fn well_formed(s: Seq<InstrView>, labels: Seq<Seq<char>>) -> bool {
    check_from(s, labels, 0) is Ok
}


proof fn lemma_kind_bits(k: u8)
    ensures
        (k & REGISTER != 0) == admits_register(k),
        (k & LABEL != 0) == admits_label(k),
        (k & DIGIT != 0) == admits_digit(k),
{
    assert((k & 1u8 != 0) == (k % 2 == 1)) by (bit_vector);
    assert((k & 2u8 != 0) == ((k / 2) % 2 == 1)) by (bit_vector);
    assert((k & 4u8 != 0) == ((k / 4) % 2 == 1)) by (bit_vector);
}

/// The admissible kinds of each operand of `m` (see `operand_kinds`).
fn kinds_of(m: Mnemonic) -> (r: Vec<u8>)
    ensures
        r@ == operand_kinds(m),
{
    let r = if is_arithmetic_imm(m) {
        vec![REGISTER, REGISTER, DIGIT]
    } else if is_arithmetic(m) {
        vec![REGISTER, REGISTER, REGISTER]
    } else if is_arithmetic_ext(m) {
        vec![REGISTER, REGISTER]
    } else if is_conditional_branch(m) {
        vec![REGISTER, REGISTER, LABEL]
    } else if is_conditional_branch_ext(m) {
        vec![REGISTER, LABEL]
    } else {
        match m {
            Mnemonic::J | Mnemonic::Call => vec![LABEL],
            Mnemonic::Jr | Mnemonic::Usend | Mnemonic::Urecv => vec![REGISTER],
            Mnemonic::Lw | Mnemonic::Sw => vec![REGISTER, REGISTER, DIGIT],
            _ => vec![REGISTER, DIGIT_OR_LABEL],
        }
    };
    proof {
        assert(r@ =~= operand_kinds(m));
    }
    r
}

fn imm_bound_of(m: Mnemonic) -> (r: Option<(usize, i64)>)
    ensures
        match imm_bound(m) {
            Some((k, limit)) => r == Some((k as usize, limit)) && k < operand_kinds(m).len(),
            None => r is None,
        },
{
    if is_arithmetic_imm(m) {
        Some((2, 256))
    } else {
        match m {
            Mnemonic::Lw | Mnemonic::Sw => Some((2, 256)),
            Mnemonic::Movl | Mnemonic::Movh => Some((1, 65536)),
            _ => None,
        }
    }
}

/// Checks that `operands` have the number and the kinds that `kinds` gives, and that
/// each label among them is defined (see `confirm_spec`).
fn confirm(operands: &Vec<Operand>, kinds: &Vec<u8>, labels: &Vec<String>, line: usize, ch: usize) -> (r: Result<(), SemanticError>)
    ensures
        match confirm_spec(crate::parser::operands_view(operands@), kinds@, names_view(labels@), line, ch) {
            Ok(()) => r is Ok,
            Err(e) => r is Err && r->Err_0@ == e,
        },
{
    let ghost ops = crate::parser::operands_view(operands@);
    let ghost names = names_view(labels@);
    if operands.len() != kinds.len() {
        return Err(SemanticError::InvalidOperandNumError { line, ch, expected: kinds.len() });
    }
    let mut i: usize = 0;
    while i < operands.len()
        invariant
            ops == crate::parser::operands_view(operands@),
            names == names_view(labels@),
            operands@.len() == kinds@.len(),
            i <= operands@.len(),
            operands_error_from(ops, kinds@, names, line, ch, i as int)
                == operands_error_from(ops, kinds@, names, line, ch, 0),
        decreases operands@.len() - i,
    {
        let kind = kinds[i];
        proof {
            lemma_kind_bits(kind);
        }
        let bad = SemanticError::InvalidOperandKindError { line, ch, position: i, kinds: kind };
        match &operands[i] {
            Operand::OpRegister(_) => {
                if kind & REGISTER == 0 {
                    return Err(bad);
                }
            },
            Operand::OpLabel(label) => {
                if kind & LABEL == 0 {
                    return Err(bad);
                }
                if !contains_label(labels, label) {
                    return Err(SemanticError::LabelNotFoundError { line, ch, label: label.clone() });
                }
            },
            Operand::OpDigit(_) => {
                if kind & DIGIT == 0 {
                    return Err(bad);
                }
            },
        }
        i = i + 1;
    }
    Ok(())
}

/// Checks every instruction, in order, against the operand table: the number and kinds
/// of its operands, that its labels are defined, that its number fits its field, and that
/// it writes no value to the zero register. Gives the first error found (see `check_from`).
pub fn check_semantics(instructions: &Vec<Instruction>, labels: &Vec<String>) -> (r: Result<(), SemanticError>)
    ensures
        match check_from(instrs_view(instructions@), names_view(labels@), 0) {
            Ok(()) => r is Ok,
            Err(e) => r is Err && r->Err_0@ == e,
        },
{
    let ghost s = instrs_view(instructions@);
    let ghost names = names_view(labels@);
    let mut k: usize = 0;
    while k < instructions.len()
        invariant
            s == instrs_view(instructions@),
            names == names_view(labels@),
            k <= instructions@.len(),
            check_from(s, names, k as int) == check_from(s, names, 0),
        decreases instructions@.len() - k,
    {
        let ins = &instructions[k];
        let m = ins.mnemonic;
        let (line, ch) = (ins.line, ins.ch);
        assert(s[k as int] == ins@);
        let kinds = kinds_of(m);
        match confirm(&ins.operands, &kinds, labels, line, ch) {
            Ok(()) => {},
            Err(e) => return Err(e),
        }
        match imm_bound_of(m) {
            Some((pos, limit)) => {
                match &ins.operands[pos] {
                    Operand::OpDigit(n) => {
                        if !(0 <= *n && *n < limit) {
                            return Err(SemanticError::ImmTooLargeError { line, ch, limit });
                        }
                    },
                    _ => {},
                }
            },
            None => {},
        }
        if is_arithmetic(m) || is_arithmetic_ext(m) || m == Mnemonic::Urecv || m == Mnemonic::Lw
            || m == Mnemonic::Movl || m == Mnemonic::Movh {
            match &ins.operands[0] {
                Operand::OpRegister(Register::Zero) => {
                    return Err(SemanticError::SubstitutionToZeroError { line, ch });
                },
                _ => {},
            }
        }
        k = k + 1;
    }
    Ok(())
}

} // verus!
