use vstd::prelude::*;

use crate::lexer::{Mnemonic, Register};
use crate::parser::{instrs_view, InstrView, Instruction, Operand, OperandView};
use crate::resolver::spec_is_pseudo;
use crate::semantics::{
    is_arithmetic, is_arithmetic_ext, is_arithmetic_imm, is_conditional_branch, is_conditional_branch_ext,
    spec_is_arithmetic, spec_is_arithmetic_ext, spec_is_arithmetic_imm, spec_is_conditional_branch,
    spec_is_conditional_branch_ext, DIGIT, REGISTER,
};

verus! {

/// The number of a register in an encoded word.
pub open spec fn reg_num(r: Register) -> u8 {
    match r {
        Register::Zero => 255,
        Register::Fp => 254,
        Register::Sp => 253,
        Register::R(n) => n,
    }
}

/// The op/funct bits of a real instruction.
pub open spec fn op_funct(m: Mnemonic) -> u32 {
    match m {
        Mnemonic::Add => 0x01000000,
        Mnemonic::Sub => 0x02000000,
        Mnemonic::Addi => 0x21000000,
        Mnemonic::Subi => 0x22000000,
        Mnemonic::Slli => 0x24000000,
        Mnemonic::Fabs => 0x04000000,
        Mnemonic::Fneg => 0x08000000,
        Mnemonic::Fadd => 0x41000000,
        Mnemonic::Fsub => 0x42000000,
        Mnemonic::Fmul => 0x44000000,
        Mnemonic::Fdiv => 0x48000000,
        Mnemonic::Ftoi => 0x52000000,
        Mnemonic::Itof => 0x54000000,
        Mnemonic::Fsqrt => 0x58000000,
        Mnemonic::Ibeq => 0x80000000,
        Mnemonic::Ibne => 0x88000000,
        Mnemonic::Iblt => 0x90000000,
        Mnemonic::Ible => 0x98000000,
        Mnemonic::Fblt => 0xa0000000,
        Mnemonic::Fble => 0xa8000000,
        Mnemonic::Fbps => 0xb0000000,
        Mnemonic::Fbng => 0xb8000000,
        Mnemonic::J => 0xc1000000,
        Mnemonic::Jr => 0xc2000000,
        Mnemonic::Call => 0xc4000000,
        Mnemonic::Movl => 0x31000000,
        Mnemonic::Movh => 0x32000000,
        Mnemonic::Urecv => 0x60000000,
        Mnemonic::Usend => 0xe0000000,
        Mnemonic::Lw => 0x61000000,
        Mnemonic::Sw => 0xe1000000,
        _ => 0,
    }
}

/// Whether the op/funct bits of `m` are the top five bits of a word, not the top eight:
/// the real conditional branches, whose offset reaches up to bit 26.
pub open spec fn short_op(m: Mnemonic) -> bool {
    !spec_is_pseudo(m) && (spec_is_conditional_branch(m) || spec_is_conditional_branch_ext(m))
}

/// The top eight bits of a word.
pub open spec fn top_byte(w: u32) -> int {
    w as int / 0x1000000
}

/// Whether the op/funct bits of `m` stand in the word `w`.
pub open spec fn op_matches(w: u32, m: Mnemonic) -> bool {
    if short_op(m) {
        top_byte(w) / 8 == top_byte(op_funct(m)) / 8
    } else {
        top_byte(w) == top_byte(op_funct(m))
    }
}

/// Whether `w` decodes to the real instruction `m`.
pub open spec fn decodes_to(w: u32, m: Mnemonic) -> bool {
    !spec_is_pseudo(m) && op_matches(w, m)
}

/// The kinds that the operands of a resolved instruction `m` have.
pub open spec fn encoding_kinds(m: Mnemonic) -> Seq<u8> {
    if spec_is_arithmetic_imm(m) {
        seq![REGISTER, REGISTER, DIGIT]
    } else if spec_is_arithmetic(m) {
        seq![REGISTER, REGISTER, REGISTER]
    } else if spec_is_arithmetic_ext(m) {
        seq![REGISTER, REGISTER]
    } else if spec_is_conditional_branch(m) {
        seq![REGISTER, REGISTER, DIGIT]
    } else if spec_is_conditional_branch_ext(m) {
        seq![REGISTER, DIGIT]
    } else {
        match m {
            Mnemonic::J | Mnemonic::Call => seq![DIGIT],
            Mnemonic::Jr | Mnemonic::Usend | Mnemonic::Urecv => seq![REGISTER],
            Mnemonic::Lw | Mnemonic::Sw => seq![REGISTER, REGISTER, DIGIT],
            _ => seq![REGISTER, DIGIT],
        }
    }
}

/// Whether `ins` is a real instruction whose operands have the kinds that its encoding reads.
pub open spec fn encodable(ins: InstrView) -> bool {
    let kinds = encoding_kinds(ins.mnemonic);
    &&& !spec_is_pseudo(ins.mnemonic)
    &&& ins.operands.len() == kinds.len()
    &&& forall|k: int|
        0 <= k < kinds.len() ==> (kinds[k] == REGISTER ==> ins.operands[k] is Reg) && (kinds[k] == DIGIT
            ==> ins.operands[k] is Digit)
}

/// The number of a register operand, as a field value.
pub open spec fn reg_field(o: OperandView) -> u32 {
    match o {
        OperandView::Reg(r) => reg_num(r) as u32,
        _ => 0,
    }
}

/// A number operand cut to 32 bits, as a field value.
pub open spec fn imm_field(o: OperandView) -> u32 {
    match o {
        OperandView::Digit(n) => n as u32,
        _ => 0,
    }
}

/// The operand fields of the word of `ins`.
pub open spec fn fields_of(ins: InstrView) -> u32 {
    let m = ins.mnemonic;
    let ops = ins.operands;
    if spec_is_arithmetic(m) {
        if spec_is_arithmetic_imm(m) {
            (reg_field(ops[0]) << 16u32) | (reg_field(ops[1]) << 8u32) | (imm_field(ops[2]) & 0xffu32)
        } else {
            (reg_field(ops[0]) << 16u32) | (reg_field(ops[1]) << 8u32) | reg_field(ops[2])
        }
    } else if spec_is_arithmetic_ext(m) {
        (reg_field(ops[0]) << 16u32) | reg_field(ops[1])
    } else if spec_is_conditional_branch(m) {
        (reg_field(ops[0]) << 8u32) | reg_field(ops[1]) | ((imm_field(ops[2]) << 16u32) & 0x07ffffffu32)
    } else if spec_is_conditional_branch_ext(m) {
        reg_field(ops[0]) | ((imm_field(ops[1]) << 16u32) & 0x07ffffffu32)
    } else {
        match m {
            Mnemonic::J | Mnemonic::Call => imm_field(ops[0]) & 0xffffu32,
            Mnemonic::Jr | Mnemonic::Usend => reg_field(ops[0]),
            Mnemonic::Movl | Mnemonic::Movh => (reg_field(ops[0]) << 16u32) | (imm_field(ops[1]) & 0xffffu32),
            Mnemonic::Urecv => reg_field(ops[0]) << 16u32,
            Mnemonic::Lw => (reg_field(ops[0]) << 16u32) | reg_field(ops[1]) | ((imm_field(ops[2]) << 8u32)
                & 0xff00u32),
            _ => (reg_field(ops[0]) << 8u32) | reg_field(ops[1]) | ((imm_field(ops[2]) << 16u32) & 0xff0000u32),
        }
    }
}

/// The encoded word of `ins`: its operand fields and its op/funct bits.
pub open spec fn word_of(ins: InstrView) -> u32 {
    fields_of(ins) | op_funct(ins.mnemonic)
}

fn get_register_num(r: Register) -> (n: u8)
    ensures
        n == reg_num(r),
{
    match r {
        Register::Zero => 255,
        Register::Fp => 254,
        Register::Sp => 253,
        Register::R(n) => n,
    }
}

/// The op/funct bits of a real instruction (see `op_funct`); none for a long branch.
pub fn get_op_funct(m: Mnemonic) -> (r: u32)
    ensures
        r == op_funct(m),
{
    match m {
        Mnemonic::Add => 0x01000000,
        Mnemonic::Sub => 0x02000000,
        Mnemonic::Addi => 0x21000000,
        Mnemonic::Subi => 0x22000000,
        Mnemonic::Slli => 0x24000000,
        Mnemonic::Fabs => 0x04000000,
        Mnemonic::Fneg => 0x08000000,
        Mnemonic::Fadd => 0x41000000,
        Mnemonic::Fsub => 0x42000000,
        Mnemonic::Fmul => 0x44000000,
        Mnemonic::Fdiv => 0x48000000,
        Mnemonic::Ftoi => 0x52000000,
        Mnemonic::Itof => 0x54000000,
        Mnemonic::Fsqrt => 0x58000000,
        Mnemonic::Ibeq => 0x80000000,
        Mnemonic::Ibne => 0x88000000,
        Mnemonic::Iblt => 0x90000000,
        Mnemonic::Ible => 0x98000000,
        Mnemonic::Fblt => 0xa0000000,
        Mnemonic::Fble => 0xa8000000,
        Mnemonic::Fbps => 0xb0000000,
        Mnemonic::Fbng => 0xb8000000,
        Mnemonic::J => 0xc1000000,
        Mnemonic::Jr => 0xc2000000,
        Mnemonic::Call => 0xc4000000,
        Mnemonic::Movl => 0x31000000,
        Mnemonic::Movh => 0x32000000,
        Mnemonic::Urecv => 0x60000000,
        Mnemonic::Usend => 0xe0000000,
        Mnemonic::Lw => 0x61000000,
        Mnemonic::Sw => 0xe1000000,
        _ => 0,
    }
}

fn reg_of(o: &Operand) -> (r: u32)
    ensures
        r == reg_field(o@),
{
    match o {
        Operand::OpRegister(reg) => get_register_num(*reg) as u32,
        _ => 0,
    }
}

fn imm_of(o: &Operand) -> (r: u32)
    ensures
        r == imm_field(o@),
{
    match o {
        Operand::OpDigit(n) => *n as u32,
        _ => 0,
    }
}

/// The encoded word of one resolved instruction (see `word_of`).
fn encode_one(ins: &Instruction) -> (w: u32)
    requires
        encodable(ins@),
    ensures
        w == word_of(ins@),
{
    let m = ins.mnemonic;
    let ops = &ins.operands;
    assert(ins@.operands.len() == ops@.len());
    assert(forall|k: int| 0 <= k < ops@.len() ==> ins@.operands[k] == (#[trigger] ops@[k])@);
    let b: u32 = if is_arithmetic(m) {
        if is_arithmetic_imm(m) {
            (reg_of(&ops[0]) << 16u32) | (reg_of(&ops[1]) << 8u32) | (imm_of(&ops[2]) & 0xffu32)
        } else {
            (reg_of(&ops[0]) << 16u32) | (reg_of(&ops[1]) << 8u32) | reg_of(&ops[2])
        }
    } else if is_arithmetic_ext(m) {
        (reg_of(&ops[0]) << 16u32) | reg_of(&ops[1])
    } else if is_conditional_branch(m) {
        (reg_of(&ops[0]) << 8u32) | reg_of(&ops[1]) | ((imm_of(&ops[2]) << 16u32) & 0x07ffffffu32)
    } else if is_conditional_branch_ext(m) {
        reg_of(&ops[0]) | ((imm_of(&ops[1]) << 16u32) & 0x07ffffffu32)
    } else {
        match m {
            Mnemonic::J | Mnemonic::Call => imm_of(&ops[0]) & 0xffffu32,
            Mnemonic::Jr | Mnemonic::Usend => reg_of(&ops[0]),
            Mnemonic::Movl | Mnemonic::Movh => (reg_of(&ops[0]) << 16u32) | (imm_of(&ops[1]) & 0xffffu32),
            Mnemonic::Urecv => reg_of(&ops[0]) << 16u32,
            Mnemonic::Lw => (reg_of(&ops[0]) << 16u32) | reg_of(&ops[1]) | ((imm_of(&ops[2]) << 8u32) & 0xff00u32),
            _ => (reg_of(&ops[0]) << 8u32) | reg_of(&ops[1]) | ((imm_of(&ops[2]) << 16u32) & 0xff0000u32),
        }
    };
    b | get_op_funct(m)
}

/// Encodes each resolved instruction into its 32-bit word, in order.
pub fn encode(instructions: Vec<Instruction>) -> (r: Vec<u32>)
    requires
        forall|i: int| 0 <= i < instructions@.len() ==> encodable(#[trigger] instrs_view(instructions@)[i]),
    ensures
        r@.len() == instructions@.len(),
        forall|i: int| 0 <= i < r@.len() ==> #[trigger] r@[i] == word_of(instrs_view(instructions@)[i]),
{
    let ghost s = instrs_view(instructions@);
    let mut binary: Vec<u32> = Vec::new();
    let mut i: usize = 0;
    while i < instructions.len()
        invariant
            s == instrs_view(instructions@),
            forall|j: int| 0 <= j < s.len() ==> encodable(#[trigger] s[j]),
            i <= instructions@.len(),
            binary@.len() == i,
            forall|j: int| 0 <= j < i ==> #[trigger] binary@[j] == word_of(s[j]),
        decreases instructions@.len() - i,
    {
        assert(s[i as int] == instructions@[i as int]@);
        binary.push(encode_one(&instructions[i]));
        i = i + 1;
    }
    binary
}


proof fn lemma_field_bounds(a: u32, b: u32, c: u32, x: u32)
    by (bit_vector)
    requires
        a < 256,
        b < 256,
        c < 256,
    ensures
        ((a << 16u32) | (b << 8u32) | c) < 0x1000000,
        ((a << 16u32) | (b << 8u32) | (x & 0xffu32)) < 0x1000000,
        ((a << 16u32) | b) < 0x1000000,
        ((a << 8u32) | b | ((x << 16u32) & 0x07ffffffu32)) < 0x8000000,
        (a | ((x << 16u32) & 0x07ffffffu32)) < 0x8000000,
        (x & 0xffffu32) < 0x1000000,
        ((a << 16u32) | (x & 0xffffu32)) < 0x1000000,
        (a << 16u32) < 0x1000000,
        ((a << 16u32) | b | ((x << 8u32) & 0xff00u32)) < 0x1000000,
        ((a << 8u32) | b | ((x << 16u32) & 0xff0000u32)) < 0x1000000,
{
}

proof fn lemma_top_bits(f: u32, op: u32)
    by (bit_vector)
    ensures
        (f < 0x1000000 && op % 0x1000000 == 0) ==> (f | op) / 0x1000000 == op / 0x1000000,
        (f < 0x8000000 && op % 0x8000000 == 0) ==> ((f | op) / 0x1000000) / 8 == (op / 0x1000000) / 8,
{
}

/// Every encoded word carries the op/funct bits of its instruction's mnemonic.
pub proof fn lemma_word_op_funct(ins: InstrView)
    requires
        encodable(ins),
    ensures
        op_matches(word_of(ins), ins.mnemonic),
{
    let ops = ins.operands;
    let m = ins.mnemonic;
    let kinds = encoding_kinds(m);
    let a = reg_field(ops[0]);
    let b = if ops.len() > 1 { reg_field(ops[1]) } else { 0 };
    let c = if ops.len() > 2 { reg_field(ops[2]) } else { 0 };
    let x = if short_op(m) {
        imm_field(ops[ops.len() - 1])
    } else if ops.len() > 2 {
        imm_field(ops[2])
    } else if ops.len() > 1 {
        imm_field(ops[1])
    } else {
        imm_field(ops[0])
    };
    lemma_field_bounds(a, b, c, x);
    lemma_top_bits(fields_of(ins), op_funct(m));
}

/// No word carries the op/funct bits of two real instructions: their table is one to one.
pub proof fn lemma_op_funct_unique(w: u32, m1: Mnemonic, m2: Mnemonic)
    requires
        decodes_to(w, m1),
        decodes_to(w, m2),
    ensures
        m1 == m2,
{
}

/// Decoding the op/funct bits of a word of an encodable instruction gives back its
/// mnemonic, and no other real instruction.
pub proof fn lemma_decode_round_trip(ins: InstrView)
    requires
        encodable(ins),
    ensures
        decodes_to(word_of(ins), ins.mnemonic),
        forall|m: Mnemonic| #[trigger] decodes_to(word_of(ins), m) ==> m == ins.mnemonic,
{
    lemma_word_op_funct(ins);
    assert forall|m: Mnemonic| #[trigger] decodes_to(word_of(ins), m) implies m == ins.mnemonic by {
        lemma_op_funct_unique(word_of(ins), m, ins.mnemonic);
    }
}

/// The real instruction whose op/funct bits stand in `w`, if one does.
pub fn decode_op_funct(w: u32) -> (r: Option<Mnemonic>)
    ensures
        match r {
            Some(m) => decodes_to(w, m),
            None => forall|m: Mnemonic| !#[trigger] decodes_to(w, m),
        },
{
    let t = w / 0x1000000;
    let r = match t / 8 {
        16 => Some(Mnemonic::Ibeq),
        17 => Some(Mnemonic::Ibne),
        18 => Some(Mnemonic::Iblt),
        19 => Some(Mnemonic::Ible),
        20 => Some(Mnemonic::Fblt),
        21 => Some(Mnemonic::Fble),
        22 => Some(Mnemonic::Fbps),
        23 => Some(Mnemonic::Fbng),
        _ => match t {
            0x01 => Some(Mnemonic::Add),
            0x02 => Some(Mnemonic::Sub),
            0x21 => Some(Mnemonic::Addi),
            0x22 => Some(Mnemonic::Subi),
            0x24 => Some(Mnemonic::Slli),
            0x04 => Some(Mnemonic::Fabs),
            0x08 => Some(Mnemonic::Fneg),
            0x41 => Some(Mnemonic::Fadd),
            0x42 => Some(Mnemonic::Fsub),
            0x44 => Some(Mnemonic::Fmul),
            0x48 => Some(Mnemonic::Fdiv),
            0x52 => Some(Mnemonic::Ftoi),
            0x54 => Some(Mnemonic::Itof),
            0x58 => Some(Mnemonic::Fsqrt),
            0xc1 => Some(Mnemonic::J),
            0xc2 => Some(Mnemonic::Jr),
            0xc4 => Some(Mnemonic::Call),
            0x31 => Some(Mnemonic::Movl),
            0x32 => Some(Mnemonic::Movh),
            0x60 => Some(Mnemonic::Urecv),
            0xe0 => Some(Mnemonic::Usend),
            0x61 => Some(Mnemonic::Lw),
            0xe1 => Some(Mnemonic::Sw),
            _ => None,
        },
    };
    r
}

} // verus!
