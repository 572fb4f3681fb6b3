use vstd::prelude::*;

use crate::encoder::{
    decodes_to, encodable, encode, encoding_kinds, lemma_word_op_funct, op_matches, word_of,
};
use crate::lexer::{lex_stream, Lexer, Mnemonic};
use crate::parser::{instrs_view, parse_program, InstrView, OperandView, ParseError, Parser};
use crate::resolver::{
    address_of, emit, lemma_long_branch_expansion, pseudos_well_shaped, resolve_prefix, resolve_spec,
    resolve_without_optimization, spec_is_pseudo, spec_neg, target_position, ResolutionError,
    ResolutionErrorView, MAX_INSTRUCTIONS,
};
use crate::semantics::{
    admits_digit, admits_label, admits_register, check_from, check_instr, check_semantics,
    operand_error, operand_kinds, operands_error_from, SemanticError, SemanticErrorView,
};

verus! {

/// Why a source could not be assembled.
#[derive(Debug, Clone)]
pub enum AsmError {
    Parse(ParseError),
    Semantic(SemanticError),
    Resolution(ResolutionError),
    /// A source or a program too large for the assembler's counters.
    TooLarge,
}

/// An assembly error as a mathematical value.
pub ghost enum AsmErrorView {
    Parse(ParseError),
    Semantic(SemanticErrorView),
    Resolution(ResolutionErrorView),
    TooLarge,
}

impl View for AsmError {
    type V = AsmErrorView;

    open spec fn view(&self) -> AsmErrorView {
        match self {
            AsmError::Parse(e) => AsmErrorView::Parse(*e),
            AsmError::Semantic(e) => AsmErrorView::Semantic(e@),
            AsmError::Resolution(e) => AsmErrorView::Resolution(e@),
            AsmError::TooLarge => AsmErrorView::TooLarge,
        }
    }
}

/// The program that a source spells: its instructions and labels.
pub open spec fn parsed(src: Seq<u8>) -> Result<(Seq<InstrView>, Seq<Seq<char>>), ParseError> {
    parse_program(lex_stream(src, 0, 1, 1))
}

/// The words that a source assembles to, or the first error: the source is parsed, its
/// instructions are checked, resolved and encoded.
pub open spec fn assemble_spec(src: Seq<u8>) -> Result<Seq<u32>, AsmErrorView> {
    if src.len() + 4 > usize::MAX {
        Err(AsmErrorView::TooLarge)
    } else {
        match parsed(src) {
            Err(e) => Err(AsmErrorView::Parse(e)),
            Ok((instrs, labels)) => match check_from(instrs, labels, 0) {
                Err(e) => Err(AsmErrorView::Semantic(e)),
                Ok(()) => if instrs.len() > MAX_INSTRUCTIONS {
                    Err(AsmErrorView::TooLarge)
                } else {
                    match resolve_spec(instrs, labels) {
                        Err(e) => Err(AsmErrorView::Resolution(e)),
                        Ok(r) => Ok(r.map_values(|i: InstrView| word_of(i))),
                    }
                },
            },
        }
    }
}

proof fn lemma_operands_ok(
    ops: Seq<OperandView>,
    kinds: Seq<u8>,
    labels: Seq<Seq<char>>,
    line: usize,
    ch: usize,
    k: int,
)
    requires
        0 <= k,
        ops.len() == kinds.len(),
        operands_error_from(ops, kinds, labels, line, ch, k) is None,
    ensures
        forall|j: int| k <= j < ops.len() ==> operand_error(#[trigger] ops[j], kinds[j], j, labels, line, ch) is None,
    decreases ops.len() - k,
{
    if k < ops.len() {
        lemma_operands_ok(ops, kinds, labels, line, ch, k + 1);
    }
}

proof fn lemma_checked_each(s: Seq<InstrView>, labels: Seq<Seq<char>>, k: int)
    requires
        0 <= k,
        check_from(s, labels, k) is Ok,
    ensures
        forall|i: int| k <= i < s.len() ==> check_instr(#[trigger] s[i], labels) is Ok,
    decreases s.len() - k,
{
    if k < s.len() {
        lemma_checked_each(s, labels, k + 1);
    }
}

/// What the checks of one instruction give: each operand has a kind that its position admits.
proof fn lemma_checked_kinds(ins: InstrView, labels: Seq<Seq<char>>)
    requires
        check_instr(ins, labels) is Ok,
    ensures
        ins.operands.len() == operand_kinds(ins.mnemonic).len(),
        forall|j: int|
            0 <= j < ins.operands.len() ==> {
                let kind = operand_kinds(ins.mnemonic)[j];
                &&& (#[trigger] ins.operands[j]) is Reg ==> admits_register(kind)
                &&& ins.operands[j] is Label ==> admits_label(kind)
                &&& ins.operands[j] is Digit ==> admits_digit(kind)
            },
{
    let kinds = operand_kinds(ins.mnemonic);
    lemma_operands_ok(ins.operands, kinds, labels, ins.line, ins.ch, 0);
    assert forall|j: int| 0 <= j < ins.operands.len() implies {
        let kind = operand_kinds(ins.mnemonic)[j];
        &&& (#[trigger] ins.operands[j]) is Reg ==> admits_register(kind)
        &&& ins.operands[j] is Label ==> admits_label(kind)
        &&& ins.operands[j] is Digit ==> admits_digit(kind)
    } by {
        assert(operand_error(ins.operands[j], kinds[j], j, labels, ins.line, ins.ch) is None);
    }
}

/// A checked program has a label operand wherever a long branch needs one.
proof fn lemma_checked_well_shaped(s: Seq<InstrView>, labels: Seq<Seq<char>>)
    requires
        check_from(s, labels, 0) is Ok,
    ensures
        pseudos_well_shaped(s),
{
    lemma_checked_each(s, labels, 0);
    assert forall|i: int| 0 <= i < s.len() && spec_is_pseudo(#[trigger] s[i].mnemonic) implies {
        let k = target_position(s[i].mnemonic)->0;
        k < s[i].operands.len() && s[i].operands[k] is Label
    } by {
        lemma_checked_kinds(s[i], labels);
        let k = target_position(s[i].mnemonic)->0;
        let o = s[i].operands[k];
        assert(o is Reg ==> admits_register(operand_kinds(s[i].mnemonic)[k]));
        assert(o is Digit ==> admits_digit(operand_kinds(s[i].mnemonic)[k]));
    }
}

/// The words emitted for a checked instruction can be encoded.
proof fn lemma_emit_encodable(s: Seq<InstrView>, labels: Seq<Seq<char>>, i: int)
    requires
        0 <= i < s.len(),
        check_instr(s[i], labels) is Ok,
        emit(s, labels, i) is Ok,
    ensures
        forall|j: int| 0 <= j < emit(s, labels, i)->Ok_0.len() ==> encodable(#[trigger] emit(s, labels, i)->Ok_0[j]),
{
    let ins = s[i];
    lemma_checked_kinds(ins, labels);
    let w = emit(s, labels, i)->Ok_0;
    let ops = ins.operands;
    let kinds = operand_kinds(ins.mnemonic);
    assert forall|k: int| 0 <= k < ops.len() implies {
        &&& kinds[k] == 1 ==> (#[trigger] ops[k]) is Reg
        &&& kinds[k] == 4 ==> ops[k] is Digit
        &&& kinds[k] == 2 ==> ops[k] is Label
        &&& kinds[k] == 6 ==> (ops[k] is Digit || ops[k] is Label)
    } by {
        let o = ops[k];
        assert(o is Reg ==> admits_register(kinds[k]));
        assert(o is Label ==> admits_label(kinds[k]));
        assert(o is Digit ==> admits_digit(kinds[k]));
    }
    let m = ins.mnemonic;
    let tp = target_position(m);
    if tp is Some && 0 <= tp->0 < ops.len() && ops[tp->0] is Label {
        let k = tp->0;
        if spec_is_pseudo(m) {
            let e0 = w[0];
            let e1 = w[1];
            assert(w.len() == 2);
            assert(encodable(e1));
            if k == 2 {
                assert(e0.operands =~= ops.update(0, ops[1]).update(1, ops[0]).update(
                    2,
                    OperandView::Digit(crate::resolver::SKIP_JUMP),
                ));
                assert(e0.operands[0] is Reg && e0.operands[1] is Reg && e0.operands[2] is Digit);
            } else {
                assert(e0.operands[0] is Reg && e0.operands[1] is Digit);
            }
            assert(encodable(e0));
            assert forall|j: int| 0 <= j < w.len() implies encodable(#[trigger] w[j]) by {
                if j == 0 {
                    assert(w[j] == e0);
                } else {
                    assert(w[j] == e1);
                }
            }
        } else {
            assert(w.len() == 1);
            let e = w[0];
            assert(e.mnemonic == m);
            assert(e.operands.len() == ops.len());
            assert(e.operands[k] is Digit);
            assert(forall|j: int| 0 <= j < ops.len() && j != k ==> e.operands[j] == ops[j]);
            assert(encodable(e));
        }
    } else {
        assert(w == seq![ins]);
        assert(!spec_is_pseudo(m));
        let ek = encoding_kinds(m);
        assert(ek.len() == kinds.len());
        assert forall|k: int| 0 <= k < ek.len() implies (ek[k] == 1 ==> ops[k] is Reg) && (ek[k] == 4
            ==> ops[k] is Digit) by {
            let o = ops[k];
            if ek[k] == 4 {
                assert(kinds[k] == 4 || kinds[k] == 6 || kinds[k] == 2);
                if kinds[k] != 4 {
                    assert(tp == Some(k));
                }
            } else if ek[k] == 1 {
                assert(kinds[k] == 1);
            }
        }
        assert(encodable(ins));
    }
}

/// Every word of a checked program's resolved prefix can be encoded.
proof fn lemma_prefix_encodable(s: Seq<InstrView>, labels: Seq<Seq<char>>, n: int)
    requires
        0 <= n <= s.len(),
        check_from(s, labels, 0) is Ok,
        resolve_prefix(s, labels, n) is Ok,
    ensures
        forall|j: int|
            0 <= j < resolve_prefix(s, labels, n)->Ok_0.len() ==> encodable(#[trigger] resolve_prefix(s, labels, n)->Ok_0[j]),
    decreases n,
{
    if n > 0 {
        lemma_prefix_encodable(s, labels, n - 1);
        lemma_checked_each(s, labels, 0);
        lemma_emit_encodable(s, labels, n - 1);
        let prev = resolve_prefix(s, labels, n - 1)->Ok_0;
        let w = emit(s, labels, n - 1)->Ok_0;
        let r = resolve_prefix(s, labels, n)->Ok_0;
        assert(r == prev + w);
        assert forall|j: int| 0 <= j < r.len() implies encodable(#[trigger] r[j]) by {
            if j < prev.len() {
                assert(r[j] == prev[j]);
            } else {
                assert(r[j] == w[j - prev.len()]);
            }
        }
    }
}

/// Assembles a source: parses it, checks its instructions, resolves labels and long
/// branches, and encodes each instruction into a word (see `assemble_spec`).
pub fn assemble(src: Vec<u8>) -> (r: Result<Vec<u32>, AsmError>)
    ensures
        match assemble_spec(src@) {
            Ok(words) => r is Ok && r->Ok_0@ == words,
            Err(e) => r is Err && r->Err_0@ == e,
        },
{
    if src.len() > usize::MAX - 4 {
        return Err(AsmError::TooLarge);
    }
    let ghost bytes = src@;
    let lexer = Lexer::new(src);
    let parser = Parser::new(lexer);
    let (instrs, labels) = match parser.parse() {
        Ok(p) => p,
        Err(e) => return Err(AsmError::Parse(e)),
    };
    match check_semantics(&instrs, &labels) {
        Ok(()) => {},
        Err(e) => return Err(AsmError::Semantic(e)),
    }
    if instrs.len() as u64 > MAX_INSTRUCTIONS {
        return Err(AsmError::TooLarge);
    }
    let ghost s = instrs_view(instrs@);
    let ghost names = crate::parser::names_view(labels@);
    proof {
        lemma_checked_well_shaped(s, names);
    }
    let resolved = match resolve_without_optimization(instrs, &labels) {
        Ok(r) => r,
        Err(e) => return Err(AsmError::Resolution(e)),
    };
    proof {
        lemma_prefix_encodable(s, names, s.len() as int);
    }
    let words = encode(resolved);
    proof {
        let rs = resolve_spec(s, names)->Ok_0;
        assert(words@ =~= rs.map_values(|i: InstrView| word_of(i)));
    }
    Ok(words)
}


/// For a source that assembles, there is one word per resolved instruction, none of which
/// is a long branch, and each word carries the op/funct bits of its instruction's mnemonic.
pub proof fn lemma_assembled_words(src: Seq<u8>)
    requires
        assemble_spec(src) is Ok,
    ensures
        ({
            let (instrs, labels) = parsed(src)->Ok_0;
            let resolved = resolve_spec(instrs, labels)->Ok_0;
            let words = assemble_spec(src)->Ok_0;
            &&& words.len() == resolved.len()
            &&& resolved.len() == address_of(instrs, instrs.len() as int)
            &&& forall|j: int|
                0 <= j < words.len() ==> !spec_is_pseudo(resolved[j].mnemonic) && op_matches(
                    #[trigger] words[j],
                    resolved[j].mnemonic,
                )
        }),
{
    let (instrs, labels) = parsed(src)->Ok_0;
    let resolved = resolve_spec(instrs, labels)->Ok_0;
    let words = assemble_spec(src)->Ok_0;
    lemma_checked_well_shaped(instrs, labels);
    crate::resolver::lemma_resolve_slices(instrs, labels, instrs.len() as int);
    lemma_prefix_encodable(instrs, labels, instrs.len() as int);
    assert forall|j: int| 0 <= j < words.len() implies !spec_is_pseudo(resolved[j].mnemonic) && op_matches(
        #[trigger] words[j],
        resolved[j].mnemonic,
    ) by {
        lemma_word_op_funct(resolved[j]);
    }
}

/// For a source that assembles, each long branch `Lx` gives two words: the first with
/// the op/funct bits of the short branch on the opposite condition, the second with
/// those of `j`.
pub proof fn lemma_long_branch_words(src: Seq<u8>, i: int)
    requires
        assemble_spec(src) is Ok,
        0 <= i < parsed(src)->Ok_0.0.len(),
        spec_is_pseudo(parsed(src)->Ok_0.0[i].mnemonic),
    ensures
        ({
            let instrs = parsed(src)->Ok_0.0;
            let words = assemble_spec(src)->Ok_0;
            let a = address_of(instrs, i);
            &&& address_of(instrs, i + 1) == a + 2
            &&& decodes_to(words[a], spec_neg(instrs[i].mnemonic))
            &&& decodes_to(words[a + 1], Mnemonic::J)
        }),
{
    let (instrs, labels) = parsed(src)->Ok_0;
    lemma_checked_well_shaped(instrs, labels);
    lemma_long_branch_expansion(instrs, labels, i);
    lemma_assembled_words(src);
    crate::resolver::lemma_pad_bounds(instrs, i);
    crate::resolver::lemma_address_mono(instrs, i + 1, instrs.len() as int);
}

/// Assembling is a function of the source: the same bytes give the same words, or the
/// same error.
pub proof fn lemma_assemble_deterministic(a: Seq<u8>, b: Seq<u8>)
    requires
        a == b,
    ensures
        assemble_spec(a) == assemble_spec(b),
{
}

} // verus!
