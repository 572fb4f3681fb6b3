use vstd::prelude::*;

use crate::lexer::Mnemonic;
use crate::parser::{
    contains_label, names_view, copy_names, copy_operands, instrs_view, operands_view, InstrView, Instruction, Operand, OperandView,
};
use crate::semantics::{
    is_conditional_branch, is_conditional_branch_ext, spec_is_conditional_branch,
    spec_is_conditional_branch_ext,
};

verus! {

/// How far a label operand may lie.
#[derive(Debug, Clone, Copy, PartialEq, Eq, Structural)]
pub enum Reach {
    /// A conditional branch: `[-1024, 1024)` words away.
    Branch,
    /// A jump or a call: `[-32768, 32768)` words away.
    Jump,
    /// An address loaded by `movl` or `movh`: in `[0, 65536)`.
    Absolute,
}

/// Why a program could not be resolved, and where.
#[derive(Debug, Clone)]
pub enum ResolutionError {
    /// A label beyond the reach of its instruction.
    LabelTooFarError { line: usize, ch: usize, label: String, reach: Reach },
    /// A label that the program does not define.
    LabelNotFoundError { line: usize, ch: usize, label: String },
    /// A label operand at a `position` (from 0) where its instruction takes no label.
    MisplacedLabelError { line: usize, ch: usize, label: String, position: usize },
}

/// A resolution error as a mathematical value.
pub ghost enum ResolutionErrorView {
    LabelTooFar { line: usize, ch: usize, label: Seq<char>, reach: Reach },
    LabelNotFound { line: usize, ch: usize, label: Seq<char> },
    MisplacedLabel { line: usize, ch: usize, label: Seq<char>, position: usize },
}

impl View for ResolutionError {
    type V = ResolutionErrorView;

    open spec fn view(&self) -> ResolutionErrorView {
        match self {
            ResolutionError::LabelTooFarError { line, ch, label, reach } => ResolutionErrorView::LabelTooFar {
                line: *line,
                ch: *ch,
                label: label@,
                reach: *reach,
            },
            ResolutionError::LabelNotFoundError { line, ch, label } => ResolutionErrorView::LabelNotFound {
                line: *line,
                ch: *ch,
                label: label@,
            },
            ResolutionError::MisplacedLabelError { line, ch, label, position } => ResolutionErrorView::MisplacedLabel {
                line: *line,
                ch: *ch,
                label: label@,
                position: *position,
            },
        }
    }
}

/// The reaches of label operands (see `Reach`).
pub const BRANCH_REACH: i64 = 1024;
pub const JUMP_REACH: i64 = 32768;
pub const ADDRESS_LIMIT: i64 = 65536;
/// The offset, in the short branch of an expansion, that skips the jump after it.
pub const SKIP_JUMP: i64 = 2;
/// The most instructions that a program may hold, so that addresses fit in `i64`.
pub const MAX_INSTRUCTIONS: u64 = 0x3fff_ffff_ffff_ffff;

/// Whether `m` is a long branch: Libeq, Libne, Liblt, Lible, Lfblt, Lfble, Lfbps, Lfbng.
pub open spec fn spec_is_pseudo(m: Mnemonic) -> bool {
    matches!(m, Mnemonic::Libeq | Mnemonic::Libne | Mnemonic::Liblt | Mnemonic::Lible
        | Mnemonic::Lfblt | Mnemonic::Lfble | Mnemonic::Lfbps | Mnemonic::Lfbng)
}

/// The short branch that a long branch `m` takes on the opposite condition.
pub open spec fn spec_neg(m: Mnemonic) -> Mnemonic {
    match m {
        Mnemonic::Libeq => Mnemonic::Ibne,
        Mnemonic::Libne => Mnemonic::Ibeq,
        Mnemonic::Lible => Mnemonic::Iblt,
        Mnemonic::Liblt => Mnemonic::Ible,
        Mnemonic::Lfblt => Mnemonic::Fble,
        Mnemonic::Lfble => Mnemonic::Fblt,
        Mnemonic::Lfbps => Mnemonic::Fbng,
        Mnemonic::Lfbng => Mnemonic::Fbps,
        _ => m,
    }
}

/// Whether `m` is a long-branch pseudo-instruction.
pub fn is_pseudo_instr(m: Mnemonic) -> (r: bool)
    ensures
        r == spec_is_pseudo(m),
{
    match m {
        Mnemonic::Libeq | Mnemonic::Libne | Mnemonic::Liblt | Mnemonic::Lible | Mnemonic::Lfblt
        | Mnemonic::Lfble | Mnemonic::Lfbps | Mnemonic::Lfbng => true,
        _ => false,
    }
}

/// The short branch on the opposite condition of the long branch `m`.
pub fn neg_pseudo_branch_instr(m: Mnemonic) -> (r: Mnemonic)
    requires
        spec_is_pseudo(m),
    ensures
        r == spec_neg(m),
{
    match m {
        Mnemonic::Libeq => Mnemonic::Ibne,
        Mnemonic::Libne => Mnemonic::Ibeq,
        Mnemonic::Lible => Mnemonic::Iblt,
        Mnemonic::Liblt => Mnemonic::Ible,
        Mnemonic::Lfblt => Mnemonic::Fble,
        Mnemonic::Lfble => Mnemonic::Fblt,
        Mnemonic::Lfbps => Mnemonic::Fbng,
        _ => Mnemonic::Fbps,
    }
}

/// The number of long branches among the first `i` instructions of `s`: the words that
/// expansion adds before instruction `i`.
pub open spec fn pad_before(s: Seq<InstrView>, i: int) -> int
    decreases i,
{
    if i <= 0 {
        0
    } else {
        pad_before(s, i - 1) + if spec_is_pseudo(s[i - 1].mnemonic) { 1int } else { 0int }
    }
}

/// The address of the first word emitted for instruction `i` of `s`.
pub open spec fn address_of(s: Seq<InstrView>, i: int) -> int {
    i + pad_before(s, i)
}

/// The first instruction of `s`, from `k` on, that defines the label `l`.
pub open spec fn first_def_from(s: Seq<InstrView>, l: Seq<char>, k: int) -> Option<int>
    decreases s.len() - k,
{
    if k < 0 || k >= s.len() {
        None
    } else if s[k].label.contains(l) {
        Some(k)
    } else {
        first_def_from(s, l, k + 1)
    }
}

/// The instruction of `s` that defines the label `l`.
pub open spec fn first_def(s: Seq<InstrView>, l: Seq<char>) -> Option<int> {
    first_def_from(s, l, 0)
}

/// The address of the label `l` after expansion, where `names` are the labels that the
/// program defines: the address of the instruction that it labels, or the end of the
/// program for a label that no instruction follows.
pub open spec fn label_address(s: Seq<InstrView>, names: Seq<Seq<char>>, l: Seq<char>) -> Option<int> {
    match first_def(s, l) {
        Some(d) => Some(address_of(s, d)),
        None => if names.contains(l) {
            Some(address_of(s, s.len() as int))
        } else {
            None
        },
    }
}

/// Each label that the program defines, with its address after expansion.
pub open spec fn address_map(s: Seq<InstrView>, names: Seq<Seq<char>>) -> Map<Seq<char>, int> {
    Map::new(|l: Seq<char>| label_address(s, names, l) is Some, |l: Seq<char>| label_address(s, names, l)->0)
}

/// The position of the label operand of `m`, if it takes one.
pub open spec fn target_position(m: Mnemonic) -> Option<int> {
    if spec_is_conditional_branch(m) {
        Some(2)
    } else if spec_is_conditional_branch_ext(m) {
        Some(1)
    } else {
        match m {
            Mnemonic::J | Mnemonic::Call => Some(0),
            Mnemonic::Movl | Mnemonic::Movh => Some(1),
            _ => None,
        }
    }
}

/// Whether every long branch of `s` has its label operand where its mnemonic puts it.
pub open spec fn pseudos_well_shaped(s: Seq<InstrView>) -> bool {
    forall|i: int|
        0 <= i < s.len() && spec_is_pseudo(#[trigger] s[i].mnemonic) ==> {
            let k = target_position(s[i].mnemonic)->0;
            k < s[i].operands.len() && s[i].operands[k] is Label
        }
}

pub open spec fn with_operands(ins: InstrView, ops: Seq<OperandView>) -> InstrView {
    InstrView { label: ins.label, mnemonic: ins.mnemonic, operands: ops, line: ins.line, ch: ins.ch }
}

/// The first operand of `ops`, from `j` on, that is a label at a position other than `target`.
pub open spec fn stray_label_from(ops: Seq<OperandView>, target: Option<int>, j: int) -> Option<int>
    decreases ops.len() - j,
{
    if j < 0 || j >= ops.len() {
        None
    } else if ops[j] is Label && target != Some(j) {
        Some(j)
    } else {
        stray_label_from(ops, target, j + 1)
    }
}

/// The words emitted for instruction `i` of `s`, or an error: a label operand where the
/// instruction takes none is an error; otherwise see `emit_at_target`.
pub open spec fn emit(s: Seq<InstrView>, names: Seq<Seq<char>>, i: int) -> Result<Seq<InstrView>, ResolutionErrorView> {
    let ins = s[i];
    match stray_label_from(ins.operands, target_position(ins.mnemonic), 0) {
        Some(j) => Err(
            ResolutionErrorView::MisplacedLabel {
                line: ins.line,
                ch: ins.ch,
                label: ins.operands[j]->Label_0,
                position: j as usize,
            },
        ),
        None => emit_at_target(s, names, i),
    }
}

/// The words emitted for instruction `i` of `s`, whose label operands stand only where its
/// mnemonic takes a label.
///
/// A label operand becomes an offset from the instruction's own address, or for
/// `movl` and `movh` the label's address; a long branch becomes the short branch on the
/// opposite condition, which skips the next word, and a jump to the label.
pub open spec fn emit_at_target(s: Seq<InstrView>, names: Seq<Seq<char>>, i: int) -> Result<Seq<InstrView>, ResolutionErrorView> {
    let ins = s[i];
    let (m, ops, line, ch) = (ins.mnemonic, ins.operands, ins.line, ins.ch);
    match target_position(m) {
        Some(k) if 0 <= k < ops.len() && ops[k] is Label => {
            let l = ops[k]->Label_0;
            match label_address(s, names, l) {
                None => Err(ResolutionErrorView::LabelNotFound { line, ch, label: l }),
                Some(a) => {
                    let rel = a - address_of(s, i);
                    if spec_is_pseudo(m) {
                        if !(-JUMP_REACH <= rel - 1 < JUMP_REACH) {
                            Err(ResolutionErrorView::LabelTooFar { line, ch, label: l, reach: Reach::Jump })
                        } else {
                            let short = if k == 2 {
                                ops.update(0, ops[1]).update(1, ops[0]).update(2, OperandView::Digit(SKIP_JUMP))
                            } else {
                                ops.update(k, OperandView::Digit(SKIP_JUMP))
                            };
                            Ok(
                                seq![
                                    InstrView { label: ins.label, mnemonic: spec_neg(m), operands: short, line, ch },
                                    InstrView {
                                        label: Seq::empty(),
                                        mnemonic: Mnemonic::J,
                                        operands: seq![OperandView::Digit((rel - 1) as i64)],
                                        line,
                                        ch,
                                    },
                                ],
                            )
                        }
                    } else if m == Mnemonic::Movl || m == Mnemonic::Movh {
                        if 0 <= a < ADDRESS_LIMIT {
                            Ok(seq![with_operands(ins, ops.update(k, OperandView::Digit(a as i64)))])
                        } else {
                            Err(ResolutionErrorView::LabelTooFar { line, ch, label: l, reach: Reach::Absolute })
                        }
                    } else if m == Mnemonic::J || m == Mnemonic::Call {
                        if -JUMP_REACH <= rel < JUMP_REACH {
                            Ok(seq![with_operands(ins, ops.update(k, OperandView::Digit(rel as i64)))])
                        } else {
                            Err(ResolutionErrorView::LabelTooFar { line, ch, label: l, reach: Reach::Jump })
                        }
                    } else {
                        if -BRANCH_REACH <= rel < BRANCH_REACH {
                            Ok(seq![with_operands(ins, ops.update(k, OperandView::Digit(rel as i64)))])
                        } else {
                            Err(ResolutionErrorView::LabelTooFar { line, ch, label: l, reach: Reach::Branch })
                        }
                    }
                },
            }
        },
        _ => Ok(seq![ins]),
    }
}

/// The words emitted for the first `n` instructions of `s`, or the first error.
pub open spec fn resolve_prefix(s: Seq<InstrView>, names: Seq<Seq<char>>, n: int) -> Result<Seq<InstrView>, ResolutionErrorView>
    decreases n,
{
    if n <= 0 {
        Ok(Seq::empty())
    } else {
        match resolve_prefix(s, names, n - 1) {
            Err(e) => Err(e),
            Ok(r) => match emit(s, names, n - 1) {
                Err(e) => Err(e),
                Ok(w) => Ok(r + w),
            },
        }
    }
}

/// The resolved program of `s`, whose labels are `names`, or the first error.
pub open spec fn resolve_spec(s: Seq<InstrView>, names: Seq<Seq<char>>) -> Result<Seq<InstrView>, ResolutionErrorView> {
    resolve_prefix(s, names, s.len() as int)
}



proof fn lemma_first_def_from(s: Seq<InstrView>, l: Seq<char>, k: int)
    requires
        0 <= k,
    ensures
        match first_def_from(s, l, k) {
            Some(d) => k <= d < s.len() && s[d].label.contains(l) && forall|j: int|
                k <= j < d ==> !s[j].label.contains(l),
            None => forall|j: int| k <= j < s.len() ==> !s[j].label.contains(l),
        },
    decreases s.len() - k,
{
    if k < s.len() && !s[k].label.contains(l) {
        lemma_first_def_from(s, l, k + 1);
    }
}

/// An error at some instruction is the error of the whole program.
proof fn lemma_error_stays(s: Seq<InstrView>, names: Seq<Seq<char>>, n: int, m: int)
    requires
        0 <= n <= m,
        resolve_prefix(s, names, n) is Err,
    ensures
        resolve_prefix(s, names, m) == resolve_prefix(s, names, n),
    decreases m - n,
{
    if n < m {
        lemma_error_stays(s, names, n, m - 1);
    }
}

/// Whether no operand of any instruction of `r` is a label.
pub open spec fn no_label_operands(r: Seq<InstrView>) -> bool {
    forall|j: int, k: int| 0 <= j < r.len() && 0 <= k < r[j].operands.len() ==> !(#[trigger] r[j].operands[k] is Label)
}

/// The words emitted for an instruction hold no label operand.
proof fn lemma_emit_no_labels(s: Seq<InstrView>, names: Seq<Seq<char>>, i: int)
    requires
        0 <= i < s.len(),
        emit(s, names, i) is Ok,
    ensures
        no_label_operands(emit(s, names, i)->Ok_0),
{
    let ins = s[i];
    let ops = ins.operands;
    let t = target_position(ins.mnemonic);
    lemma_no_stray(ops, t, 0);
    let w = emit(s, names, i)->Ok_0;
    assert forall|j: int, k: int| 0 <= j < w.len() && 0 <= k < w[j].operands.len() implies !(
    #[trigger] w[j].operands[k] is Label) by {
        if t is Some && 0 <= t->0 < ops.len() && ops[t->0] is Label {
            if k < ops.len() && k != t->0 {
                assert(!(ops[k] is Label));
            }
            if ops.len() > 1 {
                assert(t->0 != 0 ==> !(ops[0] is Label));
                assert(t->0 != 1 ==> !(ops[1] is Label));
            }
        } else {
            assert(w[j] == ins);
            assert(!(ops[k] is Label) || t == Some(k));
        }
    }
}

/// A resolved prefix holds no label operand.
proof fn lemma_prefix_no_labels(s: Seq<InstrView>, names: Seq<Seq<char>>, n: int)
    requires
        0 <= n <= s.len(),
        resolve_prefix(s, names, n) is Ok,
    ensures
        no_label_operands(resolve_prefix(s, names, n)->Ok_0),
    decreases n,
{
    if n > 0 {
        lemma_prefix_no_labels(s, names, n - 1);
        lemma_emit_no_labels(s, names, n - 1);
        let prev = resolve_prefix(s, names, n - 1)->Ok_0;
        let w = emit(s, names, n - 1)->Ok_0;
        let r = resolve_prefix(s, names, n)->Ok_0;
        assert(r == prev + w);
        assert forall|j: int, k: int| 0 <= j < r.len() && 0 <= k < r[j].operands.len() implies !(
        #[trigger] r[j].operands[k] is Label) by {
            if j < prev.len() {
                assert(r[j] == prev[j]);
            } else {
                assert(r[j] == w[j - prev.len()]);
            }
        }
    }
}

/// The address of each instruction of `instructions` after expansion, and after them
/// the length of the expanded program.
fn layout(instructions: &Vec<Instruction>) -> (r: Vec<i64>)
    requires
        instructions@.len() <= MAX_INSTRUCTIONS,
    ensures
        r@.len() == instructions@.len() + 1,
        forall|i: int|
            0 <= i <= instructions@.len() ==> #[trigger] r@[i] == address_of(instrs_view(instructions@), i)
                && i <= r@[i] <= 2 * i,
{
    let ghost s = instrs_view(instructions@);
    let mut addrs: Vec<i64> = Vec::new();
    let mut padding: i64 = 0;
    let mut i: usize = 0;
    while i < instructions.len()
        invariant
            s == instrs_view(instructions@),
            instructions@.len() <= MAX_INSTRUCTIONS,
            i <= instructions@.len(),
            addrs@.len() == i,
            padding == pad_before(s, i as int),
            0 <= padding <= i,
            forall|j: int| 0 <= j < i ==> #[trigger] addrs@[j] == address_of(s, j) && j <= addrs@[j] <= 2 * j,
        decreases instructions@.len() - i,
    {
        addrs.push(i as i64 + padding);
        assert(s[i as int].mnemonic == instructions@[i as int].mnemonic);
        if is_pseudo_instr(instructions[i].mnemonic) {
            padding = padding + 1;
        }
        i = i + 1;
    }
    addrs.push(i as i64 + padding);
    addrs
}

/// The first instruction that defines the label `name` (see `first_def`).
fn find_label(instructions: &Vec<Instruction>, name: &String) -> (r: Option<usize>)
    ensures
        first_def(instrs_view(instructions@), name@) == match r {
            Some(d) => Some(d as int),
            None => None::<int>,
        },
{
    let ghost s = instrs_view(instructions@);
    let mut j: usize = 0;
    while j < instructions.len()
        invariant
            s == instrs_view(instructions@),
            j <= instructions@.len(),
            first_def_from(s, name@, j as int) == first_def(s, name@),
        decreases instructions@.len() - j,
    {
        assert(s[j as int].label == names_view(instructions@[j as int].label@));
        if contains_label(&instructions[j].label, name) {
            return Some(j);
        }
        j = j + 1;
    }
    None
}

/// The position of the label operand of `m` (see `target_position`).
fn target_of(m: Mnemonic) -> (r: Option<usize>)
    ensures
        match target_position(m) {
            Some(k) => r == Some(k as usize),
            None => r is None,
        },
{
    if is_conditional_branch(m) {
        Some(2)
    } else if is_conditional_branch_ext(m) {
        Some(1)
    } else {
        match m {
            Mnemonic::J | Mnemonic::Call => Some(0),
            Mnemonic::Movl | Mnemonic::Movh => Some(1),
            _ => None,
        }
    }
}

/// Pushes onto `out` the words emitted for instruction `i` (see `emit`), given the
/// addresses that `layout` computed.
fn emit_one(
    instructions: &Vec<Instruction>,
    labels: &Vec<String>,
    addrs: &Vec<i64>,
    i: usize,
    out: &mut Vec<Instruction>,
) -> (r: Result<(), ResolutionError>)
    requires
        i < instructions@.len() <= MAX_INSTRUCTIONS,
        pseudos_well_shaped(instrs_view(instructions@)),
        addrs@.len() == instructions@.len() + 1,
        forall|j: int|
            0 <= j <= instructions@.len() ==> #[trigger] addrs@[j] == address_of(instrs_view(instructions@), j)
                && j <= addrs@[j] <= 2 * j,
    ensures
        match emit(instrs_view(instructions@), names_view(labels@), i as int) {
            Ok(w) => r is Ok && instrs_view(final(out)@) == instrs_view(old(out)@) + w,
            Err(e) => r is Err && r->Err_0@ == e,
        },
{
    let ghost s = instrs_view(instructions@);
    let ghost names = names_view(labels@);
    let ins = &instructions[i];
    let ghost iv = ins@;
    assert(s[i as int] == iv);
    let m = ins.mnemonic;
    let (line, ch) = (ins.line, ins.ch);
    let ghost before = out@;
    let target = target_of(m);
    let mut j: usize = 0;
    while j < ins.operands.len()
        invariant
            iv == ins@,
            s == instrs_view(instructions@),
            i < instructions@.len(),
            s[i as int] == iv,
            line == iv.line,
            ch == iv.ch,
            j <= ins.operands@.len(),
            iv.operands.len() == ins.operands@.len(),
            match target_position(m) {
                Some(k) => target == Some(k as usize),
                None => target is None,
            },
            m == iv.mnemonic,
            stray_label_from(iv.operands, target_position(m), j as int) == stray_label_from(
                iv.operands,
                target_position(m),
                0,
            ),
        decreases ins.operands@.len() - j,
    {
        assert(iv.operands[j as int] == ins.operands@[j as int]@);
        match &ins.operands[j] {
            Operand::OpLabel(l) => {
                let at_target = match target {
                    Some(k) => k == j,
                    None => false,
                };
                if !at_target {
                    assert(target_position(m) != Some(j as int));
                    assert(stray_label_from(iv.operands, target_position(m), j as int) == Some(j as int));
                    return Err(ResolutionError::MisplacedLabelError { line, ch, label: l.clone(), position: j });
                }
            },
            _ => {},
        }
        j = j + 1;
    }
    let k = match target {
        Some(k) => k,
        None => {
            out.push(ins.duplicate());
            proof {
                assert(instrs_view(out@) =~= instrs_view(before) + seq![iv]);
            }
            return Ok(());
        },
    };
    if k >= ins.operands.len() {
        out.push(ins.duplicate());
        proof {
            assert(instrs_view(out@) =~= instrs_view(before) + seq![iv]);
        }
        return Ok(());
    }
    assert(iv.operands[k as int] == ins.operands@[k as int]@);
    let l = match &ins.operands[k] {
        Operand::OpLabel(l) => l,
        _ => {
            out.push(ins.duplicate());
            proof {
                assert(instrs_view(out@) =~= instrs_view(before) + seq![iv]);
            }
            return Ok(());
        },
    };
    proof {
        lemma_first_def_from(s, l@, 0);
    }
    let a = match find_label(instructions, l) {
        Some(d) => {
            assert(first_def(s, l@) == Some(d as int));
            let a = addrs[d];
            assert(a == address_of(s, d as int));
            assert(label_address(s, names, l@) == Some(a as int));
            a
        },
        None => {
            if contains_label(labels, l) {
                let a = addrs[instructions.len()];
                assert(a == address_of(s, s.len() as int));
                assert(label_address(s, names, l@) == Some(a as int));
                a
            } else {
                return Err(ResolutionError::LabelNotFoundError { line, ch, label: l.clone() });
            }
        },
    };
    let rel = a - addrs[i];
    assert(rel == a - address_of(s, i as int));
    assert(iv.operands[k as int] == OperandView::Label(l@));
    assert(target_position(m) == Some(k as int));
    let mut ops = copy_operands(&ins.operands);
    let ghost opsv = iv.operands;
    if is_pseudo_instr(m) {
        if !(-JUMP_REACH <= rel - 1 && rel - 1 < JUMP_REACH) {
            return Err(ResolutionError::LabelTooFarError { line, ch, label: l.clone(), reach: Reach::Jump });
        }
        let ghost short = if k == 2 {
            opsv.update(0, opsv[1]).update(1, opsv[0]).update(2, OperandView::Digit(SKIP_JUMP))
        } else {
            opsv.update(k as int, OperandView::Digit(SKIP_JUMP))
        };
        if k == 2 {
            let o0 = ops[0].duplicate();
            let o1 = ops[1].duplicate();
            ops[0] = o1;
            ops[1] = o0;
        }
        ops[k] = Operand::OpDigit(SKIP_JUMP);
        proof {
            assert(operands_view(ops@) =~= short);
        }
        let neg = neg_pseudo_branch_instr(m);
        out.push(Instruction { label: copy_names(&ins.label), mnemonic: neg, operands: ops, line, ch });
        let jump = vec![Operand::OpDigit(rel - 1)];
        proof {
            assert(operands_view(jump@) =~= seq![OperandView::Digit((rel - 1) as i64)]);
        }
        let no_labels: Vec<String> = Vec::new();
        proof {
            assert(names_view(no_labels@) =~= Seq::empty());
        }
        out.push(Instruction { label: no_labels, mnemonic: Mnemonic::J, operands: jump, line, ch });
        proof {
            let e = emit(s, names, i as int)->Ok_0;
            assert(instrs_view(out@) =~= instrs_view(before) + e);
        }
        return Ok(());
    }
    let value = if m == Mnemonic::Movl || m == Mnemonic::Movh {
        if !(0 <= a && a < ADDRESS_LIMIT) {
            return Err(ResolutionError::LabelTooFarError { line, ch, label: l.clone(), reach: Reach::Absolute });
        }
        a
    } else if m == Mnemonic::J || m == Mnemonic::Call {
        if !(-JUMP_REACH <= rel && rel < JUMP_REACH) {
            return Err(ResolutionError::LabelTooFarError { line, ch, label: l.clone(), reach: Reach::Jump });
        }
        rel
    } else {
        if !(-BRANCH_REACH <= rel && rel < BRANCH_REACH) {
            return Err(ResolutionError::LabelTooFarError { line, ch, label: l.clone(), reach: Reach::Branch });
        }
        rel
    };
    ops[k] = Operand::OpDigit(value);
    proof {
        assert(operands_view(ops@) =~= opsv.update(k as int, OperandView::Digit(value)));
    }
    out.push(Instruction { label: copy_names(&ins.label), mnemonic: m, operands: ops, line, ch });
    proof {
        let e = emit(s, names, i as int)->Ok_0;
        assert(instrs_view(out@) =~= instrs_view(before) + e);
    }
    Ok(())
}

/// Expands the long branches of a checked program and puts the offset or address of
/// each label in place of the label (see `emit`): gives the resolved program, or the
/// first error. `labels` are the labels that the program defines; one that no
/// instruction follows stands for the end of the program.
pub fn resolve_without_optimization(instructions: Vec<Instruction>, labels: &Vec<String>) -> (r: Result<Vec<Instruction>, ResolutionError>)
    requires
        instructions@.len() <= MAX_INSTRUCTIONS,
        pseudos_well_shaped(instrs_view(instructions@)),
    ensures
        match resolve_spec(instrs_view(instructions@), names_view(labels@)) {
            Ok(res) => r is Ok && instrs_view(r->Ok_0@) == res,
            Err(e) => r is Err && r->Err_0@ == e,
        },
        r is Ok ==> no_label_operands(instrs_view(r->Ok_0@)),
{
    let ghost s = instrs_view(instructions@);
    let ghost names = names_view(labels@);
    let addrs = layout(&instructions);
    let mut out: Vec<Instruction> = Vec::new();
    let mut i: usize = 0;
    proof {
        assert(instrs_view(out@) =~= Seq::empty());
    }
    while i < instructions.len()
        invariant
            s == instrs_view(instructions@),
            names == names_view(labels@),
            instructions@.len() <= MAX_INSTRUCTIONS,
            pseudos_well_shaped(s),
            addrs@.len() == instructions@.len() + 1,
            forall|j: int|
                0 <= j <= instructions@.len() ==> #[trigger] addrs@[j] == address_of(s, j) && j <= addrs@[j]
                    <= 2 * j,
            i <= instructions@.len(),
            resolve_prefix(s, names, i as int) == Ok::<Seq<InstrView>, ResolutionErrorView>(instrs_view(out@)),
        decreases instructions@.len() - i,
    {
        match emit_one(&instructions, labels, &addrs, i, &mut out) {
            Ok(()) => {},
            Err(e) => {
                proof {
                    lemma_error_stays(s, names, i + 1, s.len() as int);
                }
                return Err(e);
            },
        }
        i = i + 1;
    }
    proof {
        lemma_prefix_no_labels(s, names, s.len() as int);
    }
    Ok(out)
}


/// Whether no label is defined at two instructions of `s`.
pub open spec fn labels_distinct(s: Seq<InstrView>) -> bool {
    forall|i: int, j: int, l: Seq<char>|
        0 <= i < s.len() && 0 <= j < s.len() && i != j && #[trigger] s[i].label.contains(l)
            ==> !#[trigger] s[j].label.contains(l)
}

pub open spec fn is_long_branch(ins: InstrView) -> bool {
    spec_is_pseudo(ins.mnemonic)
}

/// The padding before instruction `i` lies between none and one per instruction.
pub proof fn lemma_pad_bounds(s: Seq<InstrView>, i: int)
    requires
        0 <= i <= s.len(),
    ensures
        0 <= pad_before(s, i) <= i,
{
    lemma_pad_counts(s, i);
}

proof fn lemma_pad_counts(s: Seq<InstrView>, i: int)
    requires
        0 <= i <= s.len(),
    ensures
        pad_before(s, i) == s.take(i).filter(|x: InstrView| is_long_branch(x)).len(),
        0 <= pad_before(s, i) <= i,
    decreases i,
{
    if i > 0 {
        lemma_pad_counts(s, i - 1);
        assert(s.take(i) =~= s.take(i - 1).push(s[i - 1]));
        s.take(i - 1).lemma_filter_push(s[i - 1], |x: InstrView| is_long_branch(x));
    }
}

/// Addresses grow with the index of the instruction.
pub proof fn lemma_address_mono(s: Seq<InstrView>, j: int, k: int)
    requires
        0 <= j <= k,
    ensures
        address_of(s, j) <= address_of(s, k),
    decreases k - j,
{
    if j < k {
        lemma_address_mono(s, j, k - 1);
    }
}

/// The address of each label is the index of the instruction that defines it, plus the
/// number of long branches before that instruction.
pub proof fn lemma_label_address(s: Seq<InstrView>, names: Seq<Seq<char>>, i: int, l: Seq<char>)
    requires
        labels_distinct(s),
        0 <= i < s.len(),
        s[i].label.contains(l),
    ensures
        address_map(s, names).contains_key(l),
        address_map(s, names)[l] == i + s.take(i).filter(|x: InstrView| is_long_branch(x)).len(),
{
    lemma_first_def_from(s, l, 0);
    let d = first_def(s, l)->0;
    assert(d == i);
    lemma_pad_counts(s, i);
}

/// A label that no instruction follows has the address of the end of the program: the
/// number of instructions plus the number of long branches among them.
pub proof fn lemma_end_label_address(s: Seq<InstrView>, names: Seq<Seq<char>>, l: Seq<char>)
    requires
        names.contains(l),
        forall|i: int| 0 <= i < s.len() ==> !(#[trigger] s[i]).label.contains(l),
    ensures
        address_map(s, names).contains_key(l),
        address_map(s, names)[l] == s.len() + s.filter(|x: InstrView| is_long_branch(x)).len(),
{
    lemma_first_def_from(s, l, 0);
    lemma_pad_counts(s, s.len() as int);
    assert(s.take(s.len() as int) =~= s);
}

/// The words emitted for instruction `i`: two for a long branch, one for any other.
proof fn lemma_emit_len(s: Seq<InstrView>, names: Seq<Seq<char>>, i: int)
    requires
        0 <= i < s.len(),
        pseudos_well_shaped(s),
        emit(s, names, i) is Ok,
    ensures
        emit(s, names, i)->Ok_0.len() == address_of(s, i + 1) - address_of(s, i),
{
    assert(spec_is_pseudo(s[i].mnemonic) ==> target_position(s[i].mnemonic) is Some);
}

/// The resolved prefix of `n` instructions is the words emitted for each in turn, each
/// at the address of its instruction.
pub proof fn lemma_resolve_slices(s: Seq<InstrView>, names: Seq<Seq<char>>, n: int)
    requires
        0 <= n <= s.len(),
        pseudos_well_shaped(s),
        resolve_prefix(s, names, n) is Ok,
    ensures
        resolve_prefix(s, names, n)->Ok_0.len() == address_of(s, n),
        forall|i: int|
            0 <= i < n ==> #[trigger] emit(s, names, i) is Ok && resolve_prefix(s, names, n)->Ok_0.subrange(
                address_of(s, i),
                address_of(s, i + 1),
            ) == emit(s, names, i)->Ok_0,
    decreases n,
{
    if n > 0 {
        lemma_resolve_slices(s, names, n - 1);
        lemma_emit_len(s, names, n - 1);
        let prev = resolve_prefix(s, names, n - 1)->Ok_0;
        let w = emit(s, names, n - 1)->Ok_0;
        let r = resolve_prefix(s, names, n)->Ok_0;
        assert(r == prev + w);
        assert forall|i: int| 0 <= i < n implies #[trigger] emit(s, names, i) is Ok && r.subrange(
            address_of(s, i),
            address_of(s, i + 1),
        ) == emit(s, names, i)->Ok_0 by {
            lemma_pad_counts(s, i);
            if i < n - 1 {
                lemma_address_mono(s, i + 1, n - 1);
                lemma_address_mono(s, i, i + 1);
                assert(r.subrange(address_of(s, i), address_of(s, i + 1)) =~= prev.subrange(
                    address_of(s, i),
                    address_of(s, i + 1),
                ));
            } else {
                assert(r.subrange(address_of(s, i), address_of(s, i + 1)) =~= w);
            }
        }
    }
}

/// A long branch `Lx` at `i` becomes two words: the short branch on the opposite
/// condition, with the two registers swapped when it compares two, which skips the next
/// word; then a jump to the label.
pub proof fn lemma_long_branch_expansion(s: Seq<InstrView>, names: Seq<Seq<char>>, i: int)
    requires
        pseudos_well_shaped(s),
        resolve_spec(s, names) is Ok,
        0 <= i < s.len(),
        spec_is_pseudo(s[i].mnemonic),
    ensures
        ({
            let r = resolve_spec(s, names)->Ok_0;
            let a = address_of(s, i);
            let ops = s[i].operands;
            &&& address_of(s, i + 1) == a + 2
            &&& r[a].mnemonic == spec_neg(s[i].mnemonic)
            &&& r[a + 1].mnemonic == Mnemonic::J
            &&& r[a + 1].operands.len() == 1
            &&& r[a + 1].operands[0] is Digit
            &&& spec_is_conditional_branch(s[i].mnemonic) ==> r[a].operands == ops.update(0, ops[1]).update(
                1,
                ops[0],
            ).update(2, OperandView::Digit(SKIP_JUMP))
            &&& spec_is_conditional_branch_ext(s[i].mnemonic) ==> r[a].operands == ops.update(
                1,
                OperandView::Digit(SKIP_JUMP),
            )
        }),
{
    lemma_resolve_slices(s, names, s.len() as int);
    assert(emit(s, names, i) is Ok);
    lemma_emit_len(s, names, i);
    let r = resolve_spec(s, names)->Ok_0;
    let a = address_of(s, i);
    let w = emit(s, names, i)->Ok_0;
    lemma_pad_counts(s, i);
    lemma_address_mono(s, i + 1, s.len() as int);
    assert(w.len() == 2);
    assert(r.subrange(a, a + 2) == w);
    assert(r[a] == w[0]);
    assert(r[a + 1] == w[1]);
}

/// A label operand of a real branch, jump or call becomes the offset from the
/// instruction's own address to the label's address, and that of `movl` or `movh` the
/// label's address; the mnemonic and the other operands stay.
pub proof fn lemma_label_operand_resolved(s: Seq<InstrView>, names: Seq<Seq<char>>, k: int, t: int)
    requires
        pseudos_well_shaped(s),
        resolve_spec(s, names) is Ok,
        0 <= k < s.len(),
        !spec_is_pseudo(s[k].mnemonic),
        target_position(s[k].mnemonic) == Some(t),
        0 <= t < s[k].operands.len(),
        s[k].operands[t] is Label,
    ensures
        ({
            let r = resolve_spec(s, names)->Ok_0;
            let o = address_of(s, k);
            let m = s[k].mnemonic;
            let a = label_address(s, names, s[k].operands[t]->Label_0);
            let v = if m == Mnemonic::Movl || m == Mnemonic::Movh { a->0 } else { a->0 - o };
            &&& a is Some
            &&& address_of(s, k + 1) == o + 1
            &&& r[o].mnemonic == m
            &&& r[o].label == s[k].label
            &&& r[o].operands == s[k].operands.update(t, OperandView::Digit(v as i64))
        }),
{
    lemma_resolve_slices(s, names, s.len() as int);
    assert(emit(s, names, k) is Ok);
    lemma_emit_len(s, names, k);
    lemma_pad_counts(s, k);
    lemma_address_mono(s, k + 1, s.len() as int);
    let r = resolve_spec(s, names)->Ok_0;
    let o = address_of(s, k);
    let w = emit(s, names, k)->Ok_0;
    assert(r.subrange(o, o + 1) == w);
    assert(r[o] == w[0]);
}

/// Where no operand from `j` on is a label out of place, none is found.
proof fn lemma_no_stray(ops: Seq<OperandView>, target: Option<int>, j: int)
    requires
        0 <= j,
    ensures
        (forall|k: int| j <= k < ops.len() ==> !(#[trigger] ops[k] is Label) || target == Some(k))
            <==> stray_label_from(ops, target, j) is None,
    decreases ops.len() - j,
{
    if j < ops.len() {
        lemma_no_stray(ops, target, j + 1);
    }
}

/// Resolving a program with no label operands and no long branches gives it back unchanged.
pub proof fn lemma_resolve_idempotent(s: Seq<InstrView>, names: Seq<Seq<char>>)
    requires
        forall|i: int| 0 <= i < s.len() ==> !spec_is_pseudo(#[trigger] s[i].mnemonic),
        forall|i: int, k: int|
            0 <= i < s.len() && 0 <= k < s[i].operands.len() ==> !(#[trigger] s[i].operands[k] is Label),
    ensures
        resolve_spec(s, names) == Ok::<Seq<InstrView>, ResolutionErrorView>(s),
{
    lemma_resolve_prefix_unchanged(s, names, s.len() as int);
    assert(s.take(s.len() as int) =~= s);
}

proof fn lemma_resolve_prefix_unchanged(s: Seq<InstrView>, names: Seq<Seq<char>>, n: int)
    requires
        0 <= n <= s.len(),
        forall|i: int| 0 <= i < s.len() ==> !spec_is_pseudo(#[trigger] s[i].mnemonic),
        forall|i: int, k: int|
            0 <= i < s.len() && 0 <= k < s[i].operands.len() ==> !(#[trigger] s[i].operands[k] is Label),
    ensures
        resolve_prefix(s, names, n) == Ok::<Seq<InstrView>, ResolutionErrorView>(s.take(n)),
    decreases n,
{
    if n > 0 {
        lemma_resolve_prefix_unchanged(s, names, n - 1);
        let k = target_position(s[n - 1].mnemonic);
        if k is Some && 0 <= k->0 < s[n - 1].operands.len() {
            assert(!(s[n - 1].operands[k->0] is Label));
        }
        lemma_no_stray(s[n - 1].operands, target_position(s[n - 1].mnemonic), 0);
        assert(emit(s, names, n - 1) == Ok::<Seq<InstrView>, ResolutionErrorView>(seq![s[n - 1]]));
        assert(s.take(n) =~= s.take(n - 1) + seq![s[n - 1]]);
        assert(resolve_prefix(s, names, n) == Ok::<Seq<InstrView>, ResolutionErrorView>(s.take(n - 1) + seq![s[n - 1]]));
    } else {
        assert(s.take(0) =~= Seq::<InstrView>::empty());
    }
}

} // verus!
