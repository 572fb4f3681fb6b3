use vstd::prelude::*;

use crate::lexer::{
    is_ident_char, is_word, lemma_stream_labels, lemma_stream_shape, lex_stream, stream_view,
    LexToken, Lexer, Located, Mnemonic, Register, SyntaxError, TokenView,
};

verus! {

/// An operand of an instruction.
#[derive(Debug, Clone)]
pub enum Operand {
    OpRegister(Register),
    OpLabel(String),
    OpDigit(i64),
}

/// An operand as a mathematical value.
pub ghost enum OperandView {
    Reg(Register),
    Label(Seq<char>),
    Digit(i64),
}

impl View for Operand {
    type V = OperandView;

    open spec fn view(&self) -> OperandView {
        match self {
            Operand::OpRegister(r) => OperandView::Reg(*r),
            Operand::OpLabel(s) => OperandView::Label(s@),
            Operand::OpDigit(n) => OperandView::Digit(*n),
        }
    }
}

impl Operand {
    /// A copy of this operand.
    pub fn duplicate(&self) -> (r: Operand)
        ensures
            r@ == self@,
    {
        match self {
            Operand::OpRegister(r) => Operand::OpRegister(*r),
            Operand::OpLabel(s) => Operand::OpLabel(s.clone()),
            Operand::OpDigit(n) => Operand::OpDigit(*n),
        }
    }
}

/// A copy of a list of operands.
pub fn copy_operands(ops: &Vec<Operand>) -> (r: Vec<Operand>)
    ensures
        operands_view(r@) == operands_view(ops@),
{
    let mut r: Vec<Operand> = Vec::new();
    let mut i: usize = 0;
    while i < ops.len()
        invariant
            i <= ops@.len(),
            operands_view(r@) == operands_view(ops@).subrange(0, i as int),
        decreases ops@.len() - i,
    {
        let ghost before = r@;
        r.push(ops[i].duplicate());
        proof {
            assert(operands_view(r@) =~= operands_view(before).push(ops@[i as int]@));
            assert(operands_view(ops@).subrange(0, i + 1) =~= operands_view(ops@).subrange(0, i as int).push(
                ops@[i as int]@,
            ));
        }
        i = i + 1;
    }
    proof {
        assert(operands_view(ops@).subrange(0, ops@.len() as int) =~= operands_view(ops@));
    }
    r
}

/// A copy of a list of labels.
pub fn copy_names(v: &Vec<String>) -> (r: Vec<String>)
    ensures
        names_view(r@) == names_view(v@),
{
    let mut r: Vec<String> = Vec::new();
    let mut i: usize = 0;
    while i < v.len()
        invariant
            i <= v@.len(),
            names_view(r@) == names_view(v@).subrange(0, i as int),
        decreases v@.len() - i,
    {
        let ghost before = r@;
        r.push(v[i].clone());
        proof {
            assert(names_view(r@) =~= names_view(before).push(v@[i as int]@));
            assert(names_view(v@).subrange(0, i + 1) =~= names_view(v@).subrange(0, i as int).push(v@[i as int]@));
        }
        i = i + 1;
    }
    proof {
        assert(names_view(v@).subrange(0, v@.len() as int) =~= names_view(v@));
    }
    r
}

impl Instruction {
    /// A copy of this instruction.
    pub fn duplicate(&self) -> (r: Instruction)
        ensures
            r@ == self@,
    {
        Instruction {
            label: copy_names(&self.label),
            mnemonic: self.mnemonic,
            operands: copy_operands(&self.operands),
            line: self.line,
            ch: self.ch,
        }
    }
}

/// One instruction of the program, with the labels defined at it and its place in the source.
#[derive(Debug, Clone)]
pub struct Instruction {
    pub label: Vec<String>,
    pub mnemonic: Mnemonic,
    pub operands: Vec<Operand>,
    pub line: usize,
    pub ch: usize,
}

/// An instruction as a mathematical value.
pub ghost struct InstrView {
    pub label: Seq<Seq<char>>,
    pub mnemonic: Mnemonic,
    pub operands: Seq<OperandView>,
    pub line: usize,
    pub ch: usize,
}

pub open spec fn operands_view(ops: Seq<Operand>) -> Seq<OperandView> {
    ops.map_values(|o: Operand| o@)
}

impl View for Instruction {
    type V = InstrView;

    open spec fn view(&self) -> InstrView {
        InstrView {
            label: names_view(self.label@),
            mnemonic: self.mnemonic,
            operands: operands_view(self.operands@),
            line: self.line,
            ch: self.ch,
        }
    }
}

pub open spec fn instr_opt_view(i: Option<Instruction>) -> Option<InstrView> {
    match i {
        Some(x) => Some(x@),
        None => None,
    }
}

/// The instructions of a list as mathematical values.
pub open spec fn instrs_view(s: Seq<Instruction>) -> Seq<InstrView> {
    s.map_values(|i: Instruction| i@)
}

/// The names of a list of labels.
pub open spec fn names_view(s: Seq<String>) -> Seq<Seq<char>> {
    s.map_values(|l: String| l@)
}

/// The text of ASCII bytes: each byte is the character of the same code.
pub open spec fn ascii_text(b: Seq<u8>) -> Seq<char> {
    b.map_values(|c: u8| c as char)
}

proof fn lemma_word_ascii(w: Seq<u8>)
    requires
        is_word(w),
    ensures
        forall|i: int| 0 <= i < w.len() ==> #[trigger] w[i] < 128,
{
    assert forall|i: int| 0 <= i < w.len() implies #[trigger] w[i] < 128 by {
        assert(is_ident_char(w[i]));
    }
}

/// Relies on `String::from_utf8_lossy`: ASCII bytes are valid UTF-8, and each becomes
/// the character of the same code.
#[verifier::external_body]
fn label_text(b: &Vec<u8>) -> (r: String)
    requires
        forall|i: int| 0 <= i < b@.len() ==> b@[i] < 128,
    ensures
        r@ == ascii_text(b@),
{
    String::from_utf8_lossy(b).into_owned()
}


/// What the parser expected where it stopped.
#[derive(Debug, Clone, Copy, PartialEq, Eq, Structural)]
pub enum Expected {
    /// `;`, a newline or the end of the input, after an instruction.
    Terminator,
    /// `:` after a label.
    Colon,
    /// A mnemonic.
    Mnemonic,
    /// A register, a number or a label.
    Operand,
    /// A label that is not defined yet.
    NewLabel,
}

/// Why a program could not be parsed, and where.
#[derive(Debug, Clone, Copy, PartialEq, Eq, Structural)]
pub enum ParseError {
    MalformedSentenceError { expected: Expected, line: usize, ch: usize },
    LexicalError { error: SyntaxError, line: usize, ch: usize },
}

/// The error for a token `t` where the parser expected something else.
pub open spec fn malformed(expected: Expected, t: Located) -> ParseError {
    ParseError::MalformedSentenceError { expected, line: t.1, ch: t.2 }
}

/// The token at `i` of a stream `ts` that `err` ends, if it is given: past the end of
/// the input the end token repeats, and past a token that could not be read, its error
/// comes.
pub open spec fn peek_at(ts: Seq<Located>, err: Option<(SyntaxError, usize, usize)>, i: int) -> Result<Located, ParseError> {
    if 0 <= i < ts.len() {
        Ok(ts[i])
    } else if let Some((error, line, ch)) = err {
        Err(ParseError::LexicalError { error, line, ch })
    } else if ts.len() > 0 {
        Ok(ts.last())
    } else {
        Ok((TokenView::Eof, 1, 1))
    }
}

/// The operand that a token stands for, if any.
pub open spec fn operand_of(t: TokenView) -> Option<OperandView> {
    match t {
        TokenView::Register(r) => Some(OperandView::Reg(r)),
        TokenView::Digit(n) => Some(OperandView::Digit(n)),
        TokenView::Label(b) => Some(OperandView::Label(ascii_text(b))),
        _ => None,
    }
}

/// The operands `, operand` that follow at `i`, after those in `acc`, and where they end.
pub open spec fn parse_operands(
    ts: Seq<Located>,
    err: Option<(SyntaxError, usize, usize)>,
    i: int,
    acc: Seq<OperandView>,
) -> Result<(Seq<OperandView>, int), ParseError>
    decreases ts.len() - i,
{
    match peek_at(ts, err, i) {
        Err(e) => Err(e),
        Ok(t) => if t.0 == TokenView::Comma && 0 <= i < ts.len() {
            match peek_at(ts, err, i + 1) {
                Err(e) => Err(e),
                Ok(u) => match operand_of(u.0) {
                    None => Err(malformed(Expected::Operand, u)),
                    Some(o) => parse_operands(ts, err, i + 2, acc.push(o)),
                },
            }
        } else {
            Ok((acc, i))
        },
    }
}

/// Where the run of newlines at `i` ends.
pub open spec fn skip_newlines(ts: Seq<Located>, i: int) -> int
    decreases ts.len() - i,
{
    if 0 <= i < ts.len() && ts[i].0 == TokenView::Newline {
        skip_newlines(ts, i + 1)
    } else {
        i
    }
}

proof fn lemma_skip_newlines(ts: Seq<Located>, i: int)
    ensures
        i <= skip_newlines(ts, i),
        i <= ts.len() ==> skip_newlines(ts, i) <= ts.len(),
    decreases ts.len() - i,
{
    if 0 <= i < ts.len() && ts[i].0 == TokenView::Newline {
        lemma_skip_newlines(ts, i + 1);
    }
}

/// An instruction `mnemonic operand (, operand)*` at `i`, carrying the labels `label`,
/// and where it ends.
pub open spec fn parse_single(
    ts: Seq<Located>,
    err: Option<(SyntaxError, usize, usize)>,
    i: int,
    label: Seq<Seq<char>>,
) -> Result<(InstrView, int), ParseError> {
    match peek_at(ts, err, i) {
        Err(e) => Err(e),
        Ok(t) => match t.0 {
            TokenView::Mnemonic(m) => match peek_at(ts, err, i + 1) {
                Err(e) => Err(e),
                Ok(u) => match operand_of(u.0) {
                    None => Err(malformed(Expected::Operand, u)),
                    Some(o) => match parse_operands(ts, err, i + 2, seq![o]) {
                        Err(e) => Err(e),
                        Ok((ops, k)) => Ok(
                            (InstrView { label, mnemonic: m, operands: ops, line: t.1, ch: t.2 }, k),
                        ),
                    },
                },
            },
            _ => Err(malformed(Expected::Mnemonic, t)),
        },
    }
}

/// The label definitions `name:`, each followed by newlines, at `i`, after the labels
/// `pending` defined just before them and the labels `labels` defined so far. Gives the
/// labels of the next instruction, all the labels defined, and where the definitions end.
pub open spec fn parse_label_defs(
    ts: Seq<Located>,
    err: Option<(SyntaxError, usize, usize)>,
    i: int,
    pending: Seq<Seq<char>>,
    labels: Seq<Seq<char>>,
) -> Result<(Seq<Seq<char>>, Seq<Seq<char>>, int), ParseError>
    decreases ts.len() - i,
{
    match peek_at(ts, err, i) {
        Err(e) => Err(e),
        Ok(t) => match t.0 {
            TokenView::Label(b) => {
                let name = ascii_text(b);
                if labels.contains(name) {
                    Err(malformed(Expected::NewLabel, t))
                } else {
                    match peek_at(ts, err, i + 1) {
                        Err(e) => Err(e),
                        Ok(u) => if u.0 != TokenView::Colon {
                            Err(malformed(Expected::Colon, u))
                        } else if 0 <= i < skip_newlines(ts, i + 2) <= ts.len() {
                            parse_label_defs(ts, err, skip_newlines(ts, i + 2), pending.push(name), labels.push(name))
                        } else {
                            Ok((pending.push(name), labels.push(name), i + 2))
                        },
                    }
                }
            },
            _ => Ok((pending, labels, i)),
        },
    }
}

/// An instruction at `i`, with the labels defined just before it; the labels defined so
/// far are `labels`. Gives the instruction, the labels after it, and where it ends.
/// Labels at the end of the input define the end of the program: there is then no
/// instruction.
pub open spec fn parse_labeled(
    ts: Seq<Located>,
    err: Option<(SyntaxError, usize, usize)>,
    i: int,
    labels: Seq<Seq<char>>,
) -> Result<(Option<InstrView>, Seq<Seq<char>>, int), ParseError> {
    match parse_label_defs(ts, err, i, Seq::empty(), labels) {
        Err(e) => Err(e),
        Ok((pending, labels2, j)) => match peek_at(ts, err, j) {
            Err(e) => Err(e),
            Ok(v) => if v.0 == TokenView::Eof {
                Ok((None, labels2, j))
            } else {
                match parse_single(ts, err, j, pending) {
                    Err(e) => Err(e),
                    Ok((ins, k)) => Ok((Some(ins), labels2, k)),
                }
            },
        },
    }
}

/// `acc` with `ins` after it, if there is one.
pub open spec fn push_some(acc: Seq<InstrView>, ins: Option<InstrView>) -> Seq<InstrView> {
    match ins {
        Some(x) => acc.push(x),
        None => acc,
    }
}

/// The program from `i` on, after the instructions `acc` and the labels `labels`.
///
/// Lines end at a newline; `;` separates instructions; empty lines are skipped.
pub open spec fn parse_lines(
    ts: Seq<Located>,
    err: Option<(SyntaxError, usize, usize)>,
    i: int,
    acc: Seq<InstrView>,
    labels: Seq<Seq<char>>,
) -> Result<(Seq<InstrView>, Seq<Seq<char>>), ParseError>
    decreases ts.len() - i,
{
    match peek_at(ts, err, i) {
        Err(e) => Err(e),
        Ok(t) => if t.0 == TokenView::Eof {
            Ok((acc, labels))
        } else if t.0 == TokenView::Newline {
            if 0 <= i < ts.len() {
                parse_lines(ts, err, i + 1, acc, labels)
            } else {
                Ok((acc, labels))
            }
        } else {
            match parse_labeled(ts, err, i, labels) {
                Err(e) => Err(e),
                Ok((ins, labels2, k)) => match peek_at(ts, err, k) {
                    Err(e) => Err(e),
                    Ok(u) => if u.0 == TokenView::Eof {
                        Ok((push_some(acc, ins), labels2))
                    } else if u.0 == TokenView::Newline || u.0 == TokenView::Semicolon {
                        if 0 <= i < k < ts.len() {
                            parse_lines(ts, err, k + 1, push_some(acc, ins), labels2)
                        } else {
                            Ok((push_some(acc, ins), labels2))
                        }
                    } else {
                        Err(malformed(Expected::Terminator, u))
                    },
                },
            }
        },
    }
}

/// The program that a token stream spells: its instructions and its labels in the
/// order of their definition.
pub open spec fn parse_program(
    stream: (Seq<Located>, Option<(SyntaxError, usize, usize)>),
) -> Result<(Seq<InstrView>, Seq<Seq<char>>), ParseError> {
    parse_lines(stream.0, stream.1, 0, Seq::empty(), Seq::empty())
}


/// A parser of the tokens that a lexer reads.
pub struct Parser {
    lexer: Lexer,
    tokens: Vec<(LexToken, usize, usize)>,
    lex_error: Option<(SyntaxError, usize, usize)>,
}

/// Whether `name` is among `labels`.
pub fn contains_label(labels: &Vec<String>, name: &String) -> (r: bool)
    ensures
        r == names_view(labels@).contains(name@),
{
    let mut k: usize = 0;
    while k < labels.len()
        invariant
            k <= labels@.len(),
            forall|j: int| 0 <= j < k ==> labels@[j]@ != name@,
        decreases labels@.len() - k,
    {
        if labels[k] == *name {
            proof {
                assert(names_view(labels@)[k as int] == name@);
            }
            return true;
        }
        k = k + 1;
    }
    proof {
        if names_view(labels@).contains(name@) {
            let j = choose|j: int| 0 <= j < names_view(labels@).len() && names_view(labels@)[j] == name@;
            assert(labels@[j]@ == name@);
        }
    }
    false
}

impl Parser {
    /// The tokens read, as mathematical values.
    pub closed spec fn stream(&self) -> Seq<Located> {
        stream_view(self.tokens@)
    }

    /// The error that ends the tokens read, if one does.
    pub closed spec fn stream_error(&self) -> Option<(SyntaxError, usize, usize)> {
        self.lex_error
    }

    /// The lexer that the parser reads from.
    pub closed spec fn source_lexer(&self) -> Lexer {
        self.lexer
    }

    /// The tokens end with the end of the input or with an error, and their count
    /// leaves room for the parser's indices.
    pub closed spec fn tokens_wf(&self) -> bool {
        &&& self.tokens@.len() + 3 <= usize::MAX
        &&& self.lex_error is None ==> self.tokens@.len() > 0 && self.stream().last().0
            == TokenView::Eof
        &&& self.tokens@.len() > 0 || self.lex_error is Some
        &&& forall|i: int|
            0 <= i < self.tokens@.len() && (#[trigger] self.stream()[i]).0 is Label ==> is_word(
                self.stream()[i].0->Label_0,
            )
    }

    /// A parser that reads from `lexer`.
    pub fn new(lexer: Lexer) -> (r: Self)
        requires
            lexer.wf(),
        ensures
            r.source_lexer() == lexer,
    {
        Parser { lexer, tokens: Vec::new(), lex_error: None }
    }

    /// Parses the whole program: its instructions, and the labels that it defines in the
    /// order of their definition (see `parse_program`).
    pub fn parse(self) -> (r: Result<(Vec<Instruction>, Vec<String>), ParseError>)
        requires
            self.source_lexer().wf(),
        ensures
            ({
                let lx = self.source_lexer();
                match parse_program(lex_stream(lx.src@, lx.pos as int, lx.line as int, lx.character as int)) {
                    Ok((instrs, labels)) => r is Ok && instrs_view(r->Ok_0.0@) == instrs
                        && names_view(r->Ok_0.1@) == labels,
                    Err(e) => r == Err::<(Vec<Instruction>, Vec<String>), ParseError>(e),
                }
            }),
    {
        let mut this = self;
        let ghost lx = this.lexer;
        proof {
            lemma_stream_shape(lx.src@, lx.pos as int, lx.line as int, lx.character as int);
            lemma_stream_labels(lx.src@, lx.pos as int, lx.line as int, lx.character as int);
        }
        let (tokens, lex_error) = this.lexer.tokenize();
        this.tokens = tokens;
        this.lex_error = lex_error;
        this.asm_program()
    }

    /// The index in `tokens` of the token at `i` (see `peek_at`).
    fn peek(&self, i: usize) -> (r: Result<usize, ParseError>)
        requires
            self.tokens_wf(),
        ensures
            match peek_at(self.stream(), self.stream_error(), i as int) {
                Ok(t) => r is Ok && r->Ok_0 < self.tokens@.len() && self.stream()[r->Ok_0 as int] == t
                    && (i < self.tokens@.len() ==> r->Ok_0 == i),
                Err(e) => r == Err::<usize, ParseError>(e),
            },
    {
        if i < self.tokens.len() {
            Ok(i)
        } else {
            match self.lex_error {
                Some((error, line, ch)) => Err(ParseError::LexicalError { error, line, ch }),
                None => Ok(self.tokens.len() - 1),
            }
        }
    }

    fn malformed_at(&self, expected: Expected, j: usize) -> (r: ParseError)
        requires
            j < self.tokens@.len(),
        ensures
            r == malformed(expected, self.stream()[j as int]),
    {
        ParseError::MalformedSentenceError { expected, line: self.tokens[j].1, ch: self.tokens[j].2 }
    }

    fn is_token(&self, j: usize, t: TokenKind) -> (r: bool)
        requires
            j < self.tokens@.len(),
        ensures
            r == (self.stream()[j as int].0 == t.spec_token()),
    {
        match (&self.tokens[j].0, t) {
            (LexToken::LexColon, TokenKind::Colon) => true,
            (LexToken::LexComma, TokenKind::Comma) => true,
            (LexToken::LexNewline, TokenKind::Newline) => true,
            (LexToken::LexEof, TokenKind::Eof) => true,
            (LexToken::LexSemicolon, TokenKind::Semicolon) => true,
            _ => false,
        }
    }

    /// The operand at `i` (see `operand_of`).
    fn operand(&self, i: usize) -> (r: Result<Operand, ParseError>)
        requires
            self.tokens_wf(),
        ensures
            match peek_at(self.stream(), self.stream_error(), i as int) {
                Ok(t) => match operand_of(t.0) {
                    Some(o) => r is Ok && r->Ok_0@ == o && i < self.tokens@.len(),
                    None => r == Err::<Operand, ParseError>(malformed(Expected::Operand, t)),
                },
                Err(e) => r == Err::<Operand, ParseError>(e),
            },
    {
        let j = self.peek(i)?;
        match &self.tokens[j].0 {
            LexToken::LexRegister(reg) => Ok(Operand::OpRegister(*reg)),
            LexToken::LexDigit(n) => Ok(Operand::OpDigit(*n)),
            LexToken::LexLabel(b) => {
                proof {
                    assert(self.stream()[j as int].0 == TokenView::Label(b@));
                    lemma_word_ascii(b@);
                }
                Ok(Operand::OpLabel(label_text(b)))
            },
            _ => Err(self.malformed_at(Expected::Operand, j)),
        }
    }

    /// The operands `, operand` at `i`, pushed onto `operands`; gives where they end.
    fn operand_list(&self, i: usize, operands: &mut Vec<Operand>) -> (r: Result<usize, ParseError>)
        requires
            self.tokens_wf(),
            i <= self.tokens@.len(),
        ensures
            match parse_operands(self.stream(), self.stream_error(), i as int, operands_view(old(operands)@)) {
                Ok((ops, k)) => r == Ok::<usize, ParseError>(k as usize) && operands_view(final(operands)@) == ops
                    && i <= k <= self.tokens@.len(),
                Err(e) => r == Err::<usize, ParseError>(e),
            },
    {
        let mut k = i;
        loop
            invariant
                self.tokens_wf(),
                i <= k <= self.tokens@.len(),
                parse_operands(self.stream(), self.stream_error(), k as int, operands_view(operands@))
                    == parse_operands(self.stream(), self.stream_error(), i as int, operands_view(old(operands)@)),
            decreases self.tokens@.len() - k,
        {
            let j = match self.peek(k) {
                Ok(j) => j,
                Err(e) => return Err(e),
            };
            if k < self.tokens.len() && self.is_token(j, TokenKind::Comma) {
                let o = match self.operand(k + 1) {
                    Ok(o) => o,
                    Err(e) => return Err(e),
                };
                let ghost before = operands@;
                operands.push(o);
                proof {
                    assert(operands_view(operands@) =~= operands_view(before).push(o@));
                }
                k = k + 2;
            } else {
                return Ok(k);
            }
        }
    }

    /// The instruction `mnemonic operand (, operand)*` at `i`, carrying the labels `label`,
    /// and where it ends (see `parse_single`).
    fn single_instr(&self, i: usize, label: Vec<String>) -> (r: Result<(Instruction, usize), ParseError>)
        requires
            self.tokens_wf(),
            i <= self.tokens@.len(),
        ensures
            match parse_single(self.stream(), self.stream_error(), i as int, names_view(label@)) {
                Ok((iv, k)) => r is Ok && r->Ok_0.0@ == iv && r->Ok_0.1 == k && i < k <= self.tokens@.len(),
                Err(e) => r == Err::<(Instruction, usize), ParseError>(e),
            },
    {
        let j = match self.peek(i) {
            Ok(j) => j,
            Err(e) => return Err(e),
        };
        let mnemonic = match &self.tokens[j].0 {
            LexToken::LexMnemonic(m) => *m,
            _ => return Err(self.malformed_at(Expected::Mnemonic, j)),
        };
        let first = match self.operand(i + 1) {
            Ok(o) => o,
            Err(e) => return Err(e),
        };
        let mut operands: Vec<Operand> = Vec::new();
        operands.push(first);
        proof {
            assert(operands_view(operands@) =~= seq![first@]);
        }
        let k = match self.operand_list(i + 2, &mut operands) {
            Ok(k) => k,
            Err(e) => return Err(e),
        };
        let ins = Instruction { label, mnemonic, operands, line: self.tokens[j].1, ch: self.tokens[j].2 };
        Ok((ins, k))
    }

    /// The label definitions at `i`, pushed onto `pending` and onto `labels`; gives where
    /// they end (see `parse_label_defs`).
    fn label_defs(&self, i: usize, pending: &mut Vec<String>, labels: &mut Vec<String>) -> (r: Result<usize, ParseError>)
        requires
            self.tokens_wf(),
            i <= self.tokens@.len(),
        ensures
            match parse_label_defs(
                self.stream(),
                self.stream_error(),
                i as int,
                names_view(old(pending)@),
                names_view(old(labels)@),
            ) {
                Ok((ps, ls, j)) => r == Ok::<usize, ParseError>(j as usize) && names_view(final(pending)@) == ps
                    && names_view(final(labels)@) == ls && i <= j <= self.tokens@.len(),
                Err(e) => r == Err::<usize, ParseError>(e),
            },
    {
        let mut k = i;
        loop
            invariant
                self.tokens_wf(),
                i <= k <= self.tokens@.len(),
                parse_label_defs(self.stream(), self.stream_error(), k as int, names_view(pending@), names_view(labels@))
                    == parse_label_defs(
                    self.stream(),
                    self.stream_error(),
                    i as int,
                    names_view(old(pending)@),
                    names_view(old(labels)@),
                ),
            decreases self.tokens@.len() - k,
        {
            let j = match self.peek(k) {
                Ok(j) => j,
                Err(e) => return Err(e),
            };
            let name = match &self.tokens[j].0 {
                LexToken::LexLabel(b) => {
                    proof {
                        assert(self.stream()[j as int].0 == TokenView::Label(b@));
                        lemma_word_ascii(b@);
                    }
                    label_text(b)
                },
                _ => return Ok(k),
            };
            if contains_label(labels, &name) {
                return Err(self.malformed_at(Expected::NewLabel, j));
            }
            let j1 = match self.peek(k + 1) {
                Ok(j1) => j1,
                Err(e) => return Err(e),
            };
            if !self.is_token(j1, TokenKind::Colon) {
                return Err(self.malformed_at(Expected::Colon, j1));
            }
            let mut n = k + 2;
            while n < self.tokens.len() && self.is_token(n, TokenKind::Newline)
                invariant
                    self.tokens_wf(),
                    k + 2 <= n <= self.tokens@.len(),
                    skip_newlines(self.stream(), n as int) == skip_newlines(self.stream(), k + 2),
                decreases self.tokens@.len() - n,
            {
                n = n + 1;
            }
            proof {
                lemma_skip_newlines(self.stream(), k + 2);
            }
            let ghost before_p = pending@;
            let ghost before_l = labels@;
            pending.push(name.clone());
            labels.push(name);
            proof {
                assert(names_view(pending@) =~= names_view(before_p).push(name@));
                assert(names_view(labels@) =~= names_view(before_l).push(name@));
            }
            k = n;
        }
    }

    /// The instruction at `i` with the labels defined just before it, which are pushed onto
    /// `labels` (see `parse_labeled`).
    fn labeled_single_instr(&self, i: usize, labels: &mut Vec<String>) -> (r: Result<(Option<Instruction>, usize), ParseError>)
        requires
            self.tokens_wf(),
            i <= self.tokens@.len(),
        ensures
            match parse_labeled(self.stream(), self.stream_error(), i as int, names_view(old(labels)@)) {
                Ok((iv, ls, k)) => r is Ok && instr_opt_view(r->Ok_0.0) == iv && r->Ok_0.1 == k && names_view(
                    final(labels)@,
                ) == ls && i <= k <= self.tokens@.len() && (iv is Some ==> i < k),
                Err(e) => r == Err::<(Option<Instruction>, usize), ParseError>(e),
            },
    {
        let mut pending: Vec<String> = Vec::new();
        proof {
            assert(names_view(pending@) =~= Seq::empty());
        }
        let j = match self.label_defs(i, &mut pending, labels) {
            Ok(j) => j,
            Err(e) => return Err(e),
        };
        let jv = match self.peek(j) {
            Ok(jv) => jv,
            Err(e) => return Err(e),
        };
        if self.is_token(jv, TokenKind::Eof) {
            return Ok((None, j));
        }
        match self.single_instr(j, pending) {
            Ok((ins, k)) => Ok((Some(ins), k)),
            Err(e) => Err(e),
        }
    }

    /// Parses the lines of the program (see `parse_lines`).
    fn asm_program(&self) -> (r: Result<(Vec<Instruction>, Vec<String>), ParseError>)
        requires
            self.tokens_wf(),
        ensures
            match parse_lines(self.stream(), self.stream_error(), 0, Seq::empty(), Seq::empty()) {
                Ok((instrs, labels)) => r is Ok && instrs_view(r->Ok_0.0@) == instrs
                    && names_view(r->Ok_0.1@) == labels,
                Err(e) => r == Err::<(Vec<Instruction>, Vec<String>), ParseError>(e),
            },
    {
        let mut instrs: Vec<Instruction> = Vec::new();
        let mut labels: Vec<String> = Vec::new();
        let mut i: usize = 0;
        proof {
            assert(instrs_view(instrs@) =~= Seq::empty());
            assert(names_view(labels@) =~= Seq::empty());
        }
        loop
            invariant
                self.tokens_wf(),
                i <= self.tokens@.len(),
                parse_lines(self.stream(), self.stream_error(), i as int, instrs_view(instrs@), names_view(labels@))
                    == parse_lines(self.stream(), self.stream_error(), 0, Seq::empty(), Seq::empty()),
            decreases self.tokens@.len() - i,
        {
            let j = match self.peek(i) {
                Ok(j) => j,
                Err(e) => return Err(e),
            };
            if self.is_token(j, TokenKind::Eof) {
                return Ok((instrs, labels));
            }
            if self.is_token(j, TokenKind::Newline) {
                if i < self.tokens.len() {
                    i = i + 1;
                    continue;
                } else {
                    return Ok((instrs, labels));
                }
            }
            let (ins, k) = match self.labeled_single_instr(i, &mut labels) {
                Ok(x) => x,
                Err(e) => return Err(e),
            };
            let jk = match self.peek(k) {
                Ok(jk) => jk,
                Err(e) => return Err(e),
            };
            let ghost before = instrs@;
            let ghost iv = instr_opt_view(ins);
            let is_eof = self.is_token(jk, TokenKind::Eof);
            let is_end = self.is_token(jk, TokenKind::Newline) || self.is_token(jk, TokenKind::Semicolon);
            if !is_eof && !is_end {
                return Err(self.malformed_at(Expected::Terminator, jk));
            }
            match ins {
                Some(x) => instrs.push(x),
                None => {},
            }
            proof {
                assert(instrs_view(instrs@) =~= push_some(instrs_view(before), iv));
            }
            if is_eof {
                return Ok((instrs, labels));
            }
            {
                if k < self.tokens.len() {
                    i = k + 1;
                } else {
                    return Ok((instrs, labels));
                }
            }
        }
    }
}

/// The tokens without a payload.
#[derive(Clone, Copy)]
enum TokenKind {
    Colon,
    Comma,
    Newline,
    Eof,
    Semicolon,
}

impl TokenKind {
    spec fn spec_token(self) -> TokenView {
        match self {
            TokenKind::Colon => TokenView::Colon,
            TokenKind::Comma => TokenView::Comma,
            TokenKind::Newline => TokenView::Newline,
            TokenKind::Eof => TokenView::Eof,
            TokenKind::Semicolon => TokenView::Semicolon,
        }
    }
}

} // verus!
