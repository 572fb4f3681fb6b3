use vstd::prelude::*;

verus! {

/// A machine register.
#[derive(Debug, Clone, Copy, PartialEq, Eq, Structural)]
pub enum Register {
    Zero,
    Sp,
    Fp,
    R(u8),
}

/// The instructions of the machine, and the long-branch pseudo-instructions.
#[derive(Debug, Clone, Copy, PartialEq, Eq, Structural)]
pub enum Mnemonic {
    Add,
    Sub,
    Addi,
    Subi,
    Slli,
    Fabs,
    Fneg,
    Fadd,
    Fsub,
    Fmul,
    Fdiv,
    Fsqrt,
    Itof,
    Ftoi,
    Ibeq,
    Ibne,
    Ible,
    Iblt,
    Fblt,
    Fble,
    Fbps,
    Fbng,
    J,
    Jr,
    Call,
    Movl,
    Movh,
    Urecv,
    Usend,
    Lw,
    Sw,
    Libeq,
    Libne,
    Liblt,
    Lible,
    Lfblt,
    Lfble,
    Lfbps,
    Lfbng,
}

/// A token of assembly source.
#[derive(Debug, Clone, PartialEq, Eq)]
pub enum LexToken {
    LexMnemonic(Mnemonic),
    LexRegister(Register),
    LexDigit(i64),
    LexLabel(Vec<u8>),
    LexColon,
    LexComma,
    LexNewline,
    LexEof,
    LexSemicolon,
}

/// A token as a mathematical value: a label is its sequence of bytes.
pub ghost enum TokenView {
    Mnemonic(Mnemonic),
    Register(Register),
    Digit(i64),
    Label(Seq<u8>),
    Colon,
    Comma,
    Newline,
    Eof,
    Semicolon,
}

impl View for LexToken {
    type V = TokenView;

    open spec fn view(&self) -> TokenView {
        match self {
            LexToken::LexMnemonic(m) => TokenView::Mnemonic(*m),
            LexToken::LexRegister(r) => TokenView::Register(*r),
            LexToken::LexDigit(n) => TokenView::Digit(*n),
            LexToken::LexLabel(b) => TokenView::Label(b@),
            LexToken::LexColon => TokenView::Colon,
            LexToken::LexComma => TokenView::Comma,
            LexToken::LexNewline => TokenView::Newline,
            LexToken::LexEof => TokenView::Eof,
            LexToken::LexSemicolon => TokenView::Semicolon,
        }
    }
}

/// Why a token could not be read.
#[derive(Debug, Clone, Copy, PartialEq, Eq, Structural)]
pub enum SyntaxError {
    UnknownCharacterError,
    MalformedTokenError,
}

/// The ASCII codes of the bytes that the lexer tells apart.
pub const SPACE: u8 = 0x20;
pub const TAB: u8 = 0x09;
pub const NEWLINE: u8 = 0x0a;
pub const HASH: u8 = 0x23;
pub const MINUS: u8 = 0x2d;
pub const COLON: u8 = 0x3a;
pub const COMMA: u8 = 0x2c;
pub const SEMICOLON: u8 = 0x3b;
pub const UNDERSCORE: u8 = 0x5f;
pub const DIGIT_0: u8 = 0x30;
pub const DIGIT_1: u8 = 0x31;
pub const DIGIT_9: u8 = 0x39;
pub const UPPER_A: u8 = 0x41;
pub const UPPER_F: u8 = 0x46;
pub const UPPER_Z: u8 = 0x5a;
pub const LOWER_A: u8 = 0x61;
pub const LOWER_B: u8 = 0x62;
pub const LOWER_F: u8 = 0x66;
pub const LOWER_R: u8 = 0x72;
pub const LOWER_X: u8 = 0x78;
pub const LOWER_Z: u8 = 0x7a;

/// The largest number `n` of a general register `rn`.
pub const MAX_GENERAL_REGISTER: u8 = 252;

pub open spec fn spec_is_space(c: u8) -> bool {
    c == SPACE || c == TAB
}

pub open spec fn is_dec_digit(c: u8) -> bool {
    DIGIT_0 <= c <= DIGIT_9
}

pub open spec fn is_upper(c: u8) -> bool {
    UPPER_A <= c <= UPPER_Z
}

pub open spec fn is_lower(c: u8) -> bool {
    LOWER_A <= c <= LOWER_Z
}

pub open spec fn is_hex_digit(c: u8) -> bool {
    is_dec_digit(c) || (UPPER_A <= c <= UPPER_F) || (LOWER_A <= c <= LOWER_F)
}

/// Whether `c` is a digit of a literal in `base` (2, 10 or 16).
pub open spec fn is_digit_in(c: u8, base: int) -> bool {
    if base == 16 {
        is_hex_digit(c)
    } else if base == 2 {
        c == DIGIT_0 || c == DIGIT_1
    } else {
        is_dec_digit(c)
    }
}

/// The value of a digit byte.
pub open spec fn digit_value(c: u8) -> int {
    if is_dec_digit(c) {
        c - DIGIT_0
    } else if is_upper(c) {
        c - UPPER_A + 10
    } else {
        c - LOWER_A + 10
    }
}

/// Whether `c` may start an identifier.
pub open spec fn is_ident_start(c: u8) -> bool {
    is_upper(c) || is_lower(c) || c == UNDERSCORE
}

/// Whether `c` may continue an identifier.
pub open spec fn is_ident_char(c: u8) -> bool {
    is_ident_start(c) || is_dec_digit(c)
}

/// The end of the run of digits in `base` that starts at `p`.
pub open spec fn run_end(s: Seq<u8>, p: int, base: int) -> int
    decreases s.len() - p,
{
    if 0 <= p < s.len() && is_digit_in(s[p], base) {
        run_end(s, p + 1, base)
    } else {
        p
    }
}

/// The end of the run of spaces that starts at `p`.
pub open spec fn space_end(s: Seq<u8>, p: int) -> int
    decreases s.len() - p,
{
    if 0 <= p < s.len() && spec_is_space(s[p]) {
        space_end(s, p + 1)
    } else {
        p
    }
}

/// The end of the run of identifier bytes that starts at `p`.
pub open spec fn ident_end(s: Seq<u8>, p: int) -> int
    decreases s.len() - p,
{
    if 0 <= p < s.len() && is_ident_char(s[p]) {
        ident_end(s, p + 1)
    } else {
        p
    }
}

/// The first newline at or after `p`, or the end of the input.
pub open spec fn line_end(s: Seq<u8>, p: int) -> int
    decreases s.len() - p,
{
    if 0 <= p < s.len() && s[p] != NEWLINE {
        line_end(s, p + 1)
    } else {
        p
    }
}

/// Where the next token starts: spaces are skipped, and a `#` skips the rest of its line.
pub open spec fn token_start(s: Seq<u8>, p: int) -> int
    decreases s.len() - p,
{
    if 0 <= p < s.len() && spec_is_space(s[p]) {
        token_start(s, p + 1)
    } else if 0 <= p < s.len() && s[p] == HASH {
        line_end(s, p + 1)
    } else {
        p
    }
}

/// The value of the digits `s[a..b]` in `base`.
pub open spec fn digits_value(s: Seq<u8>, a: int, b: int, base: int) -> int
    decreases b - a,
{
    if b <= a {
        0
    } else {
        digits_value(s, a, b - 1, base) * base + digit_value(s[b - 1])
    }
}

/// A numeric literal at `p`: its value and where it ends.
///
/// A literal is an optional `-` (spaces may follow it), then decimal digits, or `0x`
/// and hexadecimal digits, or `0b` and binary digits. A literal whose magnitude does
/// not fit in `i64` is malformed.
pub open spec fn scan_number(s: Seq<u8>, p: int) -> Result<(i64, int), SyntaxError> {
    if !(0 <= p < s.len()) {
        Err(SyntaxError::UnknownCharacterError)
    } else {
        let neg = s[p] == MINUS;
        let q = if neg { space_end(s, p + 1) } else { p };
        if neg && !(q < s.len() && is_dec_digit(s[q])) {
            Err(SyntaxError::MalformedTokenError)
        } else if !is_dec_digit(s[q]) {
            Err(SyntaxError::UnknownCharacterError)
        } else {
            let prefixed = q + 1 < s.len() && (s[q + 1] == LOWER_X || s[q + 1] == LOWER_B);
            let base: int = if !prefixed { 10 } else if s[q + 1] == LOWER_X { 16 } else { 2 };
            let first = if prefixed { q + 2 } else { q };
            if prefixed && s[q] != DIGIT_0 {
                Err(SyntaxError::MalformedTokenError)
            } else if prefixed && !(first < s.len() && is_digit_in(s[first], base)) {
                Err(SyntaxError::MalformedTokenError)
            } else {
                let end = run_end(s, first, base);
                let mag = digits_value(s, first, end, base);
                if mag > i64::MAX {
                    Err(SyntaxError::MalformedTokenError)
                } else {
                    Ok((if neg { -mag } else { mag } as i64, end))
                }
            }
        }
    }
}


/// The lower-case name of a mnemonic in assembly source.
pub open spec fn mnemonic_name(m: Mnemonic) -> Seq<u8> {
    match m {
        Mnemonic::Add => seq![0x61, 0x64, 0x64],  // add
        Mnemonic::Sub => seq![0x73, 0x75, 0x62],  // sub
        Mnemonic::Addi => seq![0x61, 0x64, 0x64, 0x69],  // addi
        Mnemonic::Subi => seq![0x73, 0x75, 0x62, 0x69],  // subi
        Mnemonic::Slli => seq![0x73, 0x6c, 0x6c, 0x69],  // slli
        Mnemonic::Fabs => seq![0x66, 0x61, 0x62, 0x73],  // fabs
        Mnemonic::Fneg => seq![0x66, 0x6e, 0x65, 0x67],  // fneg
        Mnemonic::Fadd => seq![0x66, 0x61, 0x64, 0x64],  // fadd
        Mnemonic::Fsub => seq![0x66, 0x73, 0x75, 0x62],  // fsub
        Mnemonic::Fmul => seq![0x66, 0x6d, 0x75, 0x6c],  // fmul
        Mnemonic::Fdiv => seq![0x66, 0x64, 0x69, 0x76],  // fdiv
        Mnemonic::Fsqrt => seq![0x66, 0x73, 0x71, 0x72, 0x74],  // fsqrt
        Mnemonic::Itof => seq![0x69, 0x74, 0x6f, 0x66],  // itof
        Mnemonic::Ftoi => seq![0x66, 0x74, 0x6f, 0x69],  // ftoi
        Mnemonic::Ibeq => seq![0x69, 0x62, 0x65, 0x71],  // ibeq
        Mnemonic::Ibne => seq![0x69, 0x62, 0x6e, 0x65],  // ibne
        Mnemonic::Ible => seq![0x69, 0x62, 0x6c, 0x65],  // ible
        Mnemonic::Iblt => seq![0x69, 0x62, 0x6c, 0x74],  // iblt
        Mnemonic::Fblt => seq![0x66, 0x62, 0x6c, 0x74],  // fblt
        Mnemonic::Fble => seq![0x66, 0x62, 0x6c, 0x65],  // fble
        Mnemonic::Fbps => seq![0x66, 0x62, 0x70, 0x73],  // fbps
        Mnemonic::Fbng => seq![0x66, 0x62, 0x6e, 0x67],  // fbng
        Mnemonic::J => seq![0x6a],  // j
        Mnemonic::Jr => seq![0x6a, 0x72],  // jr
        Mnemonic::Call => seq![0x63, 0x61, 0x6c, 0x6c],  // call
        Mnemonic::Movl => seq![0x6d, 0x6f, 0x76, 0x6c],  // movl
        Mnemonic::Movh => seq![0x6d, 0x6f, 0x76, 0x68],  // movh
        Mnemonic::Urecv => seq![0x75, 0x72, 0x65, 0x63, 0x76],  // urecv
        Mnemonic::Usend => seq![0x75, 0x73, 0x65, 0x6e, 0x64],  // usend
        Mnemonic::Lw => seq![0x6c, 0x77],  // lw
        Mnemonic::Sw => seq![0x73, 0x77],  // sw
        Mnemonic::Libeq => seq![0x6c, 0x69, 0x62, 0x65, 0x71],  // libeq
        Mnemonic::Libne => seq![0x6c, 0x69, 0x62, 0x6e, 0x65],  // libne
        Mnemonic::Liblt => seq![0x6c, 0x69, 0x62, 0x6c, 0x74],  // liblt
        Mnemonic::Lible => seq![0x6c, 0x69, 0x62, 0x6c, 0x65],  // lible
        Mnemonic::Lfblt => seq![0x6c, 0x66, 0x62, 0x6c, 0x74],  // lfblt
        Mnemonic::Lfble => seq![0x6c, 0x66, 0x62, 0x6c, 0x65],  // lfble
        Mnemonic::Lfbps => seq![0x6c, 0x66, 0x62, 0x70, 0x73],  // lfbps
        Mnemonic::Lfbng => seq![0x6c, 0x66, 0x62, 0x6e, 0x67],  // lfbng
    }
}

/// Every mnemonic, in the order in which names are looked up.
pub open spec fn all_mnemonics() -> Seq<Mnemonic> {
    seq![
        Mnemonic::Add,
        Mnemonic::Sub,
        Mnemonic::Addi,
        Mnemonic::Subi,
        Mnemonic::Slli,
        Mnemonic::Fabs,
        Mnemonic::Fneg,
        Mnemonic::Fadd,
        Mnemonic::Fsub,
        Mnemonic::Fmul,
        Mnemonic::Fdiv,
        Mnemonic::Fsqrt,
        Mnemonic::Itof,
        Mnemonic::Ftoi,
        Mnemonic::Ibeq,
        Mnemonic::Ibne,
        Mnemonic::Ible,
        Mnemonic::Iblt,
        Mnemonic::Fblt,
        Mnemonic::Fble,
        Mnemonic::Fbps,
        Mnemonic::Fbng,
        Mnemonic::J,
        Mnemonic::Jr,
        Mnemonic::Call,
        Mnemonic::Movl,
        Mnemonic::Movh,
        Mnemonic::Urecv,
        Mnemonic::Usend,
        Mnemonic::Lw,
        Mnemonic::Sw,
        Mnemonic::Libeq,
        Mnemonic::Libne,
        Mnemonic::Liblt,
        Mnemonic::Lible,
        Mnemonic::Lfblt,
        Mnemonic::Lfble,
        Mnemonic::Lfbps,
        Mnemonic::Lfbng,
    ]
}

pub open spec fn to_lower(c: u8) -> u8 {
    if is_upper(c) {
        (c + 32) as u8
    } else {
        c
    }
}

/// `w` with its upper-case ASCII letters made lower-case.
pub open spec fn lower(w: Seq<u8>) -> Seq<u8> {
    Seq::new(w.len(), |i: int| to_lower(w[i]))
}

/// The first mnemonic of `ms` whose name is `w`.
pub open spec fn keyword_in(w: Seq<u8>, ms: Seq<Mnemonic>) -> Option<Mnemonic>
    decreases ms.len(),
{
    if ms.len() == 0 {
        None
    } else if w == mnemonic_name(ms[0]) {
        Some(ms[0])
    } else {
        keyword_in(w, ms.drop_first())
    }
}

/// The mnemonic that `w` names, in any case.
pub open spec fn keyword(w: Seq<u8>) -> Option<Mnemonic> {
    keyword_in(lower(w), all_mnemonics())
}

/// The register that `w` names by a word (`zero`, `sp`, `fp`), in any case.
pub open spec fn named_register(w: Seq<u8>) -> Option<Register> {
    if lower(w) == seq![0x7au8, 0x65, 0x72, 0x6f] {
        Some(Register::Zero)
    } else if lower(w) == seq![0x73u8, 0x70] {
        Some(Register::Sp)
    } else if lower(w) == seq![0x66u8, 0x70] {
        Some(Register::Fp)
    } else {
        None
    }
}

/// Whether `w` is `r` followed by one or more decimal digits.
pub open spec fn is_register_word(w: Seq<u8>) -> bool {
    &&& w.len() >= 2
    &&& w[0] == LOWER_R
    &&& forall|k: int| 1 <= k < w.len() ==> is_dec_digit(#[trigger] w[k])
}

/// The token that an identifier `w` stands for: a register, a mnemonic or a label.
pub open spec fn classify(w: Seq<u8>) -> Result<TokenView, SyntaxError> {
    if named_register(w) is Some {
        Ok(TokenView::Register(named_register(w)->0))
    } else if is_register_word(w) {
        let n = digits_value(w, 1, w.len() as int, 10);
        if n <= MAX_GENERAL_REGISTER {
            Ok(TokenView::Register(Register::R(n as u8)))
        } else {
            Err(SyntaxError::MalformedTokenError)
        }
    } else {
        match keyword(w) {
            Some(m) => Ok(TokenView::Mnemonic(m)),
            None => Ok(TokenView::Label(w)),
        }
    }
}

/// Whether `c` is a token of one byte: a newline, `:`, `,` or `;`.
pub open spec fn is_control(c: u8) -> bool {
    c == NEWLINE || c == COLON || c == COMMA || c == SEMICOLON
}

pub open spec fn control_token(c: u8) -> TokenView {
    if c == NEWLINE {
        TokenView::Newline
    } else if c == COLON {
        TokenView::Colon
    } else if c == COMMA {
        TokenView::Comma
    } else {
        TokenView::Semicolon
    }
}

/// The token that starts at or after `p` (see `token_start`), and where it ends.
pub open spec fn lex_at(s: Seq<u8>, p: int) -> Result<(TokenView, int), SyntaxError> {
    let t = token_start(s, p);
    if t >= s.len() {
        Ok((TokenView::Eof, t))
    } else if is_control(s[t]) {
        Ok((control_token(s[t]), t + 1))
    } else {
        match scan_number(s, t) {
            Ok((v, e)) => Ok((TokenView::Digit(v), e)),
            Err(SyntaxError::MalformedTokenError) => Err(SyntaxError::MalformedTokenError),
            Err(SyntaxError::UnknownCharacterError) => if is_ident_start(s[t]) {
                let e = ident_end(s, t);
                match classify(s.subrange(t, e)) {
                    Ok(tok) => Ok((tok, e)),
                    Err(err) => Err(err),
                }
            } else {
                Err(SyntaxError::UnknownCharacterError)
            },
        }
    }
}


/// A token with the line and character where it starts.
pub type Located = (TokenView, usize, usize);

/// The tokens that a lexer at `p`, on line `l` and character `c`, reads up to and
/// including the end of the input, and the error that stops it early, if one does.
pub open spec fn lex_stream(s: Seq<u8>, p: int, l: int, c: int) -> (Seq<Located>, Option<(SyntaxError, usize, usize)>)
    decreases s.len() - p,
{
    let t = token_start(s, p);
    let tc = c + (t - p);
    match lex_at(s, p) {
        Err(e) => (Seq::empty(), Some((e, l as usize, tc as usize))),
        Ok((tok, e)) => {
            let here = (tok, l as usize, tc as usize);
            if tok != TokenView::Eof && p < e <= s.len() {
                let nl = if tok == TokenView::Newline { l + 1 } else { l };
                let nc = if tok == TokenView::Newline { 1 } else { tc + (e - t) };
                let rest = lex_stream(s, e, nl, nc);
                (seq![here] + rest.0, rest.1)
            } else {
                (seq![here], None)
            }
        },
    }
}


/// A token stream holds at most one token per byte and the end, and ends either with
/// the end of the input or with an error.
pub proof fn lemma_stream_shape(s: Seq<u8>, p: int, l: int, c: int)
    requires
        0 <= p <= s.len(),
    ensures
        ({
            let r = lex_stream(s, p, l, c);
            &&& r.0.len() <= s.len() - p + 1
            &&& r.1 is None ==> r.0.len() > 0 && r.0.last().0 == TokenView::Eof
            &&& r.0.len() > 0 || r.1 is Some
        }),
    decreases s.len() - p,
{
    lemma_lex_progress(s, p);
    let t = token_start(s, p);
    let tc = c + (t - p);
    match lex_at(s, p) {
        Err(e) => {},
        Ok((tok, e)) => {
            if tok != TokenView::Eof && p < e <= s.len() {
                let nl = if tok == TokenView::Newline { l + 1 } else { l };
                let nc = if tok == TokenView::Newline { 1 } else { tc + (e - t) };
                lemma_stream_shape(s, e, nl, nc);
                let rest = lex_stream(s, e, nl, nc);
                let here = (tok, l as usize, tc as usize);
                assert((seq![here] + rest.0).len() == 1 + rest.0.len());
                if rest.1 is None {
                    assert((seq![here] + rest.0).last() == rest.0.last());
                }
            }
        },
    }
}

/// Whether every byte of `w` may stand in an identifier.
pub open spec fn is_word(w: Seq<u8>) -> bool {
    forall|k: int| 0 <= k < w.len() ==> is_ident_char(#[trigger] w[k])
}

proof fn lemma_ident_chars(s: Seq<u8>, p: int)
    requires
        0 <= p,
    ensures
        forall|k: int| p <= k < ident_end(s, p) ==> is_ident_char(#[trigger] s[k]),
    decreases s.len() - p,
{
    if 0 <= p < s.len() && is_ident_char(s[p]) {
        lemma_ident_chars(s, p + 1);
    }
}

/// Every label that a lexer reads is a word of identifier bytes.
pub proof fn lemma_stream_labels(s: Seq<u8>, p: int, l: int, c: int)
    requires
        0 <= p <= s.len(),
    ensures
        forall|i: int|
            0 <= i < lex_stream(s, p, l, c).0.len() && (#[trigger] lex_stream(s, p, l, c).0[i]).0 is Label
                ==> is_word(lex_stream(s, p, l, c).0[i].0->Label_0),
    decreases s.len() - p,
{
    lemma_token_start(s, p);
    let t = token_start(s, p);
    let tc = c + (t - p);
    let r = lex_stream(s, p, l, c);
    match lex_at(s, p) {
        Err(e) => {},
        Ok((tok, e)) => {
            if tok is Label {
                lemma_ident_chars(s, t);
                lemma_ident_end(s, t);
                let w = tok->Label_0;
                assert(w == s.subrange(t, ident_end(s, t)));
                assert forall|k: int| 0 <= k < w.len() implies is_ident_char(#[trigger] w[k]) by {
                    assert(w[k] == s[t + k]);
                }
            }
            let here = (tok, l as usize, tc as usize);
            if tok != TokenView::Eof && p < e <= s.len() {
                let nl = if tok == TokenView::Newline { l + 1 } else { l };
                let nc = if tok == TokenView::Newline { 1 } else { tc + (e - t) };
                lemma_stream_labels(s, e, nl, nc);
                let rest = lex_stream(s, e, nl, nc);
                assert(r.0 == seq![here] + rest.0);
                assert forall|i: int| 0 <= i < r.0.len() && (#[trigger] r.0[i]).0 is Label implies is_word(
                    r.0[i].0->Label_0,
                ) by {
                    if i > 0 {
                        assert(r.0[i] == rest.0[i - 1]);
                    }
                }
            }
        },
    }
}

/// The tokens of a list as mathematical values.
pub open spec fn stream_view(v: Seq<(LexToken, usize, usize)>) -> Seq<Located> {
    v.map_values(|t: (LexToken, usize, usize)| (t.0@, t.1, t.2))
}

proof fn lemma_space_end(s: Seq<u8>, p: int)
    requires
        0 <= p,
    ensures
        p <= space_end(s, p),
        p <= s.len() ==> space_end(s, p) <= s.len(),
    decreases s.len() - p,
{
    if 0 <= p < s.len() && spec_is_space(s[p]) {
        lemma_space_end(s, p + 1);
    }
}

proof fn lemma_line_end(s: Seq<u8>, p: int)
    requires
        0 <= p,
    ensures
        p <= line_end(s, p),
        p <= s.len() ==> line_end(s, p) <= s.len(),
    decreases s.len() - p,
{
    if 0 <= p < s.len() && s[p] != NEWLINE {
        lemma_line_end(s, p + 1);
    }
}

proof fn lemma_ident_end(s: Seq<u8>, p: int)
    requires
        0 <= p,
    ensures
        p <= ident_end(s, p),
        p <= s.len() ==> ident_end(s, p) <= s.len(),
    decreases s.len() - p,
{
    if 0 <= p < s.len() && is_ident_char(s[p]) {
        lemma_ident_end(s, p + 1);
    }
}

proof fn lemma_token_start(s: Seq<u8>, p: int)
    requires
        0 <= p,
    ensures
        p <= token_start(s, p),
        p <= s.len() ==> token_start(s, p) <= s.len(),
    decreases s.len() - p,
{
    if 0 <= p < s.len() && spec_is_space(s[p]) {
        lemma_token_start(s, p + 1);
    } else if 0 <= p < s.len() && s[p] == HASH {
        lemma_line_end(s, p + 1);
    }
}

/// Every token but the end of the input takes at least one byte.
proof fn lemma_lex_progress(s: Seq<u8>, p: int)
    requires
        0 <= p <= s.len(),
    ensures
        match lex_at(s, p) {
            Ok((tok, e)) => tok != TokenView::Eof ==> p < e <= s.len(),
            Err(_) => true,
        },
{
    lemma_token_start(s, p);
    let t = token_start(s, p);
    if t < s.len() && !is_control(s[t]) {
        let neg = s[t] == MINUS;
        if neg {
            lemma_space_end(s, t + 1);
        }
        let q = if neg { space_end(s, t + 1) } else { t };
        if q < s.len() && is_dec_digit(s[q]) {
            let prefixed = q + 1 < s.len() && (s[q + 1] == LOWER_X || s[q + 1] == LOWER_B);
            let base: int = if !prefixed { 10 } else if s[q + 1] == LOWER_X { 16 } else { 2 };
            let first = if prefixed { q + 2 } else { q };
            if first < s.len() && is_digit_in(s[first], base) {
                lemma_run_end(s, first + 1, base);
            }
        }
        if is_ident_start(s[t]) {
            lemma_ident_end(s, t + 1);
        }
    }
}

/// A reader of tokens over the bytes of an assembly source.
pub struct Lexer {
    pub src: Vec<u8>,
    pub pos: usize,
    pub line: usize,
    pub character: usize,
}

impl Lexer {
    /// The bytes being read.
    pub open spec fn source(&self) -> Seq<u8> {
        self.src@
    }

    /// The position of the next byte to read.
    pub open spec fn position(&self) -> int {
        self.pos as int
    }

    /// The position lies in the source, and the line and character counters stay
    /// within one per byte read.
    pub open spec fn wf(&self) -> bool {
        &&& self.pos <= self.src@.len()
        &&& self.src@.len() + 4 <= usize::MAX
        &&& 1 <= self.line <= self.pos + 1
        &&& 1 <= self.character <= self.pos + 1
    }

    /// A lexer at the start of `src`, at line 1, character 1.
    pub fn new(src: Vec<u8>) -> (r: Self)
        requires
            src@.len() + 4 <= usize::MAX,
        ensures
            r.wf(),
            r.source() == src@,
            r.position() == 0,
            r.line == 1,
            r.character == 1,
    {
        Lexer { src, pos: 0, line: 1, character: 1 }
    }

    fn is_space(ch: u8) -> (r: bool)
        ensures
            r == spec_is_space(ch),
    {
        ch == SPACE || ch == TAB
    }

    fn peek_byte(&self) -> (r: Option<u8>)
        requires
            self.wf(),
        ensures
            r == (if self.pos < self.src@.len() {
                Some(self.src@[self.pos as int])
            } else {
                None
            }),
    {
        if self.pos < self.src.len() {
            Some(self.src[self.pos])
        } else {
            None
        }
    }

    /// Skips spaces and tabs, and a comment from `#` to the end of its line.
    fn skip_space(&mut self)
        requires
            old(self).wf(),
        ensures
            final(self).wf(),
            final(self).src@ == old(self).src@,
            final(self).line == old(self).line,
            final(self).pos == token_start(old(self).src@, old(self).pos as int),
            final(self).character == old(self).character + (final(self).pos - old(self).pos),
    {
        let ghost s = self.src@;
        let ghost start = self.pos as int;
        loop
            invariant
                self.wf(),
                self.src@ == s,
                s == old(self).src@,
                start == old(self).pos,
                self.line == old(self).line,
                old(self).pos <= self.pos,
                self.character == old(self).character + (self.pos - old(self).pos),
                token_start(s, self.pos as int) == token_start(s, start),
            decreases s.len() - self.pos,
        {
            if self.pos >= self.src.len() {
                return;
            }
            let a = self.src[self.pos];
            if a == HASH {
                self.pos = self.pos + 1;
                self.character = self.character + 1;
                loop
                    invariant
                        self.wf(),
                        self.src@ == s,
                        s == old(self).src@,
                        start == old(self).pos,
                        self.line == old(self).line,
                        old(self).pos < self.pos,
                        self.character == old(self).character + (self.pos - old(self).pos),
                        line_end(s, self.pos as int) == token_start(s, start),
                    decreases s.len() - self.pos,
                {
                    if self.pos >= self.src.len() || self.src[self.pos] == NEWLINE {
                        return;
                    }
                    self.pos = self.pos + 1;
                    self.character = self.character + 1;
                }
            }
            if !Self::is_space(a) {
                return;
            }
            self.pos = self.pos + 1;
            self.character = self.character + 1;
        }
    }

    /// Reads a colon, a comma, a semicolon, a newline, or the end of the input.
    fn get_control(&mut self) -> (r: Result<LexToken, SyntaxError>)
        requires
            old(self).wf(),
        ensures
            final(self).wf(),
            final(self).src@ == old(self).src@,
            ({
                let s = old(self).src@;
                let p = old(self).pos as int;
                if p >= s.len() {
                    r == Ok::<LexToken, SyntaxError>(LexToken::LexEof) && *final(self) == *old(self)
                } else if s[p] == NEWLINE {
                    &&& r == Ok::<LexToken, SyntaxError>(LexToken::LexNewline)
                    &&& final(self).pos == p + 1
                    &&& final(self).line == old(self).line + 1
                    &&& final(self).character == 1
                } else if s[p] == COLON || s[p] == COMMA || s[p] == SEMICOLON {
                    &&& r == Ok::<LexToken, SyntaxError>(
                        if s[p] == COLON {
                            LexToken::LexColon
                        } else if s[p] == COMMA {
                            LexToken::LexComma
                        } else {
                            LexToken::LexSemicolon
                        },
                    )
                    &&& final(self).pos == p + 1
                    &&& final(self).line == old(self).line
                    &&& final(self).character == old(self).character + 1
                } else {
                    r == Err::<LexToken, SyntaxError>(SyntaxError::UnknownCharacterError)
                        && *final(self) == *old(self)
                }
            }),
    {
        if self.pos >= self.src.len() {
            return Ok(LexToken::LexEof);
        }
        let a = self.src[self.pos];
        let res = if a == COLON {
            LexToken::LexColon
        } else if a == COMMA {
            LexToken::LexComma
        } else if a == SEMICOLON {
            LexToken::LexSemicolon
        } else if a == NEWLINE {
            LexToken::LexNewline
        } else {
            return Err(SyntaxError::UnknownCharacterError);
        };
        if a == NEWLINE {
            self.line = self.line + 1;
            self.character = 1;
        } else {
            self.character = self.character + 1;
        }
        self.pos = self.pos + 1;
        Ok(res)
    }

    /// Reads a numeric literal (see `scan_number`).
    fn get_digit(&mut self) -> (r: Result<i64, SyntaxError>)
        requires
            old(self).wf(),
        ensures
            final(self).wf(),
            final(self).src@ == old(self).src@,
            final(self).line == old(self).line,
            match scan_number(old(self).src@, old(self).pos as int) {
                Ok((v, end)) => {
                    &&& r == Ok::<i64, SyntaxError>(v)
                    &&& final(self).pos == end
                    &&& final(self).character == old(self).character + (end - old(self).pos)
                },
                Err(e) => {
                    &&& r == Err::<i64, SyntaxError>(e)
                    &&& final(self).pos == old(self).pos
                    &&& final(self).character == old(self).character
                },
            },
    {
        let ghost s = self.src@;
        let n = self.src.len();
        let p = self.pos;
        if p >= n {
            return Err(SyntaxError::UnknownCharacterError);
        }
        let neg = self.src[p] == MINUS;
        let mut q = p;
        if neg {
            q = p + 1;
            while q < n && Self::is_space(self.src[q])
                invariant
                    s == self.src@,
                    n == s.len(),
                    self.wf(),
                    self.pos == p,
                    self.line == old(self).line,
                    self.character == old(self).character,
                    *self == *old(self),
                    p < q <= n,
                    space_end(s, q as int) == space_end(s, p + 1),
                decreases n - q,
            {
                q = q + 1;
            }
            if !(q < n && is_dec(self.src[q])) {
                return Err(SyntaxError::MalformedTokenError);
            }
        }
        if !is_dec(self.src[q]) {
            return Err(SyntaxError::UnknownCharacterError);
        }
        let prefixed = q + 1 < n && (self.src[q + 1] == LOWER_X || self.src[q + 1] == LOWER_B);
        let base: u64 = if !prefixed {
            10
        } else if self.src[q + 1] == LOWER_X {
            16
        } else {
            2
        };
        let first = if prefixed {
            q + 2
        } else {
            q
        };
        if prefixed && self.src[q] != DIGIT_0 {
            return Err(SyntaxError::MalformedTokenError);
        }
        if prefixed && !(first < n && is_digit_of(self.src[first], base)) {
            return Err(SyntaxError::MalformedTokenError);
        }
        let ghost end = run_end(s, first as int, base as int);
        proof {
            lemma_run_end(s, first as int, base as int);
        }
        let mut mag: u64 = 0;
        let mut i = first;
        while i < n && is_digit_of(self.src[i], base)
            invariant
                s == self.src@,
                n == s.len(),
                self.wf(),
                *self == *old(self),
                p == old(self).pos,
                base == 2 || base == 10 || base == 16,
                first <= i <= end <= n,
                end == run_end(s, first as int, base as int),
                run_end(s, i as int, base as int) == end,
                forall|k: int| first <= k < end ==> is_digit_in(#[trigger] s[k], base as int),
                mag == digits_value(s, first as int, i as int, base as int),
                mag <= i64::MAX,
                digits_value(s, first as int, end, base as int) > i64::MAX ==> scan_number(s, p as int)
                    == Err::<(i64, int), SyntaxError>(SyntaxError::MalformedTokenError),
            decreases n - i,
        {
            let d = digit_val(self.src[i]);
            proof {
                lemma_run_end(s, i + 1, base as int);
                lemma_digits_mono(s, first as int, i + 1, end, base as int);
            }
            if mag > (0x7fff_ffff_ffff_ffffu64 - d) / base {
                proof {
                    lemma_div_bound(mag as int, base as int, d as int, i64::MAX as int);
                    assert(digits_value(s, first as int, i + 1, base as int) == mag * base + d);
                    assert(digits_value(s, first as int, end, base as int) > i64::MAX);
                }
                return Err(SyntaxError::MalformedTokenError);
            }
            proof {
                lemma_div_bound(mag as int, base as int, d as int, i64::MAX as int);
            }
            mag = mag * base + d;
            i = i + 1;
        }
        let v: i64 = if neg {
            -(mag as i64)
        } else {
            mag as i64
        };
        self.character = self.character + (i - p);
        self.pos = i;
        Ok(v)
    }

    /// Reads an identifier: a letter or `_`, then letters, digits and `_`.
    fn get_identifier(&mut self) -> (r: Result<Vec<u8>, SyntaxError>)
        requires
            old(self).wf(),
        ensures
            final(self).wf(),
            final(self).src@ == old(self).src@,
            final(self).line == old(self).line,
            ({
                let s = old(self).src@;
                let p = old(self).pos as int;
                if p < s.len() && is_ident_start(s[p]) {
                    let e = ident_end(s, p);
                    &&& p < e
                    &&& r is Ok
                    &&& r->Ok_0@ == s.subrange(p, e)
                    &&& final(self).pos == e
                    &&& final(self).character == old(self).character + (e - p)
                } else {
                    r == Err::<Vec<u8>, SyntaxError>(SyntaxError::UnknownCharacterError)
                        && *final(self) == *old(self)
                }
            }),
    {
        let ghost s = self.src@;
        let n = self.src.len();
        let p = self.pos;
        if p >= n {
            return Err(SyntaxError::UnknownCharacterError);
        }
        let a = self.src[p];
        if !(is_alpha(a) || a == UNDERSCORE) {
            return Err(SyntaxError::UnknownCharacterError);
        }
        let mut buf: Vec<u8> = Vec::new();
        buf.push(a);
        let mut i = p + 1;
        while i < n && (is_alpha(self.src[i]) || is_dec(self.src[i]) || self.src[i] == UNDERSCORE)
            invariant
                s == self.src@,
                n == s.len(),
                self.wf(),
                *self == *old(self),
                p == old(self).pos,
                p < i <= n,
                ident_end(s, i as int) == ident_end(s, p as int),
                buf@ == s.subrange(p as int, i as int),
            decreases n - i,
        {
            buf.push(self.src[i]);
            i = i + 1;
            proof {
                assert(buf@ =~= s.subrange(p as int, i as int));
            }
        }
        self.character = self.character + (i - p);
        self.pos = i;
        Ok(buf)
    }

    /// Reads the next token, with the line and character where it starts.
    ///
    /// After the end of the input every call gives `LexEof`. An error carries the
    /// position where the token that could not be read starts.
    pub fn next(&mut self) -> (r: Result<(LexToken, usize, usize), (SyntaxError, usize, usize)>)
        requires
            old(self).wf(),
        ensures
            final(self).wf(),
            final(self).src@ == old(self).src@,
            ({
                let s = old(self).src@;
                let p = old(self).pos as int;
                let t = token_start(s, p);
                let ch = old(self).character + (t - p);
                match lex_at(s, p) {
                    Ok((tok, e)) => {
                        &&& r is Ok
                        &&& r->Ok_0.0@ == tok
                        &&& r->Ok_0.1 == old(self).line
                        &&& r->Ok_0.2 == ch
                        &&& final(self).pos == e
                        &&& final(self).line == if tok == TokenView::Newline {
                            old(self).line + 1
                        } else {
                            old(self).line as int
                        }
                        &&& final(self).character == if tok == TokenView::Newline {
                            1
                        } else {
                            ch + (e - t)
                        }
                    },
                    Err(err) => r == Err::<(LexToken, usize, usize), (SyntaxError, usize, usize)>(
                        (err, old(self).line, ch as usize),
                    ),
                }
            }),
    {
        self.skip_space();
        let line = self.line;
        let ch = self.character;
        let token = self.get_control();
        if let Ok(tok) = token {
            return Ok((tok, line, ch));
        }
        let number = self.get_digit();
        match number {
            Ok(v) => {
                return Ok((LexToken::LexDigit(v), line, ch));
            },
            Err(SyntaxError::MalformedTokenError) => {
                return Err((SyntaxError::MalformedTokenError, line, ch));
            },
            Err(SyntaxError::UnknownCharacterError) => {},
        }
        let word = self.get_identifier();
        match word {
            Err(e) => Err((e, line, ch)),
            Ok(w) => match classify_word(w) {
                Ok(tok) => Ok((tok, line, ch)),
                Err(e) => Err((e, line, ch)),
            },
        }
    }

    /// Reads every token up to and including the end of the input, or up to the
    /// first token that cannot be read, whose error then comes second.
    pub fn tokenize(&mut self) -> (r: (Vec<(LexToken, usize, usize)>, Option<(SyntaxError, usize, usize)>))
        requires
            old(self).wf(),
        ensures
            final(self).wf(),
            final(self).src@ == old(self).src@,
            (stream_view(r.0@), r.1) == lex_stream(
                old(self).src@,
                old(self).pos as int,
                old(self).line as int,
                old(self).character as int,
            ),
    {
        let ghost full = lex_stream(self.src@, self.pos as int, self.line as int, self.character as int);
        let mut toks: Vec<(LexToken, usize, usize)> = Vec::new();
        loop
            invariant
                self.wf(),
                self.src@ == old(self).src@,
                full == lex_stream(old(self).src@, old(self).pos as int, old(self).line as int, old(self).character as int),
                ({
                    let rest = lex_stream(self.src@, self.pos as int, self.line as int, self.character as int);
                    stream_view(toks@) + rest.0 == full.0 && rest.1 == full.1
                }),
            decreases self.src@.len() - self.pos,
        {
            let ghost rest = lex_stream(self.src@, self.pos as int, self.line as int, self.character as int);
            proof {
                lemma_lex_progress(self.src@, self.pos as int);
            }
            match self.next() {
                Ok(t) => {
                    let is_eof = match t.0 {
                        LexToken::LexEof => true,
                        _ => false,
                    };
                    toks.push(t);
                    proof {
                        let nrest = lex_stream(self.src@, self.pos as int, self.line as int, self.character as int);
                        assert(stream_view(toks@) =~= stream_view(toks@.drop_last()).push((t.0@, t.1, t.2)));
                        if !is_eof {
                            assert(rest.0 == seq![(t.0@, t.1, t.2)] + nrest.0);
                        }
                    }
                    if is_eof {
                        proof {
                            assert(stream_view(toks@) =~= full.0);
                        }
                        return (toks, None);
                    }
                },
                Err(e) => {
                    proof {
                        assert(stream_view(toks@) =~= full.0);
                    }
                    return (toks, Some(e));
                },
            }
        }
    }
}

fn is_dec(c: u8) -> (r: bool)
    ensures
        r == is_dec_digit(c),
{
    DIGIT_0 <= c && c <= DIGIT_9
}

fn is_digit_of(c: u8, base: u64) -> (r: bool)
    ensures
        r == is_digit_in(c, base as int),
{
    if base == 16 {
        is_dec(c) || (UPPER_A <= c && c <= UPPER_F) || (LOWER_A <= c && c <= LOWER_F)
    } else if base == 2 {
        c == DIGIT_0 || c == DIGIT_1
    } else {
        is_dec(c)
    }
}

fn digit_val(c: u8) -> (r: u64)
    requires
        is_hex_digit(c),
    ensures
        r == digit_value(c),
        r < 16,
{
    if is_dec(c) {
        (c - DIGIT_0) as u64
    } else if UPPER_A <= c && c <= UPPER_Z {
        (c - UPPER_A + 10) as u64
    } else {
        (c - LOWER_A + 10) as u64
    }
}

proof fn lemma_run_end(s: Seq<u8>, p: int, base: int)
    requires
        0 <= p <= s.len(),
    ensures
        p <= run_end(s, p, base) <= s.len(),
        forall|k: int| p <= k < run_end(s, p, base) ==> is_digit_in(#[trigger] s[k], base),
    decreases s.len() - p,
{
    if p < s.len() && is_digit_in(s[p], base) {
        lemma_run_end(s, p + 1, base);
    }
}

proof fn lemma_digits_mono(s: Seq<u8>, a: int, i: int, j: int, base: int)
    requires
        a <= i <= j,
        base >= 1,
        forall|k: int| a <= k < j ==> is_hex_digit(#[trigger] s[k]),
    ensures
        0 <= digits_value(s, a, i, base) <= digits_value(s, a, j, base),
    decreases j - a,
{
    if j > a {
        if i < j {
            lemma_digits_mono(s, a, i, j - 1, base);
        } else {
            lemma_digits_mono(s, a, i - 1, j - 1, base);
        }
        let x = digits_value(s, a, j - 1, base);
        assert(x * base >= x) by (nonlinear_arith)
            requires
                x >= 0,
                base >= 1,
        ;
    }
}

proof fn lemma_div_bound(mag: int, b: int, d: int, m: int)
    requires
        b >= 1,
        0 <= d <= m,
        0 <= mag,
    ensures
        (mag > (m - d) / b) <==> (mag * b + d > m),
{
    let q = (m - d) / b;
    assert(q * b <= m - d < q * b + b) by (nonlinear_arith)
        requires
            q == (m - d) / b,
            b >= 1,
            m - d >= 0,
    ;
    if mag > q {
        assert(mag * b >= q * b + b) by (nonlinear_arith)
            requires
                mag >= q + 1,
                b >= 1,
        ;
    } else {
        assert(mag * b <= q * b) by (nonlinear_arith)
            requires
                mag <= q,
                b >= 1,
        ;
    }
}


fn name_bytes(m: Mnemonic) -> (r: Vec<u8>)
    ensures
        r@ == mnemonic_name(m),
{
    match m {
        Mnemonic::Add => vec![0x61, 0x64, 0x64],  // add
        Mnemonic::Sub => vec![0x73, 0x75, 0x62],  // sub
        Mnemonic::Addi => vec![0x61, 0x64, 0x64, 0x69],  // addi
        Mnemonic::Subi => vec![0x73, 0x75, 0x62, 0x69],  // subi
        Mnemonic::Slli => vec![0x73, 0x6c, 0x6c, 0x69],  // slli
        Mnemonic::Fabs => vec![0x66, 0x61, 0x62, 0x73],  // fabs
        Mnemonic::Fneg => vec![0x66, 0x6e, 0x65, 0x67],  // fneg
        Mnemonic::Fadd => vec![0x66, 0x61, 0x64, 0x64],  // fadd
        Mnemonic::Fsub => vec![0x66, 0x73, 0x75, 0x62],  // fsub
        Mnemonic::Fmul => vec![0x66, 0x6d, 0x75, 0x6c],  // fmul
        Mnemonic::Fdiv => vec![0x66, 0x64, 0x69, 0x76],  // fdiv
        Mnemonic::Fsqrt => vec![0x66, 0x73, 0x71, 0x72, 0x74],  // fsqrt
        Mnemonic::Itof => vec![0x69, 0x74, 0x6f, 0x66],  // itof
        Mnemonic::Ftoi => vec![0x66, 0x74, 0x6f, 0x69],  // ftoi
        Mnemonic::Ibeq => vec![0x69, 0x62, 0x65, 0x71],  // ibeq
        Mnemonic::Ibne => vec![0x69, 0x62, 0x6e, 0x65],  // ibne
        Mnemonic::Ible => vec![0x69, 0x62, 0x6c, 0x65],  // ible
        Mnemonic::Iblt => vec![0x69, 0x62, 0x6c, 0x74],  // iblt
        Mnemonic::Fblt => vec![0x66, 0x62, 0x6c, 0x74],  // fblt
        Mnemonic::Fble => vec![0x66, 0x62, 0x6c, 0x65],  // fble
        Mnemonic::Fbps => vec![0x66, 0x62, 0x70, 0x73],  // fbps
        Mnemonic::Fbng => vec![0x66, 0x62, 0x6e, 0x67],  // fbng
        Mnemonic::J => vec![0x6a],  // j
        Mnemonic::Jr => vec![0x6a, 0x72],  // jr
        Mnemonic::Call => vec![0x63, 0x61, 0x6c, 0x6c],  // call
        Mnemonic::Movl => vec![0x6d, 0x6f, 0x76, 0x6c],  // movl
        Mnemonic::Movh => vec![0x6d, 0x6f, 0x76, 0x68],  // movh
        Mnemonic::Urecv => vec![0x75, 0x72, 0x65, 0x63, 0x76],  // urecv
        Mnemonic::Usend => vec![0x75, 0x73, 0x65, 0x6e, 0x64],  // usend
        Mnemonic::Lw => vec![0x6c, 0x77],  // lw
        Mnemonic::Sw => vec![0x73, 0x77],  // sw
        Mnemonic::Libeq => vec![0x6c, 0x69, 0x62, 0x65, 0x71],  // libeq
        Mnemonic::Libne => vec![0x6c, 0x69, 0x62, 0x6e, 0x65],  // libne
        Mnemonic::Liblt => vec![0x6c, 0x69, 0x62, 0x6c, 0x74],  // liblt
        Mnemonic::Lible => vec![0x6c, 0x69, 0x62, 0x6c, 0x65],  // lible
        Mnemonic::Lfblt => vec![0x6c, 0x66, 0x62, 0x6c, 0x74],  // lfblt
        Mnemonic::Lfble => vec![0x6c, 0x66, 0x62, 0x6c, 0x65],  // lfble
        Mnemonic::Lfbps => vec![0x6c, 0x66, 0x62, 0x70, 0x73],  // lfbps
        Mnemonic::Lfbng => vec![0x6c, 0x66, 0x62, 0x6e, 0x67],  // lfbng
    }
}

fn mnemonic_table() -> (r: Vec<Mnemonic>)
    ensures
        r@ == all_mnemonics(),
{
    let r = vec![
        Mnemonic::Add,
        Mnemonic::Sub,
        Mnemonic::Addi,
        Mnemonic::Subi,
        Mnemonic::Slli,
        Mnemonic::Fabs,
        Mnemonic::Fneg,
        Mnemonic::Fadd,
        Mnemonic::Fsub,
        Mnemonic::Fmul,
        Mnemonic::Fdiv,
        Mnemonic::Fsqrt,
        Mnemonic::Itof,
        Mnemonic::Ftoi,
        Mnemonic::Ibeq,
        Mnemonic::Ibne,
        Mnemonic::Ible,
        Mnemonic::Iblt,
        Mnemonic::Fblt,
        Mnemonic::Fble,
        Mnemonic::Fbps,
        Mnemonic::Fbng,
        Mnemonic::J,
        Mnemonic::Jr,
        Mnemonic::Call,
        Mnemonic::Movl,
        Mnemonic::Movh,
        Mnemonic::Urecv,
        Mnemonic::Usend,
        Mnemonic::Lw,
        Mnemonic::Sw,
        Mnemonic::Libeq,
        Mnemonic::Libne,
        Mnemonic::Liblt,
        Mnemonic::Lible,
        Mnemonic::Lfblt,
        Mnemonic::Lfble,
        Mnemonic::Lfbps,
        Mnemonic::Lfbng,
    ];
    proof {
        assert(r@ =~= all_mnemonics());
    }
    r
}

fn is_alpha(c: u8) -> (r: bool)
    ensures
        r == (is_upper(c) || is_lower(c)),
{
    (UPPER_A <= c && c <= UPPER_Z) || (LOWER_A <= c && c <= LOWER_Z)
}

fn lowercase(w: &Vec<u8>) -> (r: Vec<u8>)
    ensures
        r@ == lower(w@),
{
    let mut r: Vec<u8> = Vec::new();
    let mut i: usize = 0;
    while i < w.len()
        invariant
            i <= w@.len(),
            r@ == lower(w@).subrange(0, i as int),
        decreases w@.len() - i,
    {
        let c = w[i];
        let l = if UPPER_A <= c && c <= UPPER_Z {
            c + 32
        } else {
            c
        };
        r.push(l);
        i = i + 1;
        proof {
            assert(r@ =~= lower(w@).subrange(0, i as int));
        }
    }
    proof {
        assert(r@ =~= lower(w@));
    }
    r
}

fn bytes_eq(a: &Vec<u8>, b: &Vec<u8>) -> (r: bool)
    ensures
        r == (a@ == b@),
{
    if a.len() != b.len() {
        return false;
    }
    let mut i: usize = 0;
    while i < a.len()
        invariant
            a@.len() == b@.len(),
            i <= a@.len(),
            a@.subrange(0, i as int) == b@.subrange(0, i as int),
        decreases a@.len() - i,
    {
        if a[i] != b[i] {
            proof {
                assert(a@[i as int] != b@[i as int]);
            }
            return false;
        }
        proof {
            assert(a@.subrange(0, i + 1) =~= a@.subrange(0, i as int).push(a@[i as int]));
            assert(b@.subrange(0, i + 1) =~= b@.subrange(0, i as int).push(b@[i as int]));
        }
        i = i + 1;
    }
    proof {
        assert(a@ =~= a@.subrange(0, a@.len() as int));
        assert(b@ =~= b@.subrange(0, b@.len() as int));
    }
    true
}

fn lookup_keyword(w: &Vec<u8>) -> (r: Option<Mnemonic>)
    requires
        w@ == lower(w@),
    ensures
        r == keyword_in(w@, all_mnemonics()),
{
    let table = mnemonic_table();
    let mut k: usize = 0;
    proof {
        assert(table@.skip(0) =~= table@);
    }
    while k < table.len()
        invariant
            table@ == all_mnemonics(),
            k <= table@.len(),
            keyword_in(w@, table@.skip(k as int)) == keyword_in(w@, all_mnemonics()),
        decreases table@.len() - k,
    {
        let m = table[k];
        proof {
            assert(table@.skip(k as int)[0] == m);
            assert(table@.skip(k as int).drop_first() =~= table@.skip(k + 1));
        }
        if bytes_eq(w, &name_bytes(m)) {
            return Some(m);
        }
        k = k + 1;
    }
    None
}

/// The value of the register word `w` (`r` and digits), or `None` where it exceeds
/// the largest register number.
fn register_number(w: &Vec<u8>) -> (r: Option<u8>)
    requires
        is_register_word(w@),
    ensures
        r == (if digits_value(w@, 1, w@.len() as int, 10) <= MAX_GENERAL_REGISTER {
            Some(digits_value(w@, 1, w@.len() as int, 10) as u8)
        } else {
            None
        }),
{
    let mut n: u8 = 0;
    let mut i: usize = 1;
    while i < w.len()
        invariant
            is_register_word(w@),
            1 <= i <= w@.len(),
            n == digits_value(w@, 1, i as int, 10),
            n <= MAX_GENERAL_REGISTER,
        decreases w@.len() - i,
    {
        let d = w[i] - DIGIT_0;
        proof {
            lemma_digits_mono(w@, 1, i + 1, w@.len() as int, 10);
        }
        if n > 25 || (n == 25 && d > 2) {
            return None;
        }
        n = n * 10 + d;
        i = i + 1;
    }
    Some(n)
}

/// The token that the identifier `w` stands for (see `classify`).
fn classify_word(w: Vec<u8>) -> (r: Result<LexToken, SyntaxError>)
    requires
        w@.len() >= 1,
    ensures
        match classify(w@) {
            Ok(t) => r is Ok && r->Ok_0@ == t,
            Err(e) => r == Err::<LexToken, SyntaxError>(e),
        },
{
    let l = lowercase(&w);
    if bytes_eq(&l, &vec![0x7a, 0x65, 0x72, 0x6f]) {
        return Ok(LexToken::LexRegister(Register::Zero));
    }
    if bytes_eq(&l, &vec![0x73, 0x70]) {
        return Ok(LexToken::LexRegister(Register::Sp));
    }
    if bytes_eq(&l, &vec![0x66, 0x70]) {
        return Ok(LexToken::LexRegister(Register::Fp));
    }
    if w.len() >= 2 && w[0] == LOWER_R {
        let mut all_digits = true;
        let mut i: usize = 1;
        while i < w.len()
            invariant
                1 <= i <= w@.len(),
                all_digits == (forall|k: int| 1 <= k < i ==> is_dec_digit(#[trigger] w@[k])),
            decreases w@.len() - i,
        {
            if !is_dec(w[i]) {
                all_digits = false;
            }
            i = i + 1;
        }
        if all_digits {
            return match register_number(&w) {
                Some(n) => Ok(LexToken::LexRegister(Register::R(n))),
                None => Err(SyntaxError::MalformedTokenError),
            };
        }
    }
    proof {
        assert(lower(l@) =~= l@);
    }
    match lookup_keyword(&l) {
        Some(m) => Ok(LexToken::LexMnemonic(m)),
        None => Ok(LexToken::LexLabel(w)),
    }
}

} // verus!
