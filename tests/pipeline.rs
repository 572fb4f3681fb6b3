use asm_1st::assembler::{assemble, AsmError};
use asm_1st::encoder::{decode_op_funct, encode, get_op_funct};
use asm_1st::lexer::{LexToken, Lexer, Mnemonic, Register, SyntaxError};
use asm_1st::parser::{Expected, Instruction, Operand, ParseError, Parser};
use asm_1st::resolver::{is_pseudo_instr, neg_pseudo_branch_instr, resolve_without_optimization, Reach, ResolutionError};
use asm_1st::semantics::{check_semantics, SemanticError};

fn words(src: &str) -> Vec<u32> {
    match assemble(src.as_bytes().to_vec()) {
        Ok(w) => w,
        Err(e) => panic!("assembling {:?} failed: {:?}", src, e),
    }
}

fn failure(src: &str) -> AsmError {
    match assemble(src.as_bytes().to_vec()) {
        Ok(w) => panic!("assembling {:?} gave {:?}", src, w),
        Err(e) => e,
    }
}

fn parse(src: &str) -> (Vec<Instruction>, Vec<String>) {
    Parser::new(Lexer::new(src.as_bytes().to_vec())).parse().unwrap()
}

fn resolve(src: &str) -> Vec<Instruction> {
    let (instrs, labels) = parse(src);
    check_semantics(&instrs, &labels).unwrap();
    match resolve_without_optimization(instrs, &labels) {
        Ok(r) => r,
        Err(e) => panic!("resolving {:?} failed: {:?}", src, e),
    }
}

fn adds(n: usize) -> String {
    let mut s = String::new();
    for _ in 0..n {
        s.push_str("add r1, r1, r1\n");
    }
    s
}

#[test]
fn add_three_registers() {
    assert_eq!(words("add r1, r2, r3"), vec![0x01010203]);
}

#[test]
fn addi_immediate() {
    assert_eq!(words("addi r1, r2, 5"), vec![0x21010205]);
}

#[test]
fn self_jump() {
    assert_eq!(words("L: j L"), vec![0xc1000000]);
}

#[test]
fn forward_branch_over_one() {
    let w = words("ibeq r1, r2, L; add r1, r1, r1; L: sub r1, r1, r1");
    assert_eq!(w.len(), 3);
    assert_eq!(w[0], 0x80020102);
    assert_eq!(w[1], 0x01010101);
    assert_eq!(w[2], 0x02010101);
}

#[test]
fn long_branch_expansion() {
    let src = format!("liblt r1, r2, L\n{}L:", adds(1024));
    let w = words(&src);
    assert_eq!(w.len(), 1026);
    // ible r2, r1, +2
    assert_eq!(w[0], 0x98000000 | (2 << 16) | (2 << 8) | 1);
    // j to the end of the program, 1026 words on from the pseudo, one word after it
    assert_eq!(w[1], 0xc1000000 | 1025);
    assert_eq!(decode_op_funct(w[0]), Some(Mnemonic::Ible));
    assert_eq!(decode_op_funct(w[1]), Some(Mnemonic::J));
}

#[test]
fn movl_immediate() {
    assert_eq!(words("movl r3, 0x1234"), vec![0x31031234]);
}

#[test]
fn substitution_to_zero() {
    match failure("add zero, r1, r2") {
        AsmError::Semantic(SemanticError::SubstitutionToZeroError { line, ch }) => {
            assert_eq!((line, ch), (1, 1));
        }
        e => panic!("unexpected {:?}", e),
    }
}

#[test]
fn empty_program() {
    assert_eq!(words(""), Vec::<u32>::new());
    assert_eq!(words("\n\n# only a comment\n"), Vec::<u32>::new());
}

#[test]
fn named_registers() {
    assert_eq!(words("add sp, fp, zero"), vec![0x01fdfeff]);
    assert_eq!(words("ADD Sp, FP, r252"), vec![0x01fdfefc]);
}

#[test]
fn field_layouts() {
    assert_eq!(words("lw r1, r2, 3"), vec![0x61010302]);
    assert_eq!(words("sw r1, r2, 3"), vec![0xe1030102]);
    assert_eq!(words("jr r5"), vec![0xc2000005]);
    assert_eq!(words("usend r5"), vec![0xe0000005]);
    assert_eq!(words("urecv r5"), vec![0x60050000]);
    assert_eq!(words("fabs r1, r2"), vec![0x04010002]);
    assert_eq!(words("movh r4, 0xffff"), vec![0x3204ffff]);
    assert_eq!(words("slli r7, r8, 255"), vec![0x240708ff]);
}

#[test]
fn backward_branch_and_call() {
    let w = words("L: add r1, r1, r1\nibeq r1, r2, L\ncall L\nfbps r3, L");
    assert_eq!(w[1], 0x87ff0102);
    assert_eq!(w[2], 0xc400fffe);
    assert_eq!(w[3], 0xb7fd0003);
}

#[test]
fn literals_in_bases() {
    assert_eq!(words("addi r1, r2, 0b101"), vec![0x21010205]);
    assert_eq!(words("movl r1, 0xfF"), vec![0x310100ff]);
    assert_eq!(words("addi r1, r2, 007"), vec![0x21010207]);
}

#[test]
fn negative_literal_token() {
    let mut lx = Lexer::new(b"-  12, x".to_vec());
    assert_eq!(lx.next(), Ok((LexToken::LexDigit(-12), 1, 1)));
    assert_eq!(lx.next(), Ok((LexToken::LexComma, 1, 6)));
    assert_eq!(lx.next(), Ok((LexToken::LexLabel(b"x".to_vec()), 1, 8)));
    assert_eq!(lx.next(), Ok((LexToken::LexEof, 1, 9)));
    assert_eq!(lx.next(), Ok((LexToken::LexEof, 1, 9)));
}

#[test]
fn tokens_and_positions() {
    let mut lx = Lexer::new(b"L: fble r1,zero # c\n  sp".to_vec());
    let (toks, err) = lx.tokenize();
    assert_eq!(err, None);
    let want = vec![
        (LexToken::LexLabel(b"L".to_vec()), 1, 1),
        (LexToken::LexColon, 1, 2),
        (LexToken::LexMnemonic(Mnemonic::Fble), 1, 4),
        (LexToken::LexRegister(Register::R(1)), 1, 9),
        (LexToken::LexComma, 1, 11),
        (LexToken::LexRegister(Register::Zero), 1, 12),
        (LexToken::LexNewline, 1, 20),
        (LexToken::LexRegister(Register::Sp), 2, 3),
        (LexToken::LexEof, 2, 5),
    ];
    assert_eq!(toks, want);
}

#[test]
fn register_word_forms() {
    let mut lx = Lexer::new(b"r r0 r12x R3 r253".to_vec());
    assert_eq!(lx.next().unwrap().0, LexToken::LexLabel(b"r".to_vec()));
    assert_eq!(lx.next().unwrap().0, LexToken::LexRegister(Register::R(0)));
    assert_eq!(lx.next().unwrap().0, LexToken::LexLabel(b"r12x".to_vec()));
    assert_eq!(lx.next().unwrap().0, LexToken::LexLabel(b"R3".to_vec()));
    assert_eq!(lx.next(), Err((SyntaxError::MalformedTokenError, 1, 14)));
}

#[test]
fn unknown_character() {
    match failure("add r1, r2, @") {
        AsmError::Parse(ParseError::LexicalError { error, line, ch }) => {
            assert_eq!((error, line, ch), (SyntaxError::UnknownCharacterError, 1, 13));
        }
        e => panic!("unexpected {:?}", e),
    }
}

#[test]
fn malformed_number() {
    match failure("addi r1, r2, 0x") {
        AsmError::Parse(ParseError::LexicalError { error, line, ch }) => {
            assert_eq!((error, line, ch), (SyntaxError::MalformedTokenError, 1, 14));
        }
        e => panic!("unexpected {:?}", e),
    }
    match failure("addi r1, r2, 99999999999999999999") {
        AsmError::Parse(ParseError::LexicalError { error, .. }) => {
            assert_eq!(error, SyntaxError::MalformedTokenError);
        }
        e => panic!("unexpected {:?}", e),
    }
}

#[test]
fn malformed_sentences() {
    let cases: Vec<(&str, Expected, usize, usize)> = vec![
        ("L add r1, r2, r3", Expected::Colon, 1, 3),
        ("add r1, r2, r3 r4", Expected::Terminator, 1, 16),
        ("r1, r2", Expected::Mnemonic, 1, 1),
        ("add ,", Expected::Operand, 1, 5),
        ("add r1,", Expected::Operand, 1, 8),
        ("add r1, r2, r3;;", Expected::Mnemonic, 1, 16),
        ("L: add r1, r2, r3\nL: add r1, r2, r3", Expected::NewLabel, 2, 1),
        ("A: B add r1, r2, r3", Expected::Colon, 1, 6),
    ];
    for (src, expected, line, ch) in cases {
        match failure(src) {
            AsmError::Parse(ParseError::MalformedSentenceError { expected: x, line: l, ch: c }) => {
                assert_eq!((x, l, c), (expected, line, ch), "{:?}", src);
            }
            e => panic!("unexpected {:?} for {:?}", e, src),
        }
    }
}

#[test]
fn lexical_error_after_parse_error_is_not_reached() {
    match failure("add r1 r2\n@") {
        AsmError::Parse(ParseError::MalformedSentenceError { expected, .. }) => {
            assert_eq!(expected, Expected::Terminator);
        }
        e => panic!("unexpected {:?}", e),
    }
}

#[test]
fn operand_count_and_kind() {
    match failure("add r1, r2") {
        AsmError::Semantic(SemanticError::InvalidOperandNumError { line, ch, expected }) => {
            assert_eq!((line, ch, expected), (1, 1, 3));
        }
        e => panic!("unexpected {:?}", e),
    }
    match failure("nop: add r1, r2, 5") {
        AsmError::Semantic(SemanticError::InvalidOperandKindError { position, kinds, .. }) => {
            assert_eq!((position, kinds), (2, 1));
        }
        e => panic!("unexpected {:?}", e),
    }
    match failure("L: j 3") {
        AsmError::Semantic(SemanticError::InvalidOperandKindError { position, kinds, .. }) => {
            assert_eq!((position, kinds), (0, 2));
        }
        e => panic!("unexpected {:?}", e),
    }
}

#[test]
fn label_not_found() {
    match failure("add r1, r1, r1\n  j nowhere") {
        AsmError::Semantic(SemanticError::LabelNotFoundError { line, ch, label }) => {
            assert_eq!((line, ch, label.as_str()), (2, 3, "nowhere"));
        }
        e => panic!("unexpected {:?}", e),
    }
}

#[test]
fn immediates_out_of_range() {
    for (src, limit) in [("addi r1, r2, 256", 256), ("lw r1, r2, 300", 256), ("sw r1, r2, 256", 256), ("movl r1, 65536", 65536)] {
        match failure(src) {
            AsmError::Semantic(SemanticError::ImmTooLargeError { limit: l, .. }) => assert_eq!(l, limit),
            e => panic!("unexpected {:?} for {:?}", e, src),
        }
    }
    assert_eq!(words("movl r1, 65535"), vec![0x3101ffff]);
}

#[test]
fn zero_destinations() {
    for src in ["fneg zero, r1", "urecv zero", "lw zero, r1, 0", "movh zero, 1", "L: movl zero, L"] {
        match failure(src) {
            AsmError::Semantic(SemanticError::SubstitutionToZeroError { .. }) => {}
            e => panic!("unexpected {:?} for {:?}", e, src),
        }
    }
    assert_eq!(words("usend zero"), vec![0xe00000ff]);
}

#[test]
fn branch_reach() {
    let near = format!("ibeq r1, r2, L\n{}L: add r1, r1, r1", adds(1022));
    assert_eq!(words(&near)[0], 0x83ff0102);
    let far = format!("ibeq r1, r2, L\n{}L: add r1, r1, r1", adds(1023));
    match failure(&far) {
        AsmError::Resolution(ResolutionError::LabelTooFarError { line, ch, label, reach }) => {
            assert_eq!((line, ch, label.as_str(), reach), (1, 1, "L", Reach::Branch));
        }
        e => panic!("unexpected {:?}", e),
    }
}

#[test]
fn jump_reach() {
    let near = format!("j L\n{}L:", adds(32766));
    assert_eq!(words(&near)[0], 0xc1007fff);
    let far = format!("j L\n{}L:", adds(32767));
    match failure(&far) {
        AsmError::Resolution(ResolutionError::LabelTooFarError { reach, .. }) => assert_eq!(reach, Reach::Jump),
        e => panic!("unexpected {:?}", e),
    }
}

#[test]
fn address_reach() {
    let far = format!("movl r1, L\n{}L:", adds(65535));
    match failure(&far) {
        AsmError::Resolution(ResolutionError::LabelTooFarError { reach, .. }) => assert_eq!(reach, Reach::Absolute),
        e => panic!("unexpected {:?}", e),
    }
    assert_eq!(words("add r1, r1, r1\nmovh r2, L\nL: add r1, r1, r1")[1], 0x32020002);
}

#[test]
fn label_operand_text() {
    let (instrs, labels) = parse("j loop\nloop: add r1, r1, r1");
    assert_eq!(labels, vec!["loop".to_string()]);
    match &instrs[0].operands[0] {
        Operand::OpLabel(s) => assert_eq!(s.as_str(), "loop"),
        o => panic!("unexpected {:?}", o),
    }
    assert_eq!(instrs[1].label, vec!["loop".to_string()]);
    assert_eq!((instrs[1].line, instrs[1].ch), (2, 7));
}

#[test]
fn every_word_carries_its_op_funct() {
    let src = "add r1, r2, r3\nsub r1, r2, r3\naddi r1, r2, 1\nsubi r1, r2, 1\nslli r1, r2, 1\n\
               fabs r1, r2\nfneg r1, r2\nfadd r1, r2, r3\nfsub r1, r2, r3\nfmul r1, r2, r3\n\
               fdiv r1, r2, r3\nftoi r1, r2\nitof r1, r2\nfsqrt r1, r2\nL: ibeq r1, r2, L\n\
               ibne r1, r2, L\niblt r1, r2, L\nible r1, r2, L\nfblt r1, r2, L\nfble r1, r2, L\n\
               fbps r1, L\nfbng r1, L\nj L\njr r1\ncall L\nmovl r1, L\nmovh r1, 7\nurecv r1\n\
               usend r1\nlw r1, r2, 1\nsw r1, r2, 1";
    let resolved = resolve(src);
    let w = words(src);
    assert_eq!(w.len(), resolved.len());
    assert_eq!(w.len(), 31);
    for (word, ins) in w.iter().zip(resolved.iter()) {
        assert_eq!(decode_op_funct(*word), Some(ins.mnemonic), "{:08x}", word);
    }
}

#[test]
fn decode_rejects_unknown_bits() {
    assert_eq!(decode_op_funct(0xff000000), None);
    assert_eq!(decode_op_funct(0x00000000), None);
    assert_eq!(decode_op_funct(0x87ffffff), Some(Mnemonic::Ibeq));
}

#[test]
fn every_long_branch_expands_to_two_words() {
    let pseudos = [
        ("libeq r1, r2", Mnemonic::Libeq, Mnemonic::Ibne),
        ("libne r1, r2", Mnemonic::Libne, Mnemonic::Ibeq),
        ("liblt r1, r2", Mnemonic::Liblt, Mnemonic::Ible),
        ("lible r1, r2", Mnemonic::Lible, Mnemonic::Iblt),
        ("lfblt r1, r2", Mnemonic::Lfblt, Mnemonic::Fble),
        ("lfble r1, r2", Mnemonic::Lfble, Mnemonic::Fblt),
        ("lfbps r1", Mnemonic::Lfbps, Mnemonic::Fbng),
        ("lfbng r1", Mnemonic::Lfbng, Mnemonic::Fbps),
    ];
    for (head, m, neg) in pseudos {
        assert!(is_pseudo_instr(m));
        assert_eq!(neg_pseudo_branch_instr(m), neg);
        let w = words(&format!("add r1, r1, r1\n{}, L\nadd r1, r1, r1\nL: add r1, r1, r1", head));
        assert_eq!(w.len(), 5);
        assert_eq!(decode_op_funct(w[1]), Some(neg));
        assert_eq!(w[1] & 0x07ff0000, 2 << 16);
        // the label is at word 4; the jump is at word 2
        assert_eq!(w[2], 0xc1000002);
    }
    assert!(!is_pseudo_instr(Mnemonic::Ibeq));
}

#[test]
fn swapped_registers_in_expansion() {
    let r = resolve("lfblt r1, r2, L\nL: add r1, r1, r1");
    assert_eq!(r.len(), 3);
    assert_eq!(r[0].mnemonic, Mnemonic::Fble);
    assert_eq!(format!("{:?}", r[0].operands), format!("{:?}", vec![Operand::OpRegister(Register::R(2)), Operand::OpRegister(Register::R(1)), Operand::OpDigit(2)]));
    assert_eq!(r[1].mnemonic, Mnemonic::J);
    assert_eq!(format!("{:?}", r[1].operands), format!("{:?}", vec![Operand::OpDigit(1)]));
    let r = resolve("lfbng r3, L\nL: add r1, r1, r1");
    assert_eq!(r[0].mnemonic, Mnemonic::Fbps);
    assert_eq!(format!("{:?}", r[0].operands), format!("{:?}", vec![Operand::OpRegister(Register::R(3)), Operand::OpDigit(2)]));
}

#[test]
fn addresses_count_earlier_long_branches() {
    // A is instruction 1, after one long branch: address 2; B is instruction 3: address 5.
    let r = resolve("liblt r1, r2, A\nA: libeq r1, r2, B\nmovl r1, A\nB: movl r2, B");
    assert_eq!(r.len(), 6);
    assert_eq!(format!("{:?}", r[4].operands), format!("{:?}", vec![Operand::OpRegister(Register::R(1)), Operand::OpDigit(2)]));
    assert_eq!(format!("{:?}", r[5].operands), format!("{:?}", vec![Operand::OpRegister(Register::R(2)), Operand::OpDigit(5)]));
    // each jump of an expansion is one word past its branch: offset to the label less one
    assert_eq!(format!("{:?}", r[1].operands), format!("{:?}", vec![Operand::OpDigit(1)]));
    assert_eq!(format!("{:?}", r[3].operands), format!("{:?}", vec![Operand::OpDigit(2)]));
}

#[test]
fn resolving_twice_changes_nothing() {
    let once = resolve("liblt r1, r2, L\nL: j L\nmovl r1, L\nibeq r1, r2, L");
    let labels: Vec<String> = Vec::new();
    let twice = match resolve_without_optimization(once.clone(), &labels) {
        Ok(r) => r,
        Err(e) => panic!("{:?}", e),
    };
    assert_eq!(format!("{:?}", once), format!("{:?}", twice));
}

#[test]
fn same_source_same_words() {
    let src = format!("liblt r1, r2, L\n{}L: movl r1, L", adds(10));
    assert_eq!(words(&src), words(&src));
    assert_eq!(format!("{:?}", failure("j x")), format!("{:?}", failure("j x")));
}

#[test]
fn encode_resolved_list() {
    let instrs = vec![
        Instruction { label: vec![], mnemonic: Mnemonic::Sub, operands: vec![Operand::OpRegister(Register::R(4)), Operand::OpRegister(Register::Sp), Operand::OpRegister(Register::R(9))], line: 1, ch: 1 },
        Instruction { label: vec![], mnemonic: Mnemonic::J, operands: vec![Operand::OpDigit(-2)], line: 2, ch: 1 },
    ];
    assert_eq!(encode(instrs), vec![0x0204fd09, 0xc100fffe]);
}

#[test]
fn label_at_end_of_input() {
    assert_eq!(words("j E\nE:\n\n"), vec![0xc1000001]);
    let (instrs, labels) = parse("add r1, r1, r1\nE:");
    assert_eq!(instrs.len(), 1);
    assert_eq!(labels, vec!["E".to_string()]);
}

#[test]
fn separators_and_blank_lines() {
    let w = words("\n  add r1, r2, r3 ; sub r1, r2, r3;\n\nL:\n\n  j L # back\n");
    assert_eq!(w, vec![0x01010203, 0x02010203, 0xc1000000]);
}

#[test]
fn labels_in_a_row_share_an_address() {
    assert_eq!(words("j A\nj B\nA:\nB: add r1, r1, r1"), vec![0xc1000002, 0xc1000001, 0x01010101]);
    let (instrs, labels) = parse("A:\n\nB: C: add r1, r1, r1");
    assert_eq!(labels, vec!["A".to_string(), "B".to_string(), "C".to_string()]);
    assert_eq!(instrs[0].label, labels);
    match failure("A: add r1, r1, r1\nB: A: add r1, r1, r1") {
        AsmError::Parse(ParseError::MalformedSentenceError { expected, line, ch }) => {
            assert_eq!((expected, line, ch), (Expected::NewLabel, 2, 4));
        }
        e => panic!("unexpected {:?}", e),
    }
}

#[test]
fn movl_to_zero_register() {
    match failure("movl zero, 5") {
        AsmError::Semantic(SemanticError::SubstitutionToZeroError { line, ch }) => assert_eq!((line, ch), (1, 1)),
        e => panic!("unexpected {:?}", e),
    }
}

#[test]
fn label_out_of_place_is_not_resolved() {
    let instrs = vec![Instruction {
        label: vec![],
        mnemonic: Mnemonic::Add,
        operands: vec![Operand::OpRegister(Register::R(1)), Operand::OpRegister(Register::R(2)), Operand::OpLabel("L".to_string())],
        line: 3,
        ch: 2,
    }];
    let labels: Vec<String> = Vec::new();
    match resolve_without_optimization(instrs, &labels) {
        Err(ResolutionError::MisplacedLabelError { line, ch, label, position }) => {
            assert_eq!((line, ch, label.as_str(), position), (3, 2, "L", 2));
        }
        r => panic!("unexpected {:?}", r),
    }
    let jumps = vec![Instruction {
        label: vec!["L".to_string()],
        mnemonic: Mnemonic::Ibeq,
        operands: vec![Operand::OpLabel("L".to_string()), Operand::OpRegister(Register::R(2)), Operand::OpLabel("L".to_string())],
        line: 1,
        ch: 1,
    }];
    match resolve_without_optimization(jumps, &labels) {
        Err(ResolutionError::MisplacedLabelError { position, .. }) => assert_eq!(position, 0),
        r => panic!("unexpected {:?}", r),
    }
}

#[test]
fn op_funct_table_is_one_to_one() {
    let real = [
        Mnemonic::Add, Mnemonic::Sub, Mnemonic::Addi, Mnemonic::Subi, Mnemonic::Slli, Mnemonic::Fabs,
        Mnemonic::Fneg, Mnemonic::Fadd, Mnemonic::Fsub, Mnemonic::Fmul, Mnemonic::Fdiv, Mnemonic::Fsqrt,
        Mnemonic::Itof, Mnemonic::Ftoi, Mnemonic::Ibeq, Mnemonic::Ibne, Mnemonic::Ible, Mnemonic::Iblt,
        Mnemonic::Fblt, Mnemonic::Fble, Mnemonic::Fbps, Mnemonic::Fbng, Mnemonic::J, Mnemonic::Jr,
        Mnemonic::Call, Mnemonic::Movl, Mnemonic::Movh, Mnemonic::Urecv, Mnemonic::Usend, Mnemonic::Lw,
        Mnemonic::Sw,
    ];
    for (i, a) in real.iter().enumerate() {
        assert_eq!(decode_op_funct(get_op_funct(*a)), Some(*a));
        for b in real.iter().skip(i + 1) {
            assert_ne!(get_op_funct(*a), get_op_funct(*b));
        }
    }
    assert_eq!(get_op_funct(Mnemonic::Add), 0x01000000);
    assert_eq!(get_op_funct(Mnemonic::Sw), 0xe1000000);
}
