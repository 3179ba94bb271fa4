use cor24::{
    assemble, parse_imm, parse_imm24, parse_mem_operand, parse_reg, try_assemble, AsmError, Cpu,
    IntErrorKind, Labels,
};

fn chars(s: &str) -> Vec<char> {
    s.chars().collect()
}

fn err_text(s: &str) -> String {
    s.to_string()
}

#[test]
fn la_encodes_opcode_then_little_endian_address() {
    assert_eq!(assemble("la r0,0xFF0100"), Ok(vec![0x29, 0x00, 0x01, 0xFF]));
    assert_eq!(assemble("la r1,0xFF0000"), Ok(vec![0x2A, 0x00, 0x00, 0xFF]));
    assert_eq!(assemble("la r2,65536"), Ok(vec![0x2B, 0x00, 0x00, 0x01]));
}

#[test]
fn only_the_second_word_holds_operands() {
    // "r1," then "0xFF0000": the operand after the comma is empty.
    assert_eq!(
        assemble("la r1, 0xFF0000"),
        Err(AsmError::BadNumber(IntErrorKind::Empty))
    );
}

#[test]
fn lc_and_lcu_take_the_low_byte() {
    assert_eq!(assemble("lc r0,-1"), Ok(vec![0x44, 0xFF]));
    assert_eq!(assemble("lc r3,300"), Ok(vec![0x47, 0x2C]));
    assert_eq!(assemble("lcu r2,0xFF"), Ok(vec![0x4A, 0xFF]));
    assert_eq!(assemble("lc r0,0x-10"), Ok(vec![0x44, 0xF0]));
}

#[test]
fn halt_is_a_jump_to_zero() {
    assert_eq!(assemble("halt"), Ok(vec![0xC7, 0, 0, 0]));
    assert_eq!(assemble("HALT"), Ok(vec![0xC7, 0, 0, 0]));
}

#[test]
fn register_operand_encodings() {
    assert_eq!(assemble("shl r0,r1"), Ok(vec![0x89]));
    assert_eq!(assemble("shl r2,r0"), Ok(vec![0x8E]));
    assert_eq!(assemble("clu z,r1"), Ok(vec![0xCF]));
    assert_eq!(assemble("clu r0,r2"), Ok(vec![0x20]));
    assert_eq!(assemble("sb r0,0(r1)"), Ok(vec![0x82, 0x00]));
    assert_eq!(assemble("sb r1,(r2)"), Ok(vec![0x86, 0x00]));
    assert_eq!(assemble("sb r0,-3(r1)"), Ok(vec![0x82, 0xFD]));
    assert_eq!(assemble("sb r2,(r0)"), Ok(vec![0x87, 0x00]));
    assert_eq!(assemble("sb r0,4(sp))"), Ok(vec![0x85, 0x04]));
}

#[test]
fn backward_branch_offset() {
    let code = assemble("loop:\n  lc r0,1\n  bra loop\n").unwrap();
    assert_eq!(code, vec![0x44, 0x01, 0x13, 0xFC]);
    // The processor lands on the label.
    let mut cpu = Cpu::new();
    cpu.load_program(&code);
    cpu.step();
    cpu.step();
    assert_eq!(cpu.pc, 0);
}

#[test]
fn forward_branch_offset() {
    let code = assemble("brt end\nlc r0,1\nend:\nhalt").unwrap();
    assert_eq!(code, vec![0x15, 0x02, 0x44, 0x01, 0xC7, 0, 0, 0]);
    let mut cpu = Cpu::new();
    cpu.load_program(&code);
    cpu.c = true;
    cpu.step();
    assert_eq!(cpu.pc, 4);
}

#[test]
fn labels_name_the_position_of_the_following_code() {
    let code = assemble("lc r0,1\nla r1,0\nmid:\nshl r0,r1\nbrf mid").unwrap();
    // mid is at 6; brf's offset byte is at 8: 6 - 8 - 1 = -3.
    assert_eq!(code, vec![0x44, 0x01, 0x2A, 0, 0, 0, 0x89, 0x14, 0xFD]);
}

#[test]
fn later_label_definition_wins() {
    let code = assemble("x:\nhalt\nx:\nbra x").unwrap();
    assert_eq!(code, vec![0xC7, 0, 0, 0, 0x13, 0xFE]);
}

#[test]
fn comments_blank_lines_and_crlf() {
    let src = "; a comment\r\n\r\n   halt ; stop\r\n  lc r1,2;x\r\n";
    assert_eq!(assemble(src), Ok(vec![0xC7, 0, 0, 0, 0x45, 0x02]));
    assert_eq!(assemble(""), Ok(vec![]));
}

#[test]
fn label_with_inner_spaces() {
    assert_eq!(assemble("my label :\nbra my label"), Err(AsmError::UndefinedLabel(err_text("my"))));
    assert_eq!(assemble("a b :\nbra a"), Err(AsmError::UndefinedLabel(err_text("a"))));
}

#[test]
fn unknown_instruction_is_reported_in_lower_case() {
    assert_eq!(
        assemble("nop"),
        Err(AsmError::UnknownInstruction(err_text("nop")))
    );
    assert_eq!(
        assemble("lc r0,1\nADD r0,1"),
        Err(AsmError::UnknownInstruction(err_text("add")))
    );
    assert_eq!(
        assemble("ÅDD"),
        Err(AsmError::UnknownInstruction(err_text("ådd")))
    );
}

#[test]
fn invalid_register() {
    assert_eq!(
        assemble("lc r9,1"),
        Err(AsmError::InvalidRegister(err_text("r9")))
    );
    assert_eq!(
        assemble("shl r0,x"),
        Err(AsmError::InvalidRegister(err_text("x")))
    );
}

#[test]
fn invalid_memory_operand() {
    assert_eq!(
        assemble("sb r0,5"),
        Err(AsmError::InvalidMemOperand(err_text("5")))
    );
    assert_eq!(
        assemble("sb r0,1(r9)"),
        Err(AsmError::InvalidRegister(err_text("r9")))
    );
}

#[test]
fn bad_numbers() {
    assert_eq!(
        assemble("lc r0,x"),
        Err(AsmError::BadNumber(IntErrorKind::InvalidDigit))
    );
    assert_eq!(
        assemble("lc r0,99999999999"),
        Err(AsmError::BadNumber(IntErrorKind::PosOverflow))
    );
    assert_eq!(
        assemble("lc r0,-99999999999"),
        Err(AsmError::BadNumber(IntErrorKind::NegOverflow))
    );
    assert_eq!(
        assemble("la r0,-1"),
        Err(AsmError::BadNumber(IntErrorKind::InvalidDigit))
    );
    assert_eq!(
        assemble("lc r0,0x"),
        Err(AsmError::BadNumber(IntErrorKind::Empty))
    );
    assert_eq!(
        assemble("lc r0,-"),
        Err(AsmError::BadNumber(IntErrorKind::InvalidDigit))
    );
}

#[test]
fn undefined_label() {
    assert_eq!(
        assemble("bra nowhere\nbrt elsewhere"),
        Err(AsmError::UndefinedLabel(err_text("nowhere")))
    );
}

#[test]
fn second_pass_errors_come_before_undefined_labels() {
    assert_eq!(
        assemble("bra nowhere\nnop"),
        Err(AsmError::UnknownInstruction(err_text("nop")))
    );
}

#[test]
fn missing_operands_are_not_assembled() {
    assert_eq!(try_assemble("lc"), None);
    assert_eq!(try_assemble("lc r0"), None);
    assert_eq!(try_assemble("bra"), None);
    assert_eq!(try_assemble("halt\nsb r1"), None);
    // A fault in the first operand is reported before the missing second.
    assert_eq!(
        try_assemble("lc r9"),
        Some(Err(AsmError::InvalidRegister(err_text("r9"))))
    );
    // An earlier error is reported before a later missing operand.
    assert_eq!(
        try_assemble("nop\nlc"),
        Some(Err(AsmError::UnknownInstruction(err_text("nop"))))
    );
    assert_eq!(try_assemble("halt"), Some(Ok(vec![0xC7, 0, 0, 0])));
}

#[test]
fn parse_reg_names_and_aliases() {
    assert_eq!(parse_reg(&chars("r0")), Ok(0));
    assert_eq!(parse_reg(&chars("R2")), Ok(2));
    assert_eq!(parse_reg(&chars("fp")), Ok(3));
    assert_eq!(parse_reg(&chars("SP")), Ok(4));
    assert_eq!(parse_reg(&chars("z")), Ok(5));
    assert_eq!(parse_reg(&chars("iv")), Ok(6));
    assert_eq!(parse_reg(&chars("ir")), Ok(7));
    assert_eq!(
        parse_reg(&chars(" r1")),
        Err(AsmError::InvalidRegister(err_text(" r1")))
    );
}

#[test]
fn parse_imm_forms() {
    assert_eq!(parse_imm(&chars(" 42 ")), Ok(42));
    assert_eq!(parse_imm(&chars("+7")), Ok(7));
    assert_eq!(parse_imm(&chars("-2147483648")), Ok(i32::MIN));
    assert_eq!(parse_imm(&chars("2147483647")), Ok(i32::MAX));
    assert_eq!(
        parse_imm(&chars("2147483648")),
        Err(AsmError::BadNumber(IntErrorKind::PosOverflow))
    );
    assert_eq!(parse_imm(&chars("0X7fffFFFF")), Ok(i32::MAX));
    assert_eq!(
        parse_imm(&chars("0x80000000")),
        Err(AsmError::BadNumber(IntErrorKind::PosOverflow))
    );
    assert_eq!(
        parse_imm(&chars("")),
        Err(AsmError::BadNumber(IntErrorKind::Empty))
    );
    assert_eq!(
        parse_imm(&chars("12a")),
        Err(AsmError::BadNumber(IntErrorKind::InvalidDigit))
    );
    // The first fault from the left decides.
    assert_eq!(
        parse_imm(&chars("99999999999z")),
        Err(AsmError::BadNumber(IntErrorKind::PosOverflow))
    );
}

#[test]
fn parse_imm24_is_unsigned() {
    let labels = Labels::new();
    assert_eq!(parse_imm24(&chars("0xFFFFFFFF"), &labels), Ok(u32::MAX));
    assert_eq!(parse_imm24(&chars("+5"), &labels), Ok(5));
    assert_eq!(
        parse_imm24(&chars("-5"), &labels),
        Err(AsmError::BadNumber(IntErrorKind::InvalidDigit))
    );
    assert_eq!(
        parse_imm24(&chars("4294967296"), &labels),
        Err(AsmError::BadNumber(IntErrorKind::PosOverflow))
    );
}

#[test]
fn parse_mem_operand_forms() {
    assert_eq!(parse_mem_operand(&chars("(r1)")), Ok((0, 1)));
    assert_eq!(parse_mem_operand(&chars("-3(fp)")), Ok((-3, 3)));
    assert_eq!(parse_mem_operand(&chars("8(r2")), Ok((8, 2)));
    assert_eq!(
        parse_mem_operand(&chars("r1")),
        Err(AsmError::InvalidMemOperand(err_text("r1")))
    );
    assert_eq!(
        parse_mem_operand(&chars("x(r1)")),
        Err(AsmError::BadNumber(IntErrorKind::InvalidDigit))
    );
}

#[test]
fn label_table_replaces_earlier_definitions() {
    let mut labels = Labels::new();
    assert_eq!(labels.get(&chars("a")), None);
    labels.insert(chars("a"), 1);
    labels.insert(chars("b"), 2);
    labels.insert(chars("a"), 3);
    assert_eq!(labels.get(&chars("a")), Some(3));
    assert_eq!(labels.get(&chars("b")), Some(2));
    assert_eq!(labels.get(&chars("c")), None);
}

#[test]
fn comments_blank_lines_and_blanks_change_nothing() {
    let plain = assemble("lc r0,1\nla r1,0x10\nbra top\ntop:\nhalt");
    let noisy = assemble(
        "; header\n\n   lc r0,1   ; one\n\t la r1,0x10\n  ;\nbra top;x\n  top:  \n\n halt ; end",
    );
    assert_eq!(plain, noisy);
}

#[test]
fn sources_without_labels_concatenate() {
    let a = "lc r0,1\nshl r0,r1";
    let b = "la r1,5\nhalt";
    let x = assemble(a).unwrap();
    let y = assemble(b).unwrap();
    let joined = assemble(&format!("{}\n{}", a, b)).unwrap();
    let mut expected = x.clone();
    expected.extend(y);
    assert_eq!(joined, expected);
}
