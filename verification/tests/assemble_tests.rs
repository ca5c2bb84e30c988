use rvim::{CompileError, Instruction, Rvim};

fn assemble_str(src: &str) -> Result<Vec<Instruction>, CompileError> {
    let text: Vec<u8> = src.as_bytes().to_vec();
    rvim::assemble(&text)
}

#[test]
fn forward_label_resolves() {
    let prog = assemble_str("jmp target\npush 99\ntarget:\npush 1\nhalt\n").unwrap();
    assert_eq!(
        prog,
        vec![
            Instruction::Jmp(2),
            Instruction::Push(99),
            Instruction::Push(1),
            Instruction::Halt,
        ]
    );
    let mut vm = Rvim::new(prog);
    assert_eq!(vm.run(1000), Ok(true));
    assert_eq!(vm.stack_dump(), vec![1]);
}

#[test]
fn backward_label_resolves() {
    let prog = assemble_str("push 0\nloop:\npush 1\nadd\njifz loop\nhalt\n").unwrap();
    assert_eq!(
        prog,
        vec![
            Instruction::Push(0),
            Instruction::Push(1),
            Instruction::Add,
            Instruction::Jifz(1),
            Instruction::Halt,
        ]
    );
}

#[test]
fn label_declarations_consume_no_address() {
    let prog = assemble_str("a:\nb:\npush 1\nc:\njmp c\n").unwrap();
    assert_eq!(prog, vec![Instruction::Push(1), Instruction::Jmp(1)]);
}

#[test]
fn blank_lines_and_padding_are_ignored() {
    let prog = assemble_str("\n   \n\t push \t 3 \n\n  halt\n\n").unwrap();
    assert_eq!(prog, vec![Instruction::Push(3), Instruction::Halt]);
}

#[test]
fn every_opcode_assembles() {
    let src = "push -5\npop\nadd\nsub\nmul\ndiv\neq\ndup 2\nswap\nrot\njmp 0\njif 1\njifz 2\nhalt\n";
    let prog = assemble_str(src).unwrap();
    assert_eq!(
        prog,
        vec![
            Instruction::Push(-5),
            Instruction::Pop,
            Instruction::Add,
            Instruction::Sub,
            Instruction::Mul,
            Instruction::Div,
            Instruction::Eq,
            Instruction::Dup(2),
            Instruction::Swap,
            Instruction::Rot,
            Instruction::Jmp(0),
            Instruction::Jif(1),
            Instruction::Jifz(2),
            Instruction::Halt,
        ]
    );
}

#[test]
fn unknown_forward_label_is_bad_operand_with_line() {
    assert_eq!(
        assemble_str("jmp nowhere\nhalt\n"),
        Err(CompileError::BadOperand(1))
    );
}

#[test]
fn unknown_backward_label_is_bad_operand_with_line() {
    assert_eq!(
        assemble_str("push 1\nhalt\njmp nowhere\n"),
        Err(CompileError::BadOperand(3))
    );
}

#[test]
fn malformed_push_operand_is_bad_operand() {
    assert_eq!(
        assemble_str("push 1\npush 1x2\nhalt\n"),
        Err(CompileError::BadOperand(2))
    );
}

#[test]
fn missing_operand_is_bad_operand() {
    assert_eq!(assemble_str("push\n"), Err(CompileError::BadOperand(1)));
}

#[test]
fn extra_operand_is_bad_operand() {
    assert_eq!(assemble_str("add 5\n"), Err(CompileError::BadOperand(1)));
}

#[test]
fn unrecognized_opcode_is_bad_instruction_with_line() {
    assert_eq!(
        assemble_str("push 1\nnop\nhalt\n"),
        Err(CompileError::BadInstruction(2))
    );
}

#[test]
fn first_error_wins() {
    assert_eq!(
        assemble_str("nop\npush x\n"),
        Err(CompileError::BadInstruction(1))
    );
}

#[test]
fn push_accepts_extreme_words() {
    let prog = assemble_str("push -2147483648\npush 2147483647\nhalt\n").unwrap();
    assert_eq!(
        prog,
        vec![
            Instruction::Push(i32::MIN),
            Instruction::Push(i32::MAX),
            Instruction::Halt,
        ]
    );
}

#[test]
fn push_rejects_out_of_range_words() {
    assert_eq!(
        assemble_str("push 2147483648\n"),
        Err(CompileError::BadOperand(1))
    );
    assert_eq!(
        assemble_str("push -2147483649\n"),
        Err(CompileError::BadOperand(1))
    );
}

#[test]
fn push_accepts_plus_sign_and_leading_zeros() {
    let prog = assemble_str("push +0042\nhalt\n").unwrap();
    assert_eq!(prog, vec![Instruction::Push(42), Instruction::Halt]);
}

#[test]
fn dup_rejects_negative_index() {
    assert_eq!(assemble_str("dup -3\n"), Err(CompileError::BadOperand(1)));
}

#[test]
fn later_duplicate_label_wins() {
    let prog = assemble_str("x:\npush 1\nx:\njmp x\n").unwrap();
    assert_eq!(prog, vec![Instruction::Push(1), Instruction::Jmp(1)]);
}

#[test]
fn literal_address_starting_with_digit_is_not_a_label() {
    // "0" parses as a literal index even though no label is declared.
    let prog = assemble_str("jmp 0\n").unwrap();
    assert_eq!(prog, vec![Instruction::Jmp(0)]);
}

#[test]
fn out_of_range_literal_target_is_bad_operand() {
    assert_eq!(
        assemble_str("jmp 99\nhalt\n"),
        Err(CompileError::BadOperand(1))
    );
}

#[test]
fn literal_target_one_past_the_end_is_bad_operand() {
    // Two instructions, so 2 is the first invalid literal target.
    assert_eq!(
        assemble_str("push 1\njifz 2\n"),
        Err(CompileError::BadOperand(2))
    );
}

#[test]
fn literal_target_of_the_last_instruction_is_accepted() {
    let prog = assemble_str("jmp 1\nhalt\n").unwrap();
    assert_eq!(prog, vec![Instruction::Jmp(1), Instruction::Halt]);
}

#[test]
fn dup_rejects_minus_zero() {
    assert_eq!(assemble_str("dup -0\n"), Err(CompileError::BadOperand(1)));
}

#[test]
fn label_line_with_trailing_text_is_rejected() {
    assert_eq!(
        assemble_str("target: push 1\n"),
        Err(CompileError::BadInstruction(1))
    );
}
