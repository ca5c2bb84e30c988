use rvim::{Instruction, Rvim, RvimError};

fn round_trip(prog: Vec<Instruction>) {
    let bytes = rvim::encode_program(&prog);
    let back = rvim::decode_program(&bytes).expect("a fresh encoding decodes");
    assert_eq!(back, prog);
}

#[test]
fn round_trip_empty_program() {
    round_trip(Vec::new());
}

#[test]
fn round_trip_every_opcode_and_boundary_operands() {
    round_trip(vec![
        Instruction::Push(i32::MIN),
        Instruction::Push(i32::MAX),
        Instruction::Push(0),
        Instruction::Push(-1),
        Instruction::Pop,
        Instruction::Add,
        Instruction::Sub,
        Instruction::Mul,
        Instruction::Div,
        Instruction::Eq,
        Instruction::Dup(0),
        Instruction::Dup(usize::MAX),
        Instruction::Swap,
        Instruction::Rot,
        Instruction::Jmp(0),
        Instruction::Jif(7),
        Instruction::Jifz(usize::MAX),
        Instruction::Halt,
    ]);
}

#[test]
fn encoding_is_length_prefixed_and_tagged() {
    let bytes = rvim::encode_program(&vec![Instruction::Push(1), Instruction::Halt]);
    // 8 bytes of length, then 1 + 4 bytes for push, then 1 for halt.
    assert_eq!(bytes.len(), 8 + 5 + 1);
    assert_eq!(&bytes[0..8], &[2, 0, 0, 0, 0, 0, 0, 0]);
    assert_eq!(&bytes[8..13], &[0, 1, 0, 0, 0]);
    assert_eq!(bytes[13], 6);
}

#[test]
fn decode_rejects_short_input() {
    assert_eq!(
        rvim::decode_program(&vec![1, 2, 3]),
        Err(RvimError::BadByteCode)
    );
}

#[test]
fn decode_rejects_unknown_tag() {
    let mut bytes = vec![1, 0, 0, 0, 0, 0, 0, 0];
    bytes.push(200);
    assert_eq!(rvim::decode_program(&bytes), Err(RvimError::BadByteCode));
}

#[test]
fn decode_rejects_truncated_operand() {
    let mut bytes = vec![1, 0, 0, 0, 0, 0, 0, 0];
    bytes.extend_from_slice(&[0, 42, 0]);
    assert_eq!(rvim::decode_program(&bytes), Err(RvimError::BadByteCode));
}

#[test]
fn decode_rejects_trailing_bytes() {
    let mut bytes = rvim::encode_program(&vec![Instruction::Halt]);
    bytes.push(0);
    assert_eq!(rvim::decode_program(&bytes), Err(RvimError::BadByteCode));
}

#[test]
fn decode_rejects_wrong_count() {
    let mut bytes = vec![2, 0, 0, 0, 0, 0, 0, 0];
    bytes.push(6);
    assert_eq!(rvim::decode_program(&bytes), Err(RvimError::BadByteCode));
}

#[test]
fn compile_then_decode_then_run() {
    let text: Vec<u8> = b"push 10\npush 3\nsub\nhalt\n".to_vec();
    let bytes = rvim::compile(&text).expect("compiles");
    let prog = rvim::decode_program(&bytes).expect("decodes");
    let mut vm = Rvim::new(prog);
    assert_eq!(vm.run(1000), Ok(true));
    assert_eq!(vm.stack_dump(), vec![7]);
}

#[test]
fn compile_reports_parse_errors() {
    let text: Vec<u8> = b"bogus\n".to_vec();
    assert_eq!(
        rvim::compile(&text),
        Err(rvim::CompileError::BadInstruction(1))
    );
}
