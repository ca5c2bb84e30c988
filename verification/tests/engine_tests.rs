use rvim::{Instruction, Rvim, RvimError};

const FUEL: u64 = 1_000_000;

fn run_source(src: &str) -> (Result<bool, RvimError>, Vec<i32>) {
    let text: Vec<u8> = src.as_bytes().to_vec();
    let prog = rvim::assemble(&text).expect("assembly should succeed");
    let mut vm = Rvim::new(prog);
    let r = vm.run(FUEL);
    (r, vm.stack_dump())
}

#[test]
fn arithmetic_order_sub_is_second_minus_top() {
    let (r, stack) = run_source("push 10\npush 3\nsub\nhalt\n");
    assert_eq!(r, Ok(true));
    assert_eq!(stack, vec![7]);
}

#[test]
fn division_by_zero_fails_and_pushes_no_result() {
    let (r, stack) = run_source("push 5\npush 0\ndiv\nhalt\n");
    assert_eq!(r, Err(RvimError::DivByZero));
    assert_eq!(stack, vec![5]);
}

#[test]
fn stack_underflow_on_empty_stack_add() {
    let (r, stack) = run_source("add\nhalt\n");
    assert_eq!(r, Err(RvimError::StackUnderflow));
    assert_eq!(stack, Vec::<i32>::new());
}

#[test]
fn stack_overflow_exactly_on_push_1025() {
    let mut src = String::new();
    for _ in 0..1025 {
        src.push_str("push 1\n");
    }
    src.push_str("halt\n");
    let text: Vec<u8> = src.as_bytes().to_vec();
    let prog = rvim::assemble(&text).expect("assembly should succeed");
    let mut vm = Rvim::new(prog);
    let r = vm.run(FUEL);
    assert_eq!(r, Err(RvimError::StackOverflow));
    let stack = vm.stack_dump();
    assert_eq!(stack.len(), 1024);
    assert!(stack.iter().all(|&w| w == 1));
}

#[test]
fn conditional_jump_jifz_taken_on_zero() {
    let (r, stack) = run_source("push 0\njifz skip\npush 99\nskip:\npush 1\nhalt\n");
    assert_eq!(r, Ok(true));
    assert_eq!(stack, vec![1]);
}

#[test]
fn conditional_jump_jif_taken_on_nonzero() {
    let (r, stack) = run_source("push 1\njif skip\npush 99\nskip:\npush 5\nhalt\n");
    assert_eq!(r, Ok(true));
    assert_eq!(stack, vec![5]);
}

#[test]
fn conditional_jump_falls_through() {
    let (r, stack) = run_source("push 0\njif skip\npush 99\nskip:\npush 5\nhalt\n");
    assert_eq!(r, Ok(true));
    assert_eq!(stack, vec![99, 5]);
}

#[test]
fn eq_pushes_one_on_equal() {
    let (r, stack) = run_source("push 2\npush 2\neq\nhalt\n");
    assert_eq!(r, Ok(true));
    assert_eq!(stack, vec![1]);
}

#[test]
fn eq_pushes_zero_on_unequal() {
    let (r, stack) = run_source("push 2\npush 3\neq\nhalt\n");
    assert_eq!(r, Ok(true));
    assert_eq!(stack, vec![0]);
}

#[test]
fn swap_exchanges_top_two() {
    let (r, stack) = run_source("push 1\npush 2\nswap\nhalt\n");
    assert_eq!(r, Ok(true));
    assert_eq!(stack, vec![2, 1]);
}

#[test]
fn rot_moves_top_down_two_places() {
    let (r, stack) = run_source("push 1\npush 2\npush 3\nrot\nhalt\n");
    assert_eq!(r, Ok(true));
    assert_eq!(stack, vec![3, 1, 2]);
}

#[test]
fn dup_zero_duplicates_top() {
    let (r, stack) = run_source("push 7\ndup 0\nhalt\n");
    assert_eq!(r, Ok(true));
    assert_eq!(stack, vec![7, 7]);
}

#[test]
fn dup_reaches_below_top() {
    let (r, stack) = run_source("push 7\npush 8\ndup 1\nhalt\n");
    assert_eq!(r, Ok(true));
    assert_eq!(stack, vec![7, 8, 7]);
}

#[test]
fn dup_underflows_when_index_too_deep() {
    let (r, stack) = run_source("push 7\ndup 1\nhalt\n");
    assert_eq!(r, Err(RvimError::StackUnderflow));
    assert_eq!(stack, vec![7]);
}

#[test]
fn pop_removes_top() {
    let (r, stack) = run_source("push 1\npush 2\npop\nhalt\n");
    assert_eq!(r, Ok(true));
    assert_eq!(stack, vec![1]);
}

#[test]
fn mul_and_add_compose() {
    let (r, stack) = run_source("push 3\npush 4\nmul\npush 5\nadd\nhalt\n");
    assert_eq!(r, Ok(true));
    assert_eq!(stack, vec![17]);
}

#[test]
fn add_wraps_on_overflow() {
    let (r, stack) = run_source("push 2147483647\npush 1\nadd\nhalt\n");
    assert_eq!(r, Ok(true));
    assert_eq!(stack, vec![i32::MIN]);
}

#[test]
fn div_truncates_toward_zero() {
    let (r, stack) = run_source("push -7\npush 2\ndiv\nhalt\n");
    assert_eq!(r, Ok(true));
    assert_eq!(stack, vec![-3]);
}

#[test]
fn div_min_by_minus_one_wraps() {
    let (r, stack) = run_source("push -2147483648\npush -1\ndiv\nhalt\n");
    assert_eq!(r, Ok(true));
    assert_eq!(stack, vec![i32::MIN]);
}

#[test]
fn out_of_range_jump_in_a_crafted_binary_is_invalid_operand() {
    // The assembler refuses such a literal, but a hand-crafted program can
    // still carry one; the engine re-validates before jumping.
    let mut vm = Rvim::new(vec![Instruction::Jmp(5), Instruction::Halt]);
    assert_eq!(vm.run(1000), Err(RvimError::InvalidOperand));
    assert_eq!(vm.stack_dump(), Vec::<i32>::new());
}

#[test]
fn label_just_past_the_end_is_invalid_at_run_time() {
    let (r, _) = run_source("jmp end\nend:\n");
    assert_eq!(r, Err(RvimError::InvalidOperand));
}

#[test]
fn empty_program_finishes_at_once() {
    let text: Vec<u8> = Vec::new();
    let prog = rvim::assemble(&text).expect("empty text assembles");
    assert_eq!(prog, Vec::<Instruction>::new());
    let mut vm = Rvim::new(prog);
    assert_eq!(vm.run(FUEL), Ok(true));
    assert_eq!(vm.stack_dump(), Vec::<i32>::new());
}

#[test]
fn running_off_the_end_without_halt_finishes() {
    let (r, stack) = run_source("push 4\n");
    assert_eq!(r, Ok(true));
    assert_eq!(stack, vec![4]);
}

#[test]
fn fuel_runs_out_on_endless_loop_and_run_resumes() {
    let text: Vec<u8> = b"start:\npush 0\npop\njmp start\n".to_vec();
    let prog = rvim::assemble(&text).expect("assembly should succeed");
    let mut vm = Rvim::new(prog);
    assert_eq!(vm.run(100), Ok(false));
    assert_eq!(vm.run(101), Ok(false));
}

#[test]
fn halt_stops_before_later_instructions() {
    let (r, stack) = run_source("push 1\nhalt\npush 2\n");
    assert_eq!(r, Ok(true));
    assert_eq!(stack, vec![1]);
}

#[test]
fn simulated_stack_effects_match_a_longer_run() {
    // push 6, push 7, mul = 42; dup it; eq = 1; swap under a fresh 9; rot.
    let src = "push 6\npush 7\nmul\ndup 0\neq\npush 9\nswap\npush 2\nrot\nhalt\n";
    let (r, stack) = run_source(src);
    assert_eq!(r, Ok(true));
    // After mul/dup/eq: [1]; push 9: [1, 9]; swap: [9, 1]; push 2: [9, 1, 2]; rot: [2, 9, 1].
    assert_eq!(stack, vec![2, 9, 1]);
}
