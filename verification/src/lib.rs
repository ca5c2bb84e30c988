//! A minimal stack-based virtual machine: an assembler that turns
//! line-oriented source text into a sequence of instructions, a
//! deterministic binary codec for persisting programs, and an execution
//! engine that runs a program against a fixed-capacity operand stack.

use vstd::prelude::*;

mod codec;
mod compile;
mod instruction;
mod text;
mod vm;

pub use codec::{decode_program, encode_program, spec_decode, spec_encode};
pub use compile::{assemble, compile, spec_assemble, CompileError};
pub use instruction::Instruction;
pub use vm::{MState, Rvim, RvimError, STACK_CAPACITY, is_final, run_n, step, word_div};

verus! {

/// A machine word: every stack cell and every `push` literal is one of these.
pub type Word = i32;

} // verus!
