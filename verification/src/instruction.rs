//! The closed instruction set: the binary contract between the assembler
//! and the execution engine.

use vstd::prelude::*;

verus! {

/// One virtual-machine instruction. The set is closed: every opcode the
/// machine understands is a variant here, carrying exactly its operands.
///
/// Jump targets (`Jmp`, `Jif`, `Jifz`) are program indices; they are
/// validated against the program length when the jump executes. `Dup(i)`
/// duplicates the element `i` positions below the top of the stack
/// (`Dup(0)` duplicates the top itself).
#[derive(Clone, Copy, Debug, PartialEq, Eq, Structural)]
pub enum Instruction {
    Push(crate::Word),
    Pop,
    Add,
    Sub,
    Mul,
    Div,
    Halt,
    Jmp(usize),
    Eq,
    Jif(usize),
    Jifz(usize),
    Dup(usize),
    Swap,
    Rot,
}

} // verus!
