//! The execution engine: a fixed-capacity operand stack, a program counter
//! and a halted flag, driven by a fetch-decode-execute loop.
//!
//! The engine's behaviour is specified by the pure step function [`step`]:
//! executing one instruction is proved to return exactly what `step` says,
//! and running many is proved to return exactly what [`run_n`] (iterated
//! stepping) says.

use vstd::prelude::*;

use crate::instruction::Instruction;
use crate::Word;

verus! {

/// Number of words the operand stack can hold; pushing past this is a
/// stack-overflow failure.
pub const STACK_CAPACITY: usize = 1024;

/// Everything that can abort a run. Every failure is terminal: the engine
/// stops at the failing instruction and surfaces the kind unchanged.
#[derive(Clone, Copy, Debug, PartialEq, Eq, Structural)]
pub enum RvimError {
    /// An instruction needed more operands than the stack holds.
    StackUnderflow,
    /// A push (or dup) would grow the stack past its capacity.
    StackOverflow,
    /// A jump target lies outside the program.
    InvalidOperand,
    /// The binary program could not be decoded.
    BadByteCode,
    /// A division had a zero divisor.
    DivByZero,
}

/// The mathematical machine state: the live stack (bottom to top), the
/// program counter and the halted flag. The program itself is immutable
/// during a run and is passed separately.
#[verifier::ext_equal]
pub ghost struct MState {
    pub stack: Seq<Word>,
    pub ip: nat,
    pub halt: bool,
}

/// A run is over when the machine has halted or the program counter has
/// left the program.
pub open spec fn is_final(prog: Seq<Instruction>, s: MState) -> bool {
    s.halt || s.ip >= prog.len()
}

/// Division of machine words: ordinary truncated division, except that the
/// one overflowing case (`Word::MIN / -1`) wraps to `Word::MIN`.
pub open spec fn word_div(a: Word, b: Word) -> Word
    recommends
        b != 0,
{
    match a.checked_div(b) {
        Some(q) => q,
        None => Word::MIN,
    }
}

/// The documented effect of executing the instruction under the program
/// counter: the outcome of the attempt and the machine state after it.
/// On an error the state shows exactly what the failing instruction had
/// already done (only a division by zero changes anything: it has popped
/// the divisor when the failure is found).
pub open spec fn step(prog: Seq<Instruction>, s: MState) -> (Result<(), RvimError>, MState)
    recommends
        s.ip < prog.len(),
{
    let n = s.stack.len() as int;
    match prog[s.ip as int] {
        Instruction::Push(x) => {
            if n >= STACK_CAPACITY {
                (Err(RvimError::StackOverflow), s)
            } else {
                (Ok(()), MState { stack: s.stack.push(x), ip: (s.ip + 1) as nat, ..s })
            }
        },
        Instruction::Pop => {
            if n < 1 {
                (Err(RvimError::StackUnderflow), s)
            } else {
                (Ok(()), MState { stack: s.stack.take(n - 1), ip: (s.ip + 1) as nat, ..s })
            }
        },
        Instruction::Add => {
            if n < 2 {
                (Err(RvimError::StackUnderflow), s)
            } else {
                let v = s.stack[n - 2].wrapping_add(s.stack[n - 1]);
                (Ok(()), MState { stack: s.stack.take(n - 2).push(v), ip: (s.ip + 1) as nat, ..s })
            }
        },
        Instruction::Sub => {
            if n < 2 {
                (Err(RvimError::StackUnderflow), s)
            } else {
                let v = s.stack[n - 2].wrapping_sub(s.stack[n - 1]);
                (Ok(()), MState { stack: s.stack.take(n - 2).push(v), ip: (s.ip + 1) as nat, ..s })
            }
        },
        Instruction::Mul => {
            if n < 2 {
                (Err(RvimError::StackUnderflow), s)
            } else {
                let v = s.stack[n - 2].wrapping_mul(s.stack[n - 1]);
                (Ok(()), MState { stack: s.stack.take(n - 2).push(v), ip: (s.ip + 1) as nat, ..s })
            }
        },
        Instruction::Div => {
            if n < 2 {
                (Err(RvimError::StackUnderflow), s)
            } else if s.stack[n - 1] == 0 {
                (Err(RvimError::DivByZero), MState { stack: s.stack.take(n - 1), ..s })
            } else {
                let v = word_div(s.stack[n - 2], s.stack[n - 1]);
                (Ok(()), MState { stack: s.stack.take(n - 2).push(v), ip: (s.ip + 1) as nat, ..s })
            }
        },
        Instruction::Eq => {
            if n < 2 {
                (Err(RvimError::StackUnderflow), s)
            } else {
                let v: Word = if s.stack[n - 1] == s.stack[n - 2] { 1 } else { 0 };
                (Ok(()), MState { stack: s.stack.take(n - 2).push(v), ip: (s.ip + 1) as nat, ..s })
            }
        },
        Instruction::Dup(idx) => {
            if n < idx + 1 {
                (Err(RvimError::StackUnderflow), s)
            } else if n >= STACK_CAPACITY {
                (Err(RvimError::StackOverflow), s)
            } else {
                let v = s.stack[n - 1 - idx];
                (Ok(()), MState { stack: s.stack.push(v), ip: (s.ip + 1) as nat, ..s })
            }
        },
        Instruction::Swap => {
            if n < 2 {
                (Err(RvimError::StackUnderflow), s)
            } else {
                let st = s.stack.update(n - 1, s.stack[n - 2]).update(n - 2, s.stack[n - 1]);
                (Ok(()), MState { stack: st, ip: (s.ip + 1) as nat, ..s })
            }
        },
        Instruction::Rot => {
            if n < 3 {
                (Err(RvimError::StackUnderflow), s)
            } else {
                // The top element moves down two places; the two below it
                // each move up one: [.., a, b, c] becomes [.., c, a, b].
                let st = s.stack.update(n - 3, s.stack[n - 1]).update(n - 2, s.stack[n - 3])
                    .update(n - 1, s.stack[n - 2]);
                (Ok(()), MState { stack: st, ip: (s.ip + 1) as nat, ..s })
            }
        },
        Instruction::Jmp(t) => {
            if t >= prog.len() {
                (Err(RvimError::InvalidOperand), s)
            } else {
                (Ok(()), MState { ip: t as nat, ..s })
            }
        },
        Instruction::Jif(t) => {
            if n < 1 {
                (Err(RvimError::StackUnderflow), s)
            } else if t >= prog.len() {
                (Err(RvimError::InvalidOperand), s)
            } else {
                let taken = s.stack[n - 1] != 0;
                let ip2: nat = if taken { t as nat } else { (s.ip + 1) as nat };
                (Ok(()), MState { stack: s.stack.take(n - 1), ip: ip2, ..s })
            }
        },
        Instruction::Jifz(t) => {
            if n < 1 {
                (Err(RvimError::StackUnderflow), s)
            } else if t >= prog.len() {
                (Err(RvimError::InvalidOperand), s)
            } else {
                let taken = s.stack[n - 1] == 0;
                let ip2: nat = if taken { t as nat } else { (s.ip + 1) as nat };
                (Ok(()), MState { stack: s.stack.take(n - 1), ip: ip2, ..s })
            }
        },
        Instruction::Halt => (Ok(()), MState { halt: true, ..s }),
    }
}

/// At most `fuel` steps of the machine: stops early at a final state or on
/// a failure, and reports the state it stopped in.
pub open spec fn run_n(prog: Seq<Instruction>, s: MState, fuel: nat) -> (Result<(), RvimError>,
    MState)
    decreases fuel,
{
    if is_final(prog, s) || fuel == 0 {
        (Ok(()), s)
    } else {
        let (r, s2) = step(prog, s);
        if r is Err {
            (r, s2)
        } else {
            run_n(prog, s2, (fuel - 1) as nat)
        }
    }
}

/// A simulation that has come to rest: it failed, or reached a final state.
pub open spec fn finished(prog: Seq<Instruction>, outcome: (Result<(), RvimError>, MState)) -> bool {
    outcome.0 is Err || is_final(prog, outcome.1)
}

/// Once the simulation has come to rest, more fuel changes nothing: the
/// outcome of `run_n` with any larger fuel is the same.
pub proof fn lemma_run_n_extends(prog: Seq<Instruction>, s: MState, n: nat, m: nat)
    requires
        n <= m,
        finished(prog, run_n(prog, s, n)),
    ensures
        run_n(prog, s, m) == run_n(prog, s, n),
    decreases n,
{
    if !is_final(prog, s) {
        let (r1, s2) = step(prog, s);
        if !(r1 is Err) {
            lemma_run_n_extends(prog, s2, (n - 1) as nat, (m - 1) as nat);
        }
    }
}

/// Law: the machine is deterministic. A program whose simulation comes to
/// rest — in particular one that terminates via `Halt` — has exactly one
/// outcome: every fuel large enough to finish yields the same result and
/// the same final machine state (hence the same stack). Together with
/// [`Rvim::run`]'s postcondition this says that `run` leaves the stack
/// exactly as predicted by simulating the documented per-instruction
/// effects.
pub proof fn lemma_run_deterministic(prog: Seq<Instruction>, s: MState, n: nat, m: nat)
    requires
        finished(prog, run_n(prog, s, n)),
        finished(prog, run_n(prog, s, m)),
    ensures
        run_n(prog, s, n) == run_n(prog, s, m),
{
    if n <= m {
        lemma_run_n_extends(prog, s, n, m);
    } else {
        lemma_run_n_extends(prog, s, m, n);
    }
}

/// Law: a program that terminates via `Halt` leaves the machine — and so
/// the stack — exactly as the simulation of the documented per-instruction
/// effects predicts: once some fuel reaches the halted state, every fuel
/// at least as large yields that same outcome, and [`Rvim::run`]'s
/// postcondition then forces the machine into it.
pub proof fn lemma_halting_run_exact(prog: Seq<Instruction>, s: MState, n: nat, fuel: nat)
    requires
        run_n(prog, s, n).0 is Ok,
        run_n(prog, s, n).1.halt,
        fuel >= n,
    ensures
        run_n(prog, s, fuel) == run_n(prog, s, n),
{
    lemma_run_n_extends(prog, s, n, fuel);
}

/// The virtual machine: one instance owns one run's entire state.
pub struct Rvim {
    stack: Vec<Word>,
    program: Vec<Instruction>,
    ip: usize,
    stack_len: usize,
    halt: bool,
}

impl Rvim {
    /// The stack buffer keeps its full capacity allocated; only the first
    /// `stack_len` cells are live.
    pub closed spec fn wf(&self) -> bool {
        &&& self.stack@.len() == STACK_CAPACITY
        &&& self.stack_len <= STACK_CAPACITY
    }

    /// The program this machine executes.
    pub closed spec fn prog(&self) -> Seq<Instruction> {
        self.program@
    }

    /// The abstract machine state: the live stack, bottom to top, with the
    /// program counter and the halted flag.
    pub closed spec fn state(&self) -> MState {
        MState { stack: self.stack@.take(self.stack_len as int), ip: self.ip as nat, halt: self.halt }
    }

    /// A fresh machine over `program`: empty stack, counter at the first
    /// instruction, not halted.
    pub fn new(program: Vec<Instruction>) -> (vm: Self)
        ensures
            vm.wf(),
            vm.prog() == program@,
            vm.state() == (MState { stack: Seq::<Word>::empty(), ip: 0nat, halt: false }),
    {
        let stack: Vec<Word> = vec![0; STACK_CAPACITY];
        let vm = Rvim { stack, program, ip: 0, stack_len: 0, halt: false };
        proof {
            assert(vm.state().stack =~= Seq::<Word>::empty());
            assert(vm.state() =~= MState { stack: Seq::<Word>::empty(), ip: 0nat, halt: false });
        }
        vm
    }

    /// The final stack contents, bottom to top: a read-only dump for the
    /// caller to inspect after a run.
    pub fn stack_dump(&self) -> (r: Vec<Word>)
        requires
            self.wf(),
        ensures
            r@ == self.state().stack,
    {
        let mut r: Vec<Word> = Vec::new();
        let mut i: usize = 0;
        while i < self.stack_len
            invariant
                self.wf(),
                i <= self.stack_len,
                r@ == self.stack@.take(self.stack_len as int).take(i as int),
            decreases self.stack_len - i,
        {
            let x = self.stack[i];
            r.push(x);
            proof {
                assert(self.stack@.take(self.stack_len as int).take(i + 1)
                    =~= self.stack@.take(self.stack_len as int).take(i as int).push(x));
            }
            i += 1;
        }
        proof {
            assert(self.state().stack.take(self.stack_len as int) =~= self.state().stack);
        }
        r
    }

    /// Execute the single instruction under the program counter; the
    /// machine afterwards is exactly what [`step`] predicts.
    pub fn exec_inst(&mut self) -> (r: Result<(), RvimError>)
        requires
            old(self).wf(),
            old(self).state().ip < old(self).prog().len(),
        ensures
            final(self).wf(),
            final(self).prog() == old(self).prog(),
            (r, final(self).state()) == step(old(self).prog(), old(self).state()),
    {
        let ghost pre = self.state();
        let inst = self.program[self.ip];
        let move_ip = match inst {
            Instruction::Push(x) => self.inst_push(x),
            Instruction::Add => self.inst_add(),
            Instruction::Sub => self.inst_sub(),
            Instruction::Mul => self.inst_mul(),
            Instruction::Div => self.inst_div(),
            Instruction::Halt => self.inst_halt(),
            Instruction::Jmp(t) => self.inst_jmp(t),
            Instruction::Eq => self.inst_eq(),
            Instruction::Jif(t) => self.inst_jif(t),
            Instruction::Jifz(t) => self.inst_jifz(t),
            Instruction::Dup(idx) => self.inst_dup(idx),
            Instruction::Pop => self.inst_pop(),
            Instruction::Swap => self.inst_swap(),
            Instruction::Rot => self.inst_rot(),
        };
        match move_ip {
            Err(e) => {
                proof {
                    assert((Err::<(), RvimError>(e), self.state()) == step(self.prog(), pre));
                }
                Err(e)
            },
            Ok(advance) => {
                if advance {
                    let n = self.program.len();
                    assert(self.ip < n);
                    self.ip += 1;
                }
                proof {
                    assert((Ok::<(), RvimError>(()), self.state()) == step(self.prog(), pre));
                }
                Ok(())
            },
        }
    }

    /// Run the fetch-decode-execute loop for at most `fuel` instructions.
    /// `Ok(true)` means the machine stopped (halted or ran off the end of
    /// the program); `Ok(false)` means the fuel ran out first and the
    /// caller may simply call `run` again; `Err` reports the failure that
    /// aborted the run. Either way the machine is left exactly in the
    /// state that [`run_n`] predicts for this fuel.
    #[verifier::loop_isolation(false)]
    pub fn run(&mut self, fuel: u64) -> (r: Result<bool, RvimError>)
        requires
            old(self).wf(),
        ensures
            final(self).wf(),
            final(self).prog() == old(self).prog(),
            ({
                let (sr, s2) = run_n(old(self).prog(), old(self).state(), fuel as nat);
                &&& final(self).state() == s2
                &&& match r {
                    Ok(done) => sr == Ok::<(), RvimError>(()) && done == is_final(old(self).prog(),
                    s2),
                    Err(e) => sr == Err::<(), RvimError>(e),
                }
            }),
    {
        let ghost prog = self.prog();
        let ghost s0 = self.state();
        let mut left: u64 = fuel;
        while left > 0 && self.ip < self.program.len() && !self.halt
            invariant
                self.wf(),
                self.prog() == prog,
                left <= fuel,
                run_n(prog, self.state(), left as nat) == run_n(prog, s0, fuel as nat),
            decreases left,
        {
            let ghost cur = self.state();
            match self.exec_inst() {
                Ok(()) => {
                    proof {
                        assert(!is_final(prog, cur));
                        assert(run_n(prog, cur, left as nat) == run_n(prog, self.state(), (
                        left - 1) as nat));
                    }
                    left -= 1;
                },
                Err(e) => {
                    proof {
                        assert(!is_final(prog, cur));
                        assert(run_n(prog, cur, left as nat) == (Err::<(), RvimError>(e),
                        self.state()));
                    }
                    return Err(e);
                },
            }
        }
        proof {
            assert(run_n(prog, self.state(), left as nat) == (Ok::<(), RvimError>(()),
            self.state()));
        }
        Ok(self.halt || self.ip >= self.program.len())
    }

    fn require_stack_len(&self, min_len: usize) -> (r: Result<(), RvimError>)
        ensures
            r is Ok <==> self.stack_len >= min_len,
            r is Err ==> r == Err::<(), RvimError>(RvimError::StackUnderflow),
    {
        if self.stack_len < min_len {
            Err(RvimError::StackUnderflow)
        } else {
            Ok(())
        }
    }

    fn check_for_stack_overflow(&self) -> (r: Result<(), RvimError>)
        ensures
            r is Ok <==> self.stack_len < STACK_CAPACITY,
            r is Err ==> r == Err::<(), RvimError>(RvimError::StackOverflow),
    {
        if self.stack_len >= STACK_CAPACITY {
            Err(RvimError::StackOverflow)
        } else {
            Ok(())
        }
    }

    fn inst_push(&mut self, x: Word) -> (r: Result<bool, RvimError>)
        requires
            old(self).wf(),
        ensures
            final(self).wf(),
            final(self).prog() == old(self).prog(),
            final(self).ip == old(self).ip,
            final(self).halt == old(self).halt,
            if old(self).stack_len < STACK_CAPACITY {
                &&& r == Ok::<bool, RvimError>(true)
                &&& final(self).state().stack == old(self).state().stack.push(x)
            } else {
                &&& r == Err::<bool, RvimError>(RvimError::StackOverflow)
                &&& final(self).state() == old(self).state()
            },
    {
        if let Err(e) = self.check_for_stack_overflow() {
            return Err(e);
        }
        self.stack[self.stack_len] = x;
        self.stack_len += 1;
        proof {
            assert(self.state().stack =~= old(self).state().stack.push(x));
        }
        Ok(true)
    }

    fn inst_pop(&mut self) -> (r: Result<bool, RvimError>)
        requires
            old(self).wf(),
        ensures
            final(self).wf(),
            final(self).prog() == old(self).prog(),
            final(self).ip == old(self).ip,
            final(self).halt == old(self).halt,
            if old(self).stack_len >= 1 {
                &&& r == Ok::<bool, RvimError>(true)
                &&& final(self).state().stack == old(self).state().stack.take(
                old(self).state().stack.len() - 1)
            } else {
                &&& r == Err::<bool, RvimError>(RvimError::StackUnderflow)
                &&& final(self).state() == old(self).state()
            },
    {
        if let Err(e) = self.require_stack_len(1) {
            return Err(e);
        }
        self.stack_len -= 1;
        proof {
            assert(self.state().stack =~= old(self).state().stack.take(
            old(self).state().stack.len() - 1));
        }
        Ok(true)
    }

    fn inst_halt(&mut self) -> (r: Result<bool, RvimError>)
        requires
            old(self).wf(),
        ensures
            final(self).wf(),
            final(self).prog() == old(self).prog(),
            final(self).ip == old(self).ip,
            final(self).halt,
            final(self).state().stack == old(self).state().stack,
            r == Ok::<bool, RvimError>(false),
    {
        self.halt = true;
        Ok(false)
    }

    fn inst_add(&mut self) -> (r: Result<bool, RvimError>)
        requires
            old(self).wf(),
        ensures
            final(self).wf(),
            final(self).prog() == old(self).prog(),
            final(self).ip == old(self).ip,
            final(self).halt == old(self).halt,
            ({
                let st = old(self).state().stack;
                if old(self).stack_len >= 2 {
                    &&& r == Ok::<bool, RvimError>(true)
                    &&& final(self).state().stack == st.take(st.len() - 2).push(st[st.len()
                    - 2].wrapping_add(st[st.len() - 1]))
                } else {
                    &&& r == Err::<bool, RvimError>(RvimError::StackUnderflow)
                    &&& final(self).state() == old(self).state()
                }
            }),
    {
        if let Err(e) = self.require_stack_len(2) {
            return Err(e);
        }
        let a = self.stack[self.stack_len - 2];
        let b = self.stack[self.stack_len - 1];
        self.stack[self.stack_len - 2] = a.wrapping_add(b);
        self.stack_len -= 1;
        proof {
            let st = old(self).state().stack;
            assert(self.state().stack =~= st.take(st.len() - 2).push(a.wrapping_add(b)));
        }
        Ok(true)
    }

    fn inst_sub(&mut self) -> (r: Result<bool, RvimError>)
        requires
            old(self).wf(),
        ensures
            final(self).wf(),
            final(self).prog() == old(self).prog(),
            final(self).ip == old(self).ip,
            final(self).halt == old(self).halt,
            ({
                let st = old(self).state().stack;
                if old(self).stack_len >= 2 {
                    &&& r == Ok::<bool, RvimError>(true)
                    &&& final(self).state().stack == st.take(st.len() - 2).push(st[st.len()
                    - 2].wrapping_sub(st[st.len() - 1]))
                } else {
                    &&& r == Err::<bool, RvimError>(RvimError::StackUnderflow)
                    &&& final(self).state() == old(self).state()
                }
            }),
    {
        if let Err(e) = self.require_stack_len(2) {
            return Err(e);
        }
        let a = self.stack[self.stack_len - 2];
        let b = self.stack[self.stack_len - 1];
        self.stack[self.stack_len - 2] = a.wrapping_sub(b);
        self.stack_len -= 1;
        proof {
            let st = old(self).state().stack;
            assert(self.state().stack =~= st.take(st.len() - 2).push(a.wrapping_sub(b)));
        }
        Ok(true)
    }

    fn inst_mul(&mut self) -> (r: Result<bool, RvimError>)
        requires
            old(self).wf(),
        ensures
            final(self).wf(),
            final(self).prog() == old(self).prog(),
            final(self).ip == old(self).ip,
            final(self).halt == old(self).halt,
            ({
                let st = old(self).state().stack;
                if old(self).stack_len >= 2 {
                    &&& r == Ok::<bool, RvimError>(true)
                    &&& final(self).state().stack == st.take(st.len() - 2).push(st[st.len()
                    - 2].wrapping_mul(st[st.len() - 1]))
                } else {
                    &&& r == Err::<bool, RvimError>(RvimError::StackUnderflow)
                    &&& final(self).state() == old(self).state()
                }
            }),
    {
        if let Err(e) = self.require_stack_len(2) {
            return Err(e);
        }
        let a = self.stack[self.stack_len - 2];
        let b = self.stack[self.stack_len - 1];
        self.stack[self.stack_len - 2] = a.wrapping_mul(b);
        self.stack_len -= 1;
        proof {
            let st = old(self).state().stack;
            assert(self.state().stack =~= st.take(st.len() - 2).push(a.wrapping_mul(b)));
        }
        Ok(true)
    }

    fn inst_div(&mut self) -> (r: Result<bool, RvimError>)
        requires
            old(self).wf(),
        ensures
            final(self).wf(),
            final(self).prog() == old(self).prog(),
            final(self).ip == old(self).ip,
            final(self).halt == old(self).halt,
            ({
                let st = old(self).state().stack;
                if old(self).stack_len < 2 {
                    &&& r == Err::<bool, RvimError>(RvimError::StackUnderflow)
                    &&& final(self).state() == old(self).state()
                } else if st[st.len() - 1] == 0 {
                    &&& r == Err::<bool, RvimError>(RvimError::DivByZero)
                    &&& final(self).state().stack == st.take(st.len() - 1)
                } else {
                    &&& r == Ok::<bool, RvimError>(true)
                    &&& final(self).state().stack == st.take(st.len() - 2).push(word_div(st[st.len() - 2],
                    st[st.len() - 1]))
                }
            }),
    {
        if let Err(e) = self.require_stack_len(2) {
            return Err(e);
        }
        self.stack_len -= 1;
        let d = self.stack[self.stack_len];
        if d == 0 {
            proof {
                let st = old(self).state().stack;
                assert(self.state().stack =~= st.take(st.len() - 1));
            }
            return Err(RvimError::DivByZero);
        }
        let a = self.stack[self.stack_len - 1];
        let q = match a.checked_div(d) {
            Some(q) => q,
            None => Word::MIN,
        };
        self.stack[self.stack_len - 1] = q;
        proof {
            let st = old(self).state().stack;
            assert(self.state().stack =~= st.take(st.len() - 2).push(word_div(st[st.len() - 2],
            st[st.len() - 1])));
        }
        Ok(true)
    }

    fn inst_eq(&mut self) -> (r: Result<bool, RvimError>)
        requires
            old(self).wf(),
        ensures
            final(self).wf(),
            final(self).prog() == old(self).prog(),
            final(self).ip == old(self).ip,
            final(self).halt == old(self).halt,
            ({
                let st = old(self).state().stack;
                if old(self).stack_len >= 2 {
                    &&& r == Ok::<bool, RvimError>(true)
                    &&& final(self).state().stack == st.take(st.len() - 2).push(
                    if st[st.len() - 1] == st[st.len() - 2] { 1 as Word } else { 0 as Word })
                } else {
                    &&& r == Err::<bool, RvimError>(RvimError::StackUnderflow)
                    &&& final(self).state() == old(self).state()
                }
            }),
    {
        if let Err(e) = self.require_stack_len(2) {
            return Err(e);
        }
        let a = self.stack[self.stack_len - 2];
        let b = self.stack[self.stack_len - 1];
        let v: Word = if a == b { 1 } else { 0 };
        self.stack[self.stack_len - 2] = v;
        self.stack_len -= 1;
        proof {
            let st = old(self).state().stack;
            assert(self.state().stack =~= st.take(st.len() - 2).push(v));
        }
        Ok(true)
    }

    fn inst_swap(&mut self) -> (r: Result<bool, RvimError>)
        requires
            old(self).wf(),
        ensures
            final(self).wf(),
            final(self).prog() == old(self).prog(),
            final(self).ip == old(self).ip,
            final(self).halt == old(self).halt,
            ({
                let st = old(self).state().stack;
                if old(self).stack_len >= 2 {
                    &&& r == Ok::<bool, RvimError>(true)
                    &&& final(self).state().stack == st.update(st.len() - 1, st[st.len() - 2]).update(
                    st.len() - 2, st[st.len() - 1])
                } else {
                    &&& r == Err::<bool, RvimError>(RvimError::StackUnderflow)
                    &&& final(self).state() == old(self).state()
                }
            }),
    {
        if let Err(e) = self.require_stack_len(2) {
            return Err(e);
        }
        let a = self.stack[self.stack_len - 2];
        let b = self.stack[self.stack_len - 1];
        self.stack[self.stack_len - 1] = a;
        self.stack[self.stack_len - 2] = b;
        proof {
            let st = old(self).state().stack;
            assert(self.state().stack =~= st.update(st.len() - 1, st[st.len() - 2]).update(
            st.len() - 2, st[st.len() - 1]));
        }
        Ok(true)
    }

    fn inst_rot(&mut self) -> (r: Result<bool, RvimError>)
        requires
            old(self).wf(),
        ensures
            final(self).wf(),
            final(self).prog() == old(self).prog(),
            final(self).ip == old(self).ip,
            final(self).halt == old(self).halt,
            ({
                let st = old(self).state().stack;
                if old(self).stack_len >= 3 {
                    &&& r == Ok::<bool, RvimError>(true)
                    &&& final(self).state().stack == st.update(st.len() - 3, st[st.len() - 1]).update(
                    st.len() - 2, st[st.len() - 3]).update(st.len() - 1, st[st.len() - 2])
                } else {
                    &&& r == Err::<bool, RvimError>(RvimError::StackUnderflow)
                    &&& final(self).state() == old(self).state()
                }
            }),
    {
        if let Err(e) = self.require_stack_len(3) {
            return Err(e);
        }
        let a = self.stack[self.stack_len - 3];
        let b = self.stack[self.stack_len - 2];
        let c = self.stack[self.stack_len - 1];
        self.stack[self.stack_len - 3] = c;
        self.stack[self.stack_len - 2] = a;
        self.stack[self.stack_len - 1] = b;
        proof {
            let st = old(self).state().stack;
            assert(self.state().stack =~= st.update(st.len() - 3, st[st.len() - 1]).update(
            st.len() - 2, st[st.len() - 3]).update(st.len() - 1, st[st.len() - 2]));
        }
        Ok(true)
    }

    fn inst_jif(&mut self, t: usize) -> (r: Result<bool, RvimError>)
        requires
            old(self).wf(),
        ensures
            final(self).wf(),
            final(self).prog() == old(self).prog(),
            final(self).halt == old(self).halt,
            ({
                let st = old(self).state().stack;
                if old(self).stack_len < 1 {
                    &&& r == Err::<bool, RvimError>(RvimError::StackUnderflow)
                    &&& final(self).state() == old(self).state()
                } else if t >= old(self).prog().len() {
                    &&& r == Err::<bool, RvimError>(RvimError::InvalidOperand)
                    &&& final(self).state() == old(self).state()
                } else {
                    &&& final(self).state().stack == st.take(st.len() - 1)
                    &&& if st[st.len() - 1] != 0 {
                        r == Ok::<bool, RvimError>(false) && final(self).ip == t
                    } else {
                        r == Ok::<bool, RvimError>(true) && final(self).ip == old(self).ip
                    }
                }
            }),
    {
        if let Err(e) = self.require_stack_len(1) {
            return Err(e);
        }
        if t >= self.program.len() {
            return Err(RvimError::InvalidOperand);
        }
        self.stack_len -= 1;
        let v = self.stack[self.stack_len];
        proof {
            let st = old(self).state().stack;
            assert(self.state().stack =~= st.take(st.len() - 1));
        }
        if v != 0 {
            self.ip = t;
            Ok(false)
        } else {
            Ok(true)
        }
    }

    fn inst_jifz(&mut self, t: usize) -> (r: Result<bool, RvimError>)
        requires
            old(self).wf(),
        ensures
            final(self).wf(),
            final(self).prog() == old(self).prog(),
            final(self).halt == old(self).halt,
            ({
                let st = old(self).state().stack;
                if old(self).stack_len < 1 {
                    &&& r == Err::<bool, RvimError>(RvimError::StackUnderflow)
                    &&& final(self).state() == old(self).state()
                } else if t >= old(self).prog().len() {
                    &&& r == Err::<bool, RvimError>(RvimError::InvalidOperand)
                    &&& final(self).state() == old(self).state()
                } else {
                    &&& final(self).state().stack == st.take(st.len() - 1)
                    &&& if st[st.len() - 1] == 0 {
                        r == Ok::<bool, RvimError>(false) && final(self).ip == t
                    } else {
                        r == Ok::<bool, RvimError>(true) && final(self).ip == old(self).ip
                    }
                }
            }),
    {
        if let Err(e) = self.require_stack_len(1) {
            return Err(e);
        }
        if t >= self.program.len() {
            return Err(RvimError::InvalidOperand);
        }
        self.stack_len -= 1;
        let v = self.stack[self.stack_len];
        proof {
            let st = old(self).state().stack;
            assert(self.state().stack =~= st.take(st.len() - 1));
        }
        if v == 0 {
            self.ip = t;
            Ok(false)
        } else {
            Ok(true)
        }
    }

    fn inst_dup(&mut self, idx: usize) -> (r: Result<bool, RvimError>)
        requires
            old(self).wf(),
        ensures
            final(self).wf(),
            final(self).prog() == old(self).prog(),
            final(self).ip == old(self).ip,
            final(self).halt == old(self).halt,
            ({
                let st = old(self).state().stack;
                if st.len() < idx + 1 {
                    &&& r == Err::<bool, RvimError>(RvimError::StackUnderflow)
                    &&& final(self).state() == old(self).state()
                } else if old(self).stack_len >= STACK_CAPACITY {
                    &&& r == Err::<bool, RvimError>(RvimError::StackOverflow)
                    &&& final(self).state() == old(self).state()
                } else {
                    &&& r == Ok::<bool, RvimError>(true)
                    &&& final(self).state().stack == st.push(st[st.len() - 1 - idx])
                }
            }),
    {
        if idx >= self.stack_len {
            return Err(RvimError::StackUnderflow);
        }
        if let Err(e) = self.check_for_stack_overflow() {
            return Err(e);
        }
        let v = self.stack[self.stack_len - 1 - idx];
        self.stack[self.stack_len] = v;
        self.stack_len += 1;
        proof {
            let st = old(self).state().stack;
            assert(self.state().stack =~= st.push(v));
        }
        Ok(true)
    }

    fn inst_jmp(&mut self, t: usize) -> (r: Result<bool, RvimError>)
        requires
            old(self).wf(),
        ensures
            final(self).wf(),
            final(self).prog() == old(self).prog(),
            final(self).halt == old(self).halt,
            final(self).state().stack == old(self).state().stack,
            if t < old(self).prog().len() {
                &&& r == Ok::<bool, RvimError>(false)
                &&& final(self).ip == t
            } else {
                &&& r == Err::<bool, RvimError>(RvimError::InvalidOperand)
                &&& final(self).ip == old(self).ip
            },
    {
        if t >= self.program.len() {
            return Err(RvimError::InvalidOperand);
        }
        self.ip = t;
        Ok(false)
    }
}

} // verus!
