//! The assembler: a two-pass translator from line-oriented source text to
//! an instruction sequence, plus its binary encoding.
//!
//! Pass one walks every line and records each label declaration with the
//! address the next instruction will get — addresses are established for
//! the whole text before any instruction is parsed, which is what makes
//! forward references resolve ([`lemma_forward_label_resolution`]). Pass
//! two parses each instruction line, resolving jump targets through the
//! finished table.

use vstd::prelude::*;

use crate::codec::{encode_program, spec_encode};
use crate::instruction::Instruction;
use crate::text::{
    is_digit, is_digit_byte, index_of_token, spec_lines, spec_tokens, split_lines, tokenize,
    word_of_token, parse_index_token, parse_word_token,
};

verus! {

/// Everything that can fail an assembly. The line-tagged kinds carry the
/// 1-based source line they arose on; the whole assembly fails with the
/// first of them.
#[derive(Clone, Copy, Debug, PartialEq, Eq, Structural)]
pub enum CompileError {
    /// The first token of a line is neither an opcode nor a label
    /// declaration.
    BadInstruction(usize),
    /// A missing, extra or malformed operand, an unknown label, or a
    /// literal jump target outside the program.
    BadOperand(usize),
    /// The encoded program could not be written out.
    CannotWrite,
}

// The opcode spellings, as byte strings.
pub open spec fn kw_push() -> Seq<u8> {
    seq![112u8, 117u8, 115u8, 104u8]
}

pub open spec fn kw_pop() -> Seq<u8> {
    seq![112u8, 111u8, 112u8]
}

pub open spec fn kw_add() -> Seq<u8> {
    seq![97u8, 100u8, 100u8]
}

pub open spec fn kw_sub() -> Seq<u8> {
    seq![115u8, 117u8, 98u8]
}

pub open spec fn kw_mul() -> Seq<u8> {
    seq![109u8, 117u8, 108u8]
}

pub open spec fn kw_div() -> Seq<u8> {
    seq![100u8, 105u8, 118u8]
}

pub open spec fn kw_halt() -> Seq<u8> {
    seq![104u8, 97u8, 108u8, 116u8]
}

pub open spec fn kw_jmp() -> Seq<u8> {
    seq![106u8, 109u8, 112u8]
}

pub open spec fn kw_jif() -> Seq<u8> {
    seq![106u8, 105u8, 102u8]
}

pub open spec fn kw_jifz() -> Seq<u8> {
    seq![106u8, 105u8, 102u8, 122u8]
}

pub open spec fn kw_eq() -> Seq<u8> {
    seq![101u8, 113u8]
}

pub open spec fn kw_dup() -> Seq<u8> {
    seq![100u8, 117u8, 112u8]
}

pub open spec fn kw_swap() -> Seq<u8> {
    seq![115u8, 119u8, 97u8, 112u8]
}

pub open spec fn kw_rot() -> Seq<u8> {
    seq![114u8, 111u8, 116u8]
}

/// A label declaration: a line of exactly one token that ends with a
/// colon. The name is everything before the colon.
pub open spec fn is_label_line(toks: Seq<Seq<u8>>) -> bool {
    toks.len() == 1 && toks[0].len() >= 1 && toks[0][toks[0].len() - 1] == 58
}

/// The name a label line declares.
pub open spec fn label_name(toks: Seq<Seq<u8>>) -> Seq<u8> {
    toks[0].drop_last()
}

/// Pass one over a line sequence: the finished label table, and the number
/// of instruction lines seen (the address the next instruction would get).
/// A later declaration of the same name overrides an earlier one.
pub open spec fn spec_pass1(lines: Seq<Seq<u8>>) -> (Map<Seq<u8>, usize>, int)
    decreases lines.len(),
{
    if lines.len() == 0 {
        (Map::<Seq<u8>, usize>::empty(), 0)
    } else {
        let (m, c) = spec_pass1(lines.drop_last());
        let toks = spec_tokens(lines.last());
        if toks.len() == 0 {
            (m, c)
        } else if is_label_line(toks) {
            (m.insert(label_name(toks), c as usize), c)
        } else {
            (m, c + 1)
        }
    }
}

/// What an address operand resolves to: a literal index when the token
/// starts with a digit, otherwise the table's entry for it as a label.
/// A literal must be a valid index into the program being assembled
/// (`n_insts` instructions), enforced here at assemble time; a
/// label-resolved target is only re-validated when the jump executes.
pub open spec fn addr_of_token(t: Seq<u8>, table: Map<Seq<u8>, usize>, n_insts: usize) -> Option<
    usize,
> {
    if t.len() > 0 && is_digit(t[0]) {
        match index_of_token(t) {
            Some(a) => if a < n_insts {
                Some(a)
            } else {
                None
            },
            None => None,
        }
    } else if table.contains_key(t) {
        Some(table[t])
    } else {
        None
    }
}

/// What one line assembles to under a finished label table: an
/// instruction, nothing (a blank or label line), or the error the line is
/// rejected with, tagged with its 1-based number.
pub open spec fn inst_of_line(
    toks: Seq<Seq<u8>>,
    table: Map<Seq<u8>, usize>,
    n_insts: usize,
    line_no: usize,
) -> Result<Option<Instruction>, CompileError> {
    if toks.len() == 0 {
        Ok(None)
    } else if is_label_line(toks) {
        Ok(None)
    } else {
        let op = toks[0];
        if op == kw_push() {
            if toks.len() == 2 {
                match word_of_token(toks[1]) {
                    Some(v) => Ok(Some(Instruction::Push(v))),
                    None => Err(CompileError::BadOperand(line_no)),
                }
            } else {
                Err(CompileError::BadOperand(line_no))
            }
        } else if op == kw_pop() {
            no_operand(toks, Instruction::Pop, line_no)
        } else if op == kw_add() {
            no_operand(toks, Instruction::Add, line_no)
        } else if op == kw_sub() {
            no_operand(toks, Instruction::Sub, line_no)
        } else if op == kw_mul() {
            no_operand(toks, Instruction::Mul, line_no)
        } else if op == kw_div() {
            no_operand(toks, Instruction::Div, line_no)
        } else if op == kw_halt() {
            no_operand(toks, Instruction::Halt, line_no)
        } else if op == kw_eq() {
            no_operand(toks, Instruction::Eq, line_no)
        } else if op == kw_swap() {
            no_operand(toks, Instruction::Swap, line_no)
        } else if op == kw_rot() {
            no_operand(toks, Instruction::Rot, line_no)
        } else if op == kw_jmp() {
            jump_operand(toks, table, n_insts, |t: usize| Instruction::Jmp(t), line_no)
        } else if op == kw_jif() {
            jump_operand(toks, table, n_insts, |t: usize| Instruction::Jif(t), line_no)
        } else if op == kw_jifz() {
            jump_operand(toks, table, n_insts, |t: usize| Instruction::Jifz(t), line_no)
        } else if op == kw_dup() {
            if toks.len() == 2 {
                match index_of_token(toks[1]) {
                    Some(i) => Ok(Some(Instruction::Dup(i))),
                    None => Err(CompileError::BadOperand(line_no)),
                }
            } else {
                Err(CompileError::BadOperand(line_no))
            }
        } else {
            Err(CompileError::BadInstruction(line_no))
        }
    }
}

/// An opcode that takes no operand: the line must be that one token.
pub open spec fn no_operand(toks: Seq<Seq<u8>>, i: Instruction, line_no: usize) -> Result<
    Option<Instruction>,
    CompileError,
> {
    if toks.len() == 1 {
        Ok(Some(i))
    } else {
        Err(CompileError::BadOperand(line_no))
    }
}

/// An opcode that takes one address operand, literal or label.
pub open spec fn jump_operand(
    toks: Seq<Seq<u8>>,
    table: Map<Seq<u8>, usize>,
    n_insts: usize,
    make: spec_fn(usize) -> Instruction,
    line_no: usize,
) -> Result<Option<Instruction>, CompileError> {
    if toks.len() == 2 {
        match addr_of_token(toks[1], table, n_insts) {
            Some(a) => Ok(Some(make(a))),
            None => Err(CompileError::BadOperand(line_no)),
        }
    } else {
        Err(CompileError::BadOperand(line_no))
    }
}

/// Pass two over a line sequence: the program, or the first line's error.
pub open spec fn spec_pass2(
    lines: Seq<Seq<u8>>,
    table: Map<Seq<u8>, usize>,
    n_insts: usize,
) -> Result<Seq<Instruction>, CompileError>
    decreases lines.len(),
{
    if lines.len() == 0 {
        Ok(Seq::<Instruction>::empty())
    } else {
        match spec_pass2(lines.drop_last(), table, n_insts) {
            Err(e) => Err(e),
            Ok(p) => match inst_of_line(
                spec_tokens(lines.last()),
                table,
                n_insts,
                lines.len() as usize,
            ) {
                Err(e) => Err(e),
                Ok(None) => Ok(p),
                Ok(Some(i)) => Ok(p.push(i)),
            },
        }
    }
}

/// What assembling a source text yields: the program of its instruction
/// lines, with jump targets resolved through pass one's label table, or
/// the first error.
pub open spec fn spec_assemble(src: Seq<u8>) -> Result<Seq<Instruction>, CompileError> {
    let lines = spec_lines(src);
    let (table, c) = spec_pass1(lines);
    spec_pass2(lines, table, c as usize)
}

/// The label table a sequence of (name, address) entries stands for:
/// later entries override earlier ones.
pub open spec fn table_view(entries: Seq<(Vec<u8>, usize)>) -> Map<Seq<u8>, usize>
    decreases entries.len(),
{
    if entries.len() == 0 {
        Map::<Seq<u8>, usize>::empty()
    } else {
        table_view(entries.drop_last()).insert(entries.last().0@, entries.last().1)
    }
}

proof fn lemma_table_view_found(entries: Seq<(Vec<u8>, usize)>, j: int, name: Seq<u8>)
    requires
        0 <= j < entries.len(),
        entries[j].0@ == name,
        forall|k: int| j < k < entries.len() ==> entries[k].0@ != name,
    ensures
        table_view(entries).contains_key(name),
        table_view(entries)[name] == entries[j].1,
    decreases entries.len(),
{
    if j < entries.len() - 1 {
        lemma_table_view_found(entries.drop_last(), j, name);
    }
}

proof fn lemma_table_view_absent(entries: Seq<(Vec<u8>, usize)>, name: Seq<u8>)
    requires
        forall|k: int| 0 <= k < entries.len() ==> entries[k].0@ != name,
    ensures
        !table_view(entries).contains_key(name),
    decreases entries.len(),
{
    if entries.len() > 0 {
        lemma_table_view_absent(entries.drop_last(), name);
    }
}

fn bytes_eq(a: &Vec<u8>, b: &Vec<u8>) -> (r: bool)
    ensures
        r == (a@ == b@),
{
    if a.len() != b.len() {
        return false;
    }
    let mut j: usize = 0;
    while j < a.len()
        invariant
            j <= a@.len(),
            a@.len() == b@.len(),
            forall|k: int| 0 <= k < j ==> a@[k] == b@[k],
        decreases a@.len() - j,
    {
        if a[j] != b[j] {
            return false;
        }
        j += 1;
    }
    proof {
        assert(a@ =~= b@);
    }
    true
}

/// Look a label up, honouring the override order of [`table_view`].
fn label_lookup(table: &Vec<(Vec<u8>, usize)>, name: &Vec<u8>) -> (r: Option<usize>)
    ensures
        match r {
            Some(v) => table_view(table@).contains_key(name@) && v == table_view(table@)[name@],
            None => !table_view(table@).contains_key(name@),
        },
{
    let mut j: usize = table.len();
    while j > 0
        invariant
            j <= table@.len(),
            forall|k: int| j <= k < table@.len() ==> table@[k].0@ != name@,
        decreases j,
    {
        j -= 1;
        if bytes_eq(&table[j].0, name) {
            proof {
                lemma_table_view_found(table@, j as int, name@);
            }
            return Some(table[j].1);
        }
    }
    proof {
        lemma_table_view_absent(table@, name@);
    }
    None
}

/// Pass one: build the label table for a whole line sequence, and count
/// its instruction lines (the length the assembled program will have).
#[verifier::loop_isolation(false)]
fn build_label_table(lines: &Vec<Vec<u8>>) -> (r: (Vec<(Vec<u8>, usize)>, usize))
    ensures
        table_view(r.0@) == spec_pass1(lines@.map_values(|l: Vec<u8>| l@)).0,
        r.1 as int == spec_pass1(lines@.map_values(|l: Vec<u8>| l@)).1,
{
    let ghost gl = lines@.map_values(|l: Vec<u8>| l@);
    let mut table: Vec<(Vec<u8>, usize)> = Vec::new();
    let mut c: usize = 0;
    let mut i: usize = 0;
    proof {
        assert(gl.take(0) =~= Seq::<Seq<u8>>::empty());
    }
    while i < lines.len()
        invariant
            i <= lines@.len(),
            c <= i,
            table_view(table@) == spec_pass1(gl.take(i as int)).0,
            c as int == spec_pass1(gl.take(i as int)).1,
        decreases lines@.len() - i,
    {
        let ghost pre = table@;
        let toks = tokenize(&lines[i]);
        let ghost gtoks = spec_tokens(gl[i as int]);
        proof {
            assert(gl.take(i + 1).drop_last() =~= gl.take(i as int));
            assert(gl.take(i + 1).last() == gl[i as int]);
        }
        if toks.len() == 0 {
        } else if toks.len() == 1 && toks[0].len() >= 1 && toks[0][toks[0].len() - 1] == 58 {
            proof {
                assert(is_label_line(gtoks));
            }
            let first = &toks[0];
            let name = vstd::slice::slice_to_vec(vstd::slice::slice_subrange(
                first.as_slice(),
                0,
                first.len() - 1,
            ));
            proof {
                assert(name@ =~= label_name(gtoks));
            }
            table.push((name, c));
            proof {
                assert(table@.drop_last() =~= pre);
            }
        } else {
            proof {
                assert(!is_label_line(gtoks));
            }
            c += 1;
        }
        i += 1;
    }
    proof {
        assert(gl.take(lines@.len() as int) =~= gl);
    }
    (table, c)
}

fn tok_eq2(t: &Vec<u8>, a: u8, b: u8) -> (r: bool)
    ensures
        r == (t@ == seq![a, b]),
{
    let r = t.len() == 2 && t[0] == a && t[1] == b;
    proof {
        if r {
            assert(t@ =~= seq![a, b]);
        }
    }
    r
}

fn tok_eq3(t: &Vec<u8>, a: u8, b: u8, c: u8) -> (r: bool)
    ensures
        r == (t@ == seq![a, b, c]),
{
    let r = t.len() == 3 && t[0] == a && t[1] == b && t[2] == c;
    proof {
        if r {
            assert(t@ =~= seq![a, b, c]);
        }
    }
    r
}

fn tok_eq4(t: &Vec<u8>, a: u8, b: u8, c: u8, d: u8) -> (r: bool)
    ensures
        r == (t@ == seq![a, b, c, d]),
{
    let r = t.len() == 4 && t[0] == a && t[1] == b && t[2] == c && t[3] == d;
    proof {
        if r {
            assert(t@ =~= seq![a, b, c, d]);
        }
    }
    r
}

/// Resolve an address operand: a literal index when the token starts with
/// a digit (rejected unless it lies inside the program), a label
/// otherwise.
fn parse_addr_or_label(tok: &Vec<u8>, table: &Vec<(Vec<u8>, usize)>, n_insts: usize) -> (r:
    Option<usize>)
    ensures
        r == addr_of_token(tok@, table_view(table@), n_insts),
{
    if tok.len() > 0 && is_digit_byte(tok[0]) {
        match parse_index_token(tok) {
            Some(a) => if a < n_insts {
                Some(a)
            } else {
                None
            },
            None => None,
        }
    } else {
        label_lookup(table, tok)
    }
}

/// Parse one tokenized line against the finished label table.
fn parse_line(
    toks: &Vec<Vec<u8>>,
    table: &Vec<(Vec<u8>, usize)>,
    n_insts: usize,
    line_no: usize,
) -> (r: Result<Option<Instruction>, CompileError>)
    ensures
        r == inst_of_line(
            toks@.map_values(|t: Vec<u8>| t@),
            table_view(table@),
            n_insts,
            line_no,
        ),
{
    let ghost gtoks = toks@.map_values(|t: Vec<u8>| t@);
    if toks.len() == 0 {
        return Ok(None);
    }
    let first = &toks[0];
    if toks.len() == 1 && first.len() >= 1 && first[first.len() - 1] == 58 {
        proof {
            assert(is_label_line(gtoks));
        }
        return Ok(None);
    }
    proof {
        assert(!is_label_line(gtoks));
    }
    if tok_eq4(first, 112, 117, 115, 104) {
        // push
        if toks.len() == 2 {
            match parse_word_token(&toks[1]) {
                Some(v) => Ok(Some(Instruction::Push(v))),
                None => Err(CompileError::BadOperand(line_no)),
            }
        } else {
            Err(CompileError::BadOperand(line_no))
        }
    } else if tok_eq3(first, 112, 111, 112) {
        // pop
        if toks.len() == 1 {
            Ok(Some(Instruction::Pop))
        } else {
            Err(CompileError::BadOperand(line_no))
        }
    } else if tok_eq3(first, 97, 100, 100) {
        // add
        if toks.len() == 1 {
            Ok(Some(Instruction::Add))
        } else {
            Err(CompileError::BadOperand(line_no))
        }
    } else if tok_eq3(first, 115, 117, 98) {
        // sub
        if toks.len() == 1 {
            Ok(Some(Instruction::Sub))
        } else {
            Err(CompileError::BadOperand(line_no))
        }
    } else if tok_eq3(first, 109, 117, 108) {
        // mul
        if toks.len() == 1 {
            Ok(Some(Instruction::Mul))
        } else {
            Err(CompileError::BadOperand(line_no))
        }
    } else if tok_eq3(first, 100, 105, 118) {
        // div
        if toks.len() == 1 {
            Ok(Some(Instruction::Div))
        } else {
            Err(CompileError::BadOperand(line_no))
        }
    } else if tok_eq4(first, 104, 97, 108, 116) {
        // halt
        if toks.len() == 1 {
            Ok(Some(Instruction::Halt))
        } else {
            Err(CompileError::BadOperand(line_no))
        }
    } else if tok_eq2(first, 101, 113) {
        // eq
        if toks.len() == 1 {
            Ok(Some(Instruction::Eq))
        } else {
            Err(CompileError::BadOperand(line_no))
        }
    } else if tok_eq4(first, 115, 119, 97, 112) {
        // swap
        if toks.len() == 1 {
            Ok(Some(Instruction::Swap))
        } else {
            Err(CompileError::BadOperand(line_no))
        }
    } else if tok_eq3(first, 114, 111, 116) {
        // rot
        if toks.len() == 1 {
            Ok(Some(Instruction::Rot))
        } else {
            Err(CompileError::BadOperand(line_no))
        }
    } else if tok_eq3(first, 106, 109, 112) {
        // jmp
        if toks.len() == 2 {
            match parse_addr_or_label(&toks[1], table, n_insts) {
                Some(a) => Ok(Some(Instruction::Jmp(a))),
                None => Err(CompileError::BadOperand(line_no)),
            }
        } else {
            Err(CompileError::BadOperand(line_no))
        }
    } else if tok_eq3(first, 106, 105, 102) {
        // jif
        if toks.len() == 2 {
            match parse_addr_or_label(&toks[1], table, n_insts) {
                Some(a) => Ok(Some(Instruction::Jif(a))),
                None => Err(CompileError::BadOperand(line_no)),
            }
        } else {
            Err(CompileError::BadOperand(line_no))
        }
    } else if tok_eq4(first, 106, 105, 102, 122) {
        // jifz
        if toks.len() == 2 {
            match parse_addr_or_label(&toks[1], table, n_insts) {
                Some(a) => Ok(Some(Instruction::Jifz(a))),
                None => Err(CompileError::BadOperand(line_no)),
            }
        } else {
            Err(CompileError::BadOperand(line_no))
        }
    } else if tok_eq3(first, 100, 117, 112) {
        // dup
        if toks.len() == 2 {
            match parse_index_token(&toks[1]) {
                Some(i) => Ok(Some(Instruction::Dup(i))),
                None => Err(CompileError::BadOperand(line_no)),
            }
        } else {
            Err(CompileError::BadOperand(line_no))
        }
    } else {
        Err(CompileError::BadInstruction(line_no))
    }
}

proof fn lemma_pass2_err_extends(
    lines: Seq<Seq<u8>>,
    table: Map<Seq<u8>, usize>,
    n_insts: usize,
    j: int,
)
    requires
        0 <= j <= lines.len(),
        spec_pass2(lines.take(j), table, n_insts) is Err,
    ensures
        spec_pass2(lines, table, n_insts) == spec_pass2(lines.take(j), table, n_insts),
    decreases lines.len() - j,
{
    if j < lines.len() {
        assert(lines.take(j + 1).drop_last() =~= lines.take(j));
        lemma_pass2_err_extends(lines, table, n_insts, j + 1);
    } else {
        assert(lines.take(j) =~= lines);
    }
}

/// Assemble a source text into a program: pass one's label table and
/// instruction count, then pass two's instructions, exactly as
/// [`spec_assemble`] says — `Ok` for every well-formed text whose literal
/// jump targets lie inside the program, and the first offending line's
/// error otherwise.
#[verifier::loop_isolation(false)]
pub fn assemble(src: &Vec<u8>) -> (r: Result<Vec<Instruction>, CompileError>)
    ensures
        match spec_assemble(src@) {
            Ok(p) => r is Ok && r->Ok_0@ == p,
            Err(e) => r == Err::<Vec<Instruction>, CompileError>(e),
        },
{
    let lines = split_lines(src);
    let ghost gl = lines@.map_values(|l: Vec<u8>| l@);
    let (table, count) = build_label_table(&lines);
    let ghost tv = table_view(table@);
    let mut prog: Vec<Instruction> = Vec::new();
    let mut i: usize = 0;
    proof {
        assert(gl.take(0) =~= Seq::<Seq<u8>>::empty());
    }
    while i < lines.len()
        invariant
            i <= lines@.len(),
            spec_pass2(gl.take(i as int), tv, count) == Ok::<Seq<Instruction>, CompileError>(
            prog@),
        decreases lines@.len() - i,
    {
        let toks = tokenize(&lines[i]);
        proof {
            assert(gl.take(i + 1).drop_last() =~= gl.take(i as int));
            assert(gl.take(i + 1).last() == gl[i as int]);
        }
        match parse_line(&toks, &table, count, i + 1) {
            Ok(None) => {},
            Ok(Some(inst)) => {
                prog.push(inst);
            },
            Err(e) => {
                proof {
                    lemma_pass2_err_extends(gl, tv, count, i + 1);
                }
                return Err(e);
            },
        }
        i += 1;
    }
    proof {
        assert(gl.take(lines@.len() as int) =~= gl);
    }
    Ok(prog)
}

/// Assemble a source text and encode the program into its binary image.
/// Parse errors are reported by line; the encoding step itself is total.
pub fn compile(src: &Vec<u8>) -> (r: Result<Vec<u8>, CompileError>)
    ensures
        match spec_assemble(src@) {
            Ok(p) => r is Ok && r->Ok_0@ == spec_encode(p),
            Err(e) => r == Err::<Vec<u8>, CompileError>(e),
        },
{
    match assemble(src) {
        Ok(prog) => Ok(encode_program(&prog)),
        Err(e) => Err(e),
    }
}

/// The number of instruction lines (neither blank nor a label declaration)
/// in a line sequence: the address space the lines span.
pub open spec fn instr_count(lines: Seq<Seq<u8>>) -> int
    decreases lines.len(),
{
    if lines.len() == 0 {
        0
    } else {
        instr_count(lines.drop_last()) + ({
            let toks = spec_tokens(lines.last());
            if toks.len() == 0 || is_label_line(toks) {
                0int
            } else {
                1int
            }
        })
    }
}

/// Pass one's running address counter is exactly the instruction-line
/// count.
pub proof fn lemma_pass1_counter(lines: Seq<Seq<u8>>)
    ensures
        spec_pass1(lines).1 == instr_count(lines),
        0 <= instr_count(lines) <= lines.len(),
    decreases lines.len(),
{
    if lines.len() > 0 {
        lemma_pass1_counter(lines.drop_last());
    }
}

/// Law: label resolution is forward-reference-safe. Wherever in the text a
/// label is used — before or after its declaration — pass one's finished
/// table maps it to the number of instruction lines before the declaring
/// line, i.e. the address of the next instruction after it. (Of several
/// declarations of one name, the last counts.)
pub proof fn lemma_forward_label_resolution(lines: Seq<Seq<u8>>, j: int)
    requires
        0 <= j < lines.len(),
        lines.len() <= usize::MAX,
        is_label_line(spec_tokens(lines[j])),
        forall|k: int|
            j < k < lines.len() ==> !(is_label_line(spec_tokens(lines[k])) && label_name(
                spec_tokens(lines[k]),
            ) == label_name(spec_tokens(lines[j]))),
    ensures
        spec_pass1(lines).0.contains_key(label_name(spec_tokens(lines[j]))),
        spec_pass1(lines).0[label_name(spec_tokens(lines[j]))] == instr_count(lines.take(j)),
    decreases lines.len(),
{
    lemma_pass1_counter(lines.drop_last());
    if j == lines.len() - 1 {
        assert(lines.drop_last() =~= lines.take(j));
    } else {
        assert(lines.drop_last()[j] == lines[j]);
        lemma_forward_label_resolution(lines.drop_last(), j);
        assert(lines.drop_last().take(j) =~= lines.take(j));
    }
}

/// Pass two produces exactly one instruction per instruction line, so
/// addresses out of pass one index the assembled program.
pub proof fn lemma_pass2_len(lines: Seq<Seq<u8>>, table: Map<Seq<u8>, usize>, n_insts: usize)
    requires
        spec_pass2(lines, table, n_insts) is Ok,
    ensures
        spec_pass2(lines, table, n_insts)->Ok_0.len() == instr_count(lines),
    decreases lines.len(),
{
    if lines.len() > 0 {
        lemma_pass2_len(lines.drop_last(), table, n_insts);
    }
}

} // verus!
