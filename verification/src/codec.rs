//! The binary program format: a deterministic, length-prefixed encoding of
//! an instruction sequence, together with its decoder.
//!
//! Layout: an 8-byte little-endian instruction count, then each instruction
//! as one tag byte followed by its operand — 4 little-endian bytes for a
//! `push` literal, 8 little-endian bytes for an address or duplication
//! index. Encoding and decoding are proved to round-trip exactly
//! ([`lemma_codec_round_trip`]).

use vstd::prelude::*;

use vstd::bytes::{
    lemma_auto_spec_u32_to_from_le_bytes, lemma_auto_spec_u64_to_from_le_bytes,
    spec_u32_from_le_bytes, spec_u32_to_le_bytes, spec_u64_from_le_bytes, spec_u64_to_le_bytes,
    u32_from_le_bytes, u32_to_le_bytes, u64_from_le_bytes, u64_to_le_bytes,
};
use vstd::slice::slice_subrange;

use crate::instruction::Instruction;
use crate::vm::RvimError;
use crate::Word;

verus! {

/// The unsigned 32-bit pattern that stands for a word in the encoding
/// (two's complement).
pub open spec fn word_to_u32(w: Word) -> u32 {
    if w >= 0 {
        w as u32
    } else {
        (w + 0x1_0000_0000) as u32
    }
}

/// The word a 32-bit pattern stands for (two's complement).
pub open spec fn u32_to_word(x: u32) -> Word {
    if x <= Word::MAX {
        x as Word
    } else {
        (x - 0x1_0000_0000) as Word
    }
}

proof fn lemma_word_u32_round_trip(w: Word)
    ensures
        u32_to_word(word_to_u32(w)) == w,
{
}

fn word_to_u32_exec(w: Word) -> (x: u32)
    ensures
        x == word_to_u32(w),
{
    if w >= 0 {
        w as u32
    } else {
        ((w as i64) + 0x1_0000_0000) as u32
    }
}

fn u32_to_word_exec(x: u32) -> (w: Word)
    ensures
        w == u32_to_word(x),
{
    if x <= 0x7fff_ffff {
        x as Word
    } else {
        ((x as i64) - 0x1_0000_0000) as Word
    }
}

/// The encoding of one instruction: a tag byte, then the operand if the
/// opcode carries one.
pub open spec fn spec_encode_inst(i: Instruction) -> Seq<u8> {
    match i {
        Instruction::Push(x) => seq![0u8] + spec_u32_to_le_bytes(word_to_u32(x)),
        Instruction::Pop => seq![1u8],
        Instruction::Add => seq![2u8],
        Instruction::Sub => seq![3u8],
        Instruction::Mul => seq![4u8],
        Instruction::Div => seq![5u8],
        Instruction::Halt => seq![6u8],
        Instruction::Jmp(t) => seq![7u8] + spec_u64_to_le_bytes(t as u64),
        Instruction::Eq => seq![8u8],
        Instruction::Jif(t) => seq![9u8] + spec_u64_to_le_bytes(t as u64),
        Instruction::Jifz(t) => seq![10u8] + spec_u64_to_le_bytes(t as u64),
        Instruction::Dup(t) => seq![11u8] + spec_u64_to_le_bytes(t as u64),
        Instruction::Swap => seq![12u8],
        Instruction::Rot => seq![13u8],
    }
}

/// The concatenated encodings of a sequence of instructions.
pub open spec fn spec_encode_seq(p: Seq<Instruction>) -> Seq<u8>
    decreases p.len(),
{
    if p.len() == 0 {
        Seq::<u8>::empty()
    } else {
        spec_encode_inst(p[0]) + spec_encode_seq(p.skip(1))
    }
}

/// The whole binary image of a program: its length, then its instructions.
pub open spec fn spec_encode(p: Seq<Instruction>) -> Seq<u8> {
    spec_u64_to_le_bytes(p.len() as u64) + spec_encode_seq(p)
}

/// Decoding one instruction from the head of `b`: the instruction and the
/// bytes that follow it, or nothing if `b` does not start with a valid
/// encoding.
pub open spec fn spec_decode_inst(b: Seq<u8>) -> Option<(Instruction, Seq<u8>)> {
    if b.len() < 1 {
        None
    } else {
        let tag = b[0];
        let r = b.skip(1);
        if tag == 0 {
            if r.len() < 4 {
                None
            } else {
                Some(
                    (
                        Instruction::Push(u32_to_word(spec_u32_from_le_bytes(r.take(4)))),
                        r.skip(4),
                    ),
                )
            }
        } else if tag == 1 {
            Some((Instruction::Pop, r))
        } else if tag == 2 {
            Some((Instruction::Add, r))
        } else if tag == 3 {
            Some((Instruction::Sub, r))
        } else if tag == 4 {
            Some((Instruction::Mul, r))
        } else if tag == 5 {
            Some((Instruction::Div, r))
        } else if tag == 6 {
            Some((Instruction::Halt, r))
        } else if tag == 7 {
            spec_decode_addr_as(r, |t: usize| Instruction::Jmp(t))
        } else if tag == 8 {
            Some((Instruction::Eq, r))
        } else if tag == 9 {
            spec_decode_addr_as(r, |t: usize| Instruction::Jif(t))
        } else if tag == 10 {
            spec_decode_addr_as(r, |t: usize| Instruction::Jifz(t))
        } else if tag == 11 {
            spec_decode_addr_as(r, |t: usize| Instruction::Dup(t))
        } else if tag == 12 {
            Some((Instruction::Swap, r))
        } else if tag == 13 {
            Some((Instruction::Rot, r))
        } else {
            None
        }
    }
}

/// Decoding an 8-byte operand from the head of `r` into an instruction,
/// refusing values that do not fit a program index on this machine.
pub open spec fn spec_decode_addr_as(r: Seq<u8>, make: spec_fn(usize) -> Instruction) -> Option<
    (Instruction, Seq<u8>),
> {
    if r.len() < 8 {
        None
    } else {
        let v = spec_u64_from_le_bytes(r.take(8));
        if v <= usize::MAX as u64 {
            Some((make(v as usize), r.skip(8)))
        } else {
            None
        }
    }
}

/// Decoding exactly `n` instructions from the head of `b`.
pub open spec fn spec_decode_insts(b: Seq<u8>, n: nat) -> Option<(Seq<Instruction>, Seq<u8>)>
    decreases n,
{
    if n == 0 {
        Some((Seq::<Instruction>::empty(), b))
    } else {
        match spec_decode_inst(b) {
            None => None,
            Some((i, r)) => match spec_decode_insts(r, (n - 1) as nat) {
                None => None,
                Some((s, r2)) => Some((seq![i] + s, r2)),
            },
        }
    }
}

/// The program a byte image stands for: present exactly when the image is
/// a complete, canonical encoding with nothing left over.
pub open spec fn spec_decode(b: Seq<u8>) -> Option<Seq<Instruction>> {
    if b.len() < 8 {
        None
    } else {
        let n = spec_u64_from_le_bytes(b.take(8));
        match spec_decode_insts(b.skip(8), n as nat) {
            None => None,
            Some((p, rest)) => if rest.len() == 0 {
                Some(p)
            } else {
                None
            },
        }
    }
}

/// A decoded prefix, prepended to what decoding the remainder yields.
pub open spec fn decode_prepend(pre: Seq<Instruction>, rest: Option<(Seq<Instruction>, Seq<u8>)>)
    -> Option<(Seq<Instruction>, Seq<u8>)> {
    match rest {
        None => None,
        Some((s, r)) => Some((pre + s, r)),
    }
}

proof fn lemma_decode_prepend_step(
    pre: Seq<Instruction>,
    i: Instruction,
    rest: Option<(Seq<Instruction>, Seq<u8>)>,
)
    ensures
        decode_prepend(pre, decode_prepend(seq![i], rest)) == decode_prepend(pre.push(i), rest),
{
    match rest {
        None => {},
        Some((s, r)) => {
            assert(pre + (seq![i] + s) =~= pre.push(i) + s);
        },
    }
}

/// Serialize a program into its binary image.
pub fn encode_program(prog: &Vec<Instruction>) -> (r: Vec<u8>)
    ensures
        r@ == spec_encode(prog@),
{
    let mut out: Vec<u8> = u64_to_le_bytes(prog.len() as u64);
    proof {
        assert(prog@.skip(0) =~= prog@);
    }
    let mut i: usize = 0;
    while i < prog.len()
        invariant
            i <= prog.len(),
            out@ + spec_encode_seq(prog@.skip(i as int)) == spec_encode(prog@),
        decreases prog.len() - i,
    {
        let ghost pre = out@;
        let inst = prog[i];
        match inst {
            Instruction::Push(x) => {
                out.push(0u8);
                let mut operand = u32_to_le_bytes(word_to_u32_exec(x));
                out.append(&mut operand);
                proof {
                    assert(out@ =~= pre + spec_encode_inst(inst));
                }
            },
            Instruction::Pop => {
                out.push(1u8);
                proof {
                    assert(out@ =~= pre + spec_encode_inst(inst));
                }
            },
            Instruction::Add => {
                out.push(2u8);
                proof {
                    assert(out@ =~= pre + spec_encode_inst(inst));
                }
            },
            Instruction::Sub => {
                out.push(3u8);
                proof {
                    assert(out@ =~= pre + spec_encode_inst(inst));
                }
            },
            Instruction::Mul => {
                out.push(4u8);
                proof {
                    assert(out@ =~= pre + spec_encode_inst(inst));
                }
            },
            Instruction::Div => {
                out.push(5u8);
                proof {
                    assert(out@ =~= pre + spec_encode_inst(inst));
                }
            },
            Instruction::Halt => {
                out.push(6u8);
                proof {
                    assert(out@ =~= pre + spec_encode_inst(inst));
                }
            },
            Instruction::Jmp(t) => {
                out.push(7u8);
                let mut operand = u64_to_le_bytes(t as u64);
                out.append(&mut operand);
                proof {
                    assert(out@ =~= pre + spec_encode_inst(inst));
                }
            },
            Instruction::Eq => {
                out.push(8u8);
                proof {
                    assert(out@ =~= pre + spec_encode_inst(inst));
                }
            },
            Instruction::Jif(t) => {
                out.push(9u8);
                let mut operand = u64_to_le_bytes(t as u64);
                out.append(&mut operand);
                proof {
                    assert(out@ =~= pre + spec_encode_inst(inst));
                }
            },
            Instruction::Jifz(t) => {
                out.push(10u8);
                let mut operand = u64_to_le_bytes(t as u64);
                out.append(&mut operand);
                proof {
                    assert(out@ =~= pre + spec_encode_inst(inst));
                }
            },
            Instruction::Dup(t) => {
                out.push(11u8);
                let mut operand = u64_to_le_bytes(t as u64);
                out.append(&mut operand);
                proof {
                    assert(out@ =~= pre + spec_encode_inst(inst));
                }
            },
            Instruction::Swap => {
                out.push(12u8);
                proof {
                    assert(out@ =~= pre + spec_encode_inst(inst));
                }
            },
            Instruction::Rot => {
                out.push(13u8);
                proof {
                    assert(out@ =~= pre + spec_encode_inst(inst));
                }
            },
        }
        proof {
            assert(prog@.skip(i as int).skip(1) =~= prog@.skip(i + 1));
            assert(spec_encode_seq(prog@.skip(i as int)) == spec_encode_inst(inst)
                + spec_encode_seq(prog@.skip(i + 1)));
            assert(out@ + spec_encode_seq(prog@.skip(i + 1)) =~= pre + spec_encode_seq(
            prog@.skip(i as int)));
        }
        i += 1;
    }
    proof {
        assert(prog@.skip(prog@.len() as int) =~= Seq::<Instruction>::empty());
        assert(out@ =~= out@ + spec_encode_seq(prog@.skip(prog@.len() as int)));
    }
    out
}

/// Deserialize a binary image back into a program. `Ok` exactly when the
/// image is a complete encoding ([`spec_decode`]); anything else — a short
/// image, an unknown tag, a truncated operand, an oversized address, or
/// trailing bytes — is a bad-bytecode failure.
pub fn decode_program(bytes: &Vec<u8>) -> (r: Result<Vec<Instruction>, RvimError>)
    ensures
        match spec_decode(bytes@) {
            Some(p) => r is Ok && r->Ok_0@ == p,
            None => r == Err::<Vec<Instruction>, RvimError>(RvimError::BadByteCode),
        },
{
    if bytes.len() < 8 {
        return Err(RvimError::BadByteCode);
    }
    let n = u64_from_le_bytes(slice_subrange(bytes.as_slice(), 0, 8));
    proof {
        assert(bytes@.subrange(0, 8) =~= bytes@.take(8));
    }
    let mut prog: Vec<Instruction> = Vec::new();
    let mut pos: usize = 8;
    let mut i: u64 = 0;
    while i < n
        invariant
            i <= n,
            8 <= pos <= bytes@.len(),
            n == spec_u64_from_le_bytes(bytes@.take(8)),
            decode_prepend(prog@, spec_decode_insts(bytes@.skip(pos as int), (n - i) as nat))
                == spec_decode_insts(bytes@.skip(8), n as nat),
        decreases n - i,
    {
        let ghost pre = prog@;
        let ghost here = bytes@.skip(pos as int);
        let ghost left = (n - i) as nat;
        if pos >= bytes.len() {
            return Err(RvimError::BadByteCode);
        }
        let tag = bytes[pos];
        proof {
            assert(here[0] == tag);
            assert(here.skip(1) =~= bytes@.skip(pos + 1));
        }
        let avail = bytes.len() - (pos + 1);
        let inst: Instruction;
        let width: usize;
        if tag == 0 {
            if avail < 4 {
                proof {
                    assert(here.skip(1).len() < 4);
                }
                return Err(RvimError::BadByteCode);
            }
            let w = u32_from_le_bytes(slice_subrange(bytes.as_slice(), pos + 1, pos + 5));
            inst = Instruction::Push(u32_to_word_exec(w));
            width = 5;
            proof {
                assert(bytes@.skip(pos + 1).take(4) =~= bytes@.subrange(pos + 1, pos + 5));
                assert(bytes@.skip(pos + 1).skip(4) =~= bytes@.skip(pos + 5));
            }
        } else if tag == 7 || tag == 9 || tag == 10 || tag == 11 {
            if avail < 8 {
                proof {
                    assert(here.skip(1).len() < 8);
                }
                return Err(RvimError::BadByteCode);
            }
            let v = u64_from_le_bytes(slice_subrange(bytes.as_slice(), pos + 1, pos + 9));
            proof {
                assert(bytes@.skip(pos + 1).take(8) =~= bytes@.subrange(pos + 1, pos + 9));
                assert(bytes@.skip(pos + 1).skip(8) =~= bytes@.skip(pos + 9));
            }
            if v > usize::MAX as u64 {
                return Err(RvimError::BadByteCode);
            }
            let t = v as usize;
            inst = if tag == 7 {
                Instruction::Jmp(t)
            } else if tag == 9 {
                Instruction::Jif(t)
            } else if tag == 10 {
                Instruction::Jifz(t)
            } else {
                Instruction::Dup(t)
            };
            width = 9;
        } else if tag == 1 {
            inst = Instruction::Pop;
            width = 1;
        } else if tag == 2 {
            inst = Instruction::Add;
            width = 1;
        } else if tag == 3 {
            inst = Instruction::Sub;
            width = 1;
        } else if tag == 4 {
            inst = Instruction::Mul;
            width = 1;
        } else if tag == 5 {
            inst = Instruction::Div;
            width = 1;
        } else if tag == 6 {
            inst = Instruction::Halt;
            width = 1;
        } else if tag == 8 {
            inst = Instruction::Eq;
            width = 1;
        } else if tag == 12 {
            inst = Instruction::Swap;
            width = 1;
        } else if tag == 13 {
            inst = Instruction::Rot;
            width = 1;
        } else {
            return Err(RvimError::BadByteCode);
        }
        proof {
            assert(spec_decode_inst(here) == Some((inst, bytes@.skip(pos + width))));
            lemma_decode_prepend_step(
                pre,
                inst,
                spec_decode_insts(bytes@.skip(pos + width), (left - 1) as nat),
            );
        }
        prog.push(inst);
        pos = pos + width;
        i = i + 1;
    }
    proof {
        assert(spec_decode_insts(bytes@.skip(pos as int), 0nat) == Some(
        (Seq::<Instruction>::empty(), bytes@.skip(pos as int))));
        assert(prog@ + Seq::<Instruction>::empty() =~= prog@);
        assert(spec_decode_insts(bytes@.skip(8), n as nat) == Some(
        (prog@, bytes@.skip(pos as int))));
    }
    if pos != bytes.len() {
        return Err(RvimError::BadByteCode);
    }
    Ok(prog)
}

/// One encoded instruction at the head of a byte stream decodes back to
/// itself, leaving the stream's tail untouched.
proof fn lemma_decode_inst_of_encode(i: Instruction, rest: Seq<u8>)
    ensures
        spec_decode_inst(spec_encode_inst(i) + rest) == Some((i, rest)),
{
    lemma_auto_spec_u32_to_from_le_bytes();
    lemma_auto_spec_u64_to_from_le_bytes();
    let b = spec_encode_inst(i) + rest;
    match i {
        Instruction::Push(x) => {
            let le = spec_u32_to_le_bytes(word_to_u32(x));
            assert(b.skip(1) =~= le + rest);
            assert((le + rest).take(4) =~= le);
            assert((le + rest).skip(4) =~= rest);
            lemma_word_u32_round_trip(x);
        },
        Instruction::Jmp(t) => {
            lemma_decode_addr_of_encode(t, rest);
            assert(b.skip(1) =~= spec_u64_to_le_bytes(t as u64) + rest);
        },
        Instruction::Jif(t) => {
            lemma_decode_addr_of_encode(t, rest);
            assert(b.skip(1) =~= spec_u64_to_le_bytes(t as u64) + rest);
        },
        Instruction::Jifz(t) => {
            lemma_decode_addr_of_encode(t, rest);
            assert(b.skip(1) =~= spec_u64_to_le_bytes(t as u64) + rest);
        },
        Instruction::Dup(t) => {
            lemma_decode_addr_of_encode(t, rest);
            assert(b.skip(1) =~= spec_u64_to_le_bytes(t as u64) + rest);
        },
        _ => {
            assert(b.skip(1) =~= rest);
        },
    }
}

proof fn lemma_decode_addr_of_encode(t: usize, rest: Seq<u8>)
    ensures
        ({
            let r = spec_u64_to_le_bytes(t as u64) + rest;
            &&& r.len() >= 8
            &&& r.take(8) == spec_u64_to_le_bytes(t as u64)
            &&& r.skip(8) == rest
            &&& spec_u64_from_le_bytes(r.take(8)) == t as u64
            &&& (t as u64) <= usize::MAX as u64
            &&& (t as u64) as usize == t
        }),
{
    lemma_auto_spec_u64_to_from_le_bytes();
    let le = spec_u64_to_le_bytes(t as u64);
    let r = le + rest;
    assert(r.take(8) =~= le);
    assert(r.skip(8) =~= rest);
}

/// Encoded instructions decode back one by one, in order.
proof fn lemma_decode_insts_of_encode(p: Seq<Instruction>, rest: Seq<u8>)
    ensures
        spec_decode_insts(spec_encode_seq(p) + rest, p.len()) == Some((p, rest)),
    decreases p.len(),
{
    if p.len() == 0 {
        assert(spec_encode_seq(p) + rest =~= rest);
    } else {
        let tail = p.skip(1);
        assert(spec_encode_seq(p) + rest =~= spec_encode_inst(p[0]) + (spec_encode_seq(tail)
            + rest));
        lemma_decode_inst_of_encode(p[0], spec_encode_seq(tail) + rest);
        lemma_decode_insts_of_encode(tail, rest);
        assert(seq![p[0]] + tail =~= p);
    }
}

/// Law: the codec round-trips. Encoding any program — whatever mix of
/// opcodes and operand values it holds — and decoding the image yields the
/// original sequence, element for element. (The length prefix is 64 bits,
/// whence the one machine-limit bound.)
pub proof fn lemma_codec_round_trip(p: Seq<Instruction>)
    requires
        p.len() <= u64::MAX,
    ensures
        spec_decode(spec_encode(p)) == Some(p),
{
    lemma_auto_spec_u64_to_from_le_bytes();
    let le = spec_u64_to_le_bytes(p.len() as u64);
    let b = spec_encode(p);
    assert(b.take(8) =~= le);
    assert(b.skip(8) =~= spec_encode_seq(p) + Seq::<u8>::empty());
    lemma_decode_insts_of_encode(p, Seq::<u8>::empty());
}

} // verus!
