//! Byte-level text utilities for the assembler: splitting source text into
//! lines, splitting lines into whitespace-separated tokens, and parsing
//! decimal integer tokens the way Rust's own integer parser does (optional
//! sign, then decimal digits, rejected when out of range).

use vstd::prelude::*;

verus! {

/// Line feed, the line separator.
pub const LF: u8 = 10;

/// The token-separating whitespace bytes: space, tab, carriage return,
/// vertical tab and form feed. Whitespace is ASCII only, by choice: a
/// multi-byte Unicode space is an ordinary part of a token.
pub open spec fn is_ws(b: u8) -> bool {
    b == 32 || b == 9 || b == 13 || b == 11 || b == 12
}

fn is_ws_byte(b: u8) -> (r: bool)
    ensures
        r == is_ws(b),
{
    b == 32 || b == 9 || b == 13 || b == 11 || b == 12
}

/// An ASCII decimal digit.
pub open spec fn is_digit(b: u8) -> bool {
    48 <= b <= 57
}

pub(crate) fn is_digit_byte(b: u8) -> (r: bool)
    ensures
        r == is_digit(b),
{
    48 <= b && b <= 57
}

/// Index of the first line feed in `s`, or `s.len()` if there is none.
pub open spec fn first_lf(s: Seq<u8>) -> int
    decreases s.len(),
{
    if s.len() == 0 {
        0
    } else if s[0] == LF {
        0
    } else {
        1 + first_lf(s.skip(1))
    }
}

proof fn lemma_first_lf_at(s: Seq<u8>, i: int)
    requires
        0 <= i <= s.len(),
        i < s.len() ==> s[i] == LF,
        forall|j: int| 0 <= j < i ==> s[j] != LF,
    ensures
        first_lf(s) == i,
    decreases i,
{
    if s.len() != 0 && s[0] != LF {
        lemma_first_lf_at(s.skip(1), i - 1);
    }
}

/// The lines of a byte text, separated by line feeds; a trailing line feed
/// does not open a final empty line.
pub open spec fn spec_lines(s: Seq<u8>) -> Seq<Seq<u8>>
    decreases s.len(),
{
    if s.len() == 0 {
        Seq::<Seq<u8>>::empty()
    } else {
        let i = first_lf(s);
        if 0 <= i < s.len() {
            seq![s.take(i)] + spec_lines(s.skip(i + 1))
        } else {
            seq![s]
        }
    }
}

/// Split source text into its lines.
pub fn split_lines(src: &Vec<u8>) -> (r: Vec<Vec<u8>>)
    ensures
        r@.map_values(|l: Vec<u8>| l@) == spec_lines(src@),
{
    let mut r: Vec<Vec<u8>> = Vec::new();
    let mut pos: usize = 0;
    proof {
        assert(src@.skip(0) =~= src@);
    }
    while pos < src.len()
        invariant
            pos <= src@.len(),
            r@.map_values(|l: Vec<u8>| l@) + spec_lines(src@.skip(pos as int)) == spec_lines(
            src@),
        decreases src@.len() - pos,
    {
        let ghost pre = r@.map_values(|l: Vec<u8>| l@);
        let ghost here = src@.skip(pos as int);
        let mut j: usize = pos;
        while j < src.len() && src[j] != LF
            invariant
                pos <= j <= src@.len(),
                forall|k: int| pos <= k < j ==> src@[k] != LF,
            decreases src@.len() - j,
        {
            j += 1;
        }
        proof {
            lemma_first_lf_at(here, j - pos);
        }
        let line = vstd::slice::slice_to_vec(vstd::slice::slice_subrange(
            src.as_slice(),
            pos,
            j,
        ));
        proof {
            assert(line@ =~= here.take(j - pos));
        }
        r.push(line);
        proof {
            assert(r@.map_values(|l: Vec<u8>| l@) =~= pre.push(line@));
        }
        if j < src.len() {
            proof {
                assert(here.skip(j - pos + 1) =~= src@.skip(j + 1));
                assert(pre.push(line@) + spec_lines(src@.skip(j + 1)) =~= pre + (seq![line@]
                    + spec_lines(src@.skip(j + 1))));
            }
            pos = j + 1;
        } else {
            proof {
                assert(spec_lines(here) =~= seq![line@]);
                assert(pre.push(line@) + spec_lines(src@.skip(src@.len() as int)) =~= pre
                    + spec_lines(here));
            }
            pos = j;
        }
    }
    proof {
        assert(src@.skip(pos as int) =~= Seq::<u8>::empty());
        assert(r@.map_values(|l: Vec<u8>| l@) + spec_lines(Seq::<u8>::empty()) =~= r@.map_values(
        |l: Vec<u8>| l@));
    }
    r
}

/// Index of the first whitespace byte in `s`, or `s.len()` if there is
/// none.
pub open spec fn first_ws(s: Seq<u8>) -> int
    decreases s.len(),
{
    if s.len() == 0 {
        0
    } else if is_ws(s[0]) {
        0
    } else {
        1 + first_ws(s.skip(1))
    }
}

proof fn lemma_first_ws_at(s: Seq<u8>, i: int)
    requires
        0 <= i <= s.len(),
        i < s.len() ==> is_ws(s[i]),
        forall|j: int| 0 <= j < i ==> !is_ws(s[j]),
    ensures
        first_ws(s) == i,
    decreases i,
{
    if s.len() != 0 && !is_ws(s[0]) {
        lemma_first_ws_at(s.skip(1), i - 1);
    }
}

/// The whitespace-separated tokens of a line, in order; every token is
/// nonempty and holds no whitespace.
pub open spec fn spec_tokens(s: Seq<u8>) -> Seq<Seq<u8>>
    decreases s.len(),
{
    if s.len() == 0 {
        Seq::<Seq<u8>>::empty()
    } else if is_ws(s[0]) {
        spec_tokens(s.skip(1))
    } else {
        let i = first_ws(s);
        if 0 < i <= s.len() {
            seq![s.take(i)] + spec_tokens(s.skip(i))
        } else {
            Seq::<Seq<u8>>::empty()
        }
    }
}

/// Split a line into its tokens.
pub fn tokenize(line: &Vec<u8>) -> (r: Vec<Vec<u8>>)
    ensures
        r@.map_values(|t: Vec<u8>| t@) == spec_tokens(line@),
{
    let mut r: Vec<Vec<u8>> = Vec::new();
    let mut pos: usize = 0;
    proof {
        assert(line@.skip(0) =~= line@);
    }
    while pos < line.len()
        invariant
            pos <= line@.len(),
            r@.map_values(|t: Vec<u8>| t@) + spec_tokens(line@.skip(pos as int)) == spec_tokens(
            line@),
        decreases line@.len() - pos,
    {
        let ghost pre = r@.map_values(|t: Vec<u8>| t@);
        let ghost here = line@.skip(pos as int);
        if is_ws_byte(line[pos]) {
            proof {
                assert(here.skip(1) =~= line@.skip(pos + 1));
            }
            pos += 1;
        } else {
            let mut j: usize = pos + 1;
            while j < line.len() && !is_ws_byte(line[j])
                invariant
                    pos < j <= line@.len(),
                    forall|k: int| pos <= k < j ==> !is_ws(line@[k]),
                    !is_ws(line@[pos as int]),
                decreases line@.len() - j,
            {
                j += 1;
            }
            proof {
                lemma_first_ws_at(here, j - pos);
            }
            let tok = vstd::slice::slice_to_vec(vstd::slice::slice_subrange(
                line.as_slice(),
                pos,
                j,
            ));
            proof {
                assert(tok@ =~= here.take(j - pos));
                assert(here.skip(j - pos) =~= line@.skip(j as int));
            }
            r.push(tok);
            proof {
                assert(r@.map_values(|t: Vec<u8>| t@) =~= pre.push(tok@));
                assert(pre.push(tok@) + spec_tokens(line@.skip(j as int)) =~= pre + (seq![tok@]
                    + spec_tokens(line@.skip(j as int))));
            }
            pos = j;
        }
    }
    proof {
        assert(line@.skip(pos as int) =~= Seq::<u8>::empty());
        assert(r@.map_values(|t: Vec<u8>| t@) + spec_tokens(Seq::<u8>::empty()) =~= r@.map_values(
        |t: Vec<u8>| t@));
    }
    r
}

/// The numeric value of a digit string (0 for the empty string).
pub open spec fn digits_val(s: Seq<u8>) -> int
    decreases s.len(),
{
    if s.len() == 0 {
        0
    } else {
        10 * digits_val(s.drop_last()) + (s.last() - 48)
    }
}

/// Every byte of `s` is a decimal digit.
pub open spec fn all_digits(s: Seq<u8>) -> bool {
    forall|j: int| 0 <= j < s.len() ==> is_digit(s[j])
}

/// Powers of ten.
pub open spec fn pow10(n: nat) -> int
    decreases n,
{
    if n == 0 {
        1
    } else {
        10 * pow10((n - 1) as nat)
    }
}

proof fn lemma_digits_val_bounds(s: Seq<u8>)
    requires
        all_digits(s),
    ensures
        0 <= digits_val(s) < pow10(s.len()),
    decreases s.len(),
{
    if s.len() > 0 {
        assert(all_digits(s.drop_last())) by {
            assert(forall|j: int|
                0 <= j < s.len() - 1 ==> s.drop_last()[j] == s[j] && is_digit(s[j]));
        }
        lemma_digits_val_bounds(s.drop_last());
    }
}

proof fn lemma_digits_val_lower(s: Seq<u8>)
    requires
        all_digits(s),
        s.len() > 0,
        s[0] != 48,
    ensures
        digits_val(s) >= pow10((s.len() - 1) as nat),
    decreases s.len(),
{
    if s.len() == 1 {
    } else {
        assert(all_digits(s.drop_last())) by {
            assert(forall|j: int|
                0 <= j < s.len() - 1 ==> s.drop_last()[j] == s[j] && is_digit(s[j]));
        }
        assert(s.drop_last()[0] == s[0]);
        lemma_digits_val_lower(s.drop_last());
        assert(is_digit(s.last()));
        assert(digits_val(s) == 10 * digits_val(s.drop_last()) + (s.last() - 48));
        assert(pow10((s.len() - 1) as nat) == 10 * pow10((s.len() - 2) as nat));
    }
}

proof fn lemma_digits_val_strip_zero(s: Seq<u8>)
    requires
        s.len() > 0,
        s[0] == 48,
    ensures
        digits_val(s) == digits_val(s.skip(1)),
    decreases s.len(),
{
    if s.len() == 1 {
        assert(s.drop_last() =~= Seq::<u8>::empty());
        assert(s.skip(1) =~= Seq::<u8>::empty());
    } else {
        lemma_digits_val_strip_zero(s.drop_last());
        assert(s.drop_last().skip(1) =~= s.skip(1).drop_last());
        assert(s.skip(1).last() == s.last());
    }
}

proof fn lemma_digits_val_strip_zeros(s: Seq<u8>, m: int)
    requires
        0 <= m <= s.len(),
        forall|j: int| 0 <= j < m ==> s[j] == 48,
    ensures
        digits_val(s) == digits_val(s.skip(m)),
    decreases m,
{
    if m > 0 {
        lemma_digits_val_strip_zero(s);
        lemma_digits_val_strip_zeros(s.skip(1), m - 1);
        assert(s.skip(1).skip(m - 1) =~= s.skip(m));
    } else {
        assert(s.skip(0) =~= s);
    }
}

/// How an integer token reads: an optional sign, then its digit string.
pub open spec fn token_sign(s: Seq<u8>) -> bool {
    s.len() > 0 && s[0] == 45
}

/// The digits of an integer token, after any leading sign.
pub open spec fn token_digits(s: Seq<u8>) -> Seq<u8> {
    if s.len() > 0 && (s[0] == 43 || s[0] == 45) {
        s.skip(1)
    } else {
        s
    }
}

/// Whether a token is a well-formed decimal integer: an optional `+` or
/// `-`, then at least one digit and nothing else.
pub open spec fn is_int_token(s: Seq<u8>) -> bool {
    token_digits(s).len() > 0 && all_digits(token_digits(s))
}

/// The mathematical value a well-formed integer token denotes.
pub open spec fn int_token_val(s: Seq<u8>) -> int {
    if token_sign(s) {
        -digits_val(token_digits(s))
    } else {
        digits_val(token_digits(s))
    }
}

/// What parsing a token as a 32-bit word yields: its value exactly when
/// the token is well formed and the value fits.
pub open spec fn word_of_token(s: Seq<u8>) -> Option<i32> {
    if is_int_token(s) && i32::MIN <= int_token_val(s) <= i32::MAX {
        Some(int_token_val(s) as i32)
    } else {
        None
    }
}

/// What parsing a token as an index (a `usize`) yields: its value exactly
/// when the token is well formed, unsigned and fits. (An optional `+` is
/// accepted and any `-` sign refused, as Rust's unsigned parser does.)
pub open spec fn index_of_token(s: Seq<u8>) -> Option<usize> {
    if is_int_token(s) && !token_sign(s) && int_token_val(s) <= usize::MAX {
        Some(int_token_val(s) as usize)
    } else {
        None
    }
}

/// Shared scan for both integer parsers: strips the sign, checks the
/// digits, and accumulates the magnitude, which every well-formed decimal
/// of at most 20 significant digits fits into (as a `u128`).
/// Yields (negative, magnitude) or nothing for a malformed or oversized
/// token.
#[verifier::loop_isolation(false)]
fn scan_int_token(tok: &Vec<u8>) -> (r: Option<(bool, u128)>)
    ensures
        match r {
            Some((neg, mag)) => is_int_token(tok@) && neg == token_sign(tok@) && mag == digits_val(
            token_digits(tok@)),
            None => !is_int_token(tok@) || int_token_val(tok@) > u64::MAX
                || int_token_val(tok@) < -(u64::MAX as int),
        },
{
    let ghost d = token_digits(tok@);
    if tok.len() == 0 {
        return None;
    }
    let mut k: usize = 0;
    let mut neg = false;
    if tok[0] == 43 {
        k = 1;
    } else if tok[0] == 45 {
        neg = true;
        k = 1;
    }
    proof {
        assert(d =~= tok@.skip(k as int));
    }
    if k == tok.len() {
        return None;
    }
    let mut j: usize = k;
    while j < tok.len()
        invariant
            k <= j <= tok@.len(),
            forall|p: int| k <= p < j ==> is_digit(tok@[p]),
        decreases tok@.len() - j,
    {
        if !is_digit_byte(tok[j]) {
            assert(!is_digit(d[j - k]));
            return None;
        }
        j += 1;
    }
    assert(all_digits(d));
    // Skip leading zeros so the number of significant digits bounds the
    // magnitude.
    let mut z: usize = k;
    while z < tok.len() && tok[z] == 48
        invariant
            k <= z <= tok@.len(),
            forall|p: int| k <= p < z ==> tok@[p] == 48,
        decreases tok@.len() - z,
    {
        z += 1;
    }
    proof {
        lemma_digits_val_strip_zeros(d, z - k);
        assert(d.skip(z - k) =~= tok@.skip(z as int));
    }
    let ghost sig = tok@.skip(z as int);
    if tok.len() - z > 20 {
        proof {
            lemma_digits_val_lower(sig);
            assert(pow10((sig.len() - 1) as nat) >= pow10(20)) by {
                lemma_pow10_increases(20nat, (sig.len() - 1) as nat);
            }
            assert(pow10(20) == 100000000000000000000) by {
                reveal_with_fuel(pow10, 21);
            }
        }
        return None;
    }
    proof {
        assert(pow10(20) == 100000000000000000000) by {
            reveal_with_fuel(pow10, 21);
        }
        lemma_pow10_increases(0nat, 20nat);
        assert(sig.take(0) =~= Seq::<u8>::empty());
    }
    let mut mag: u128 = 0;
    let mut p: usize = z;
    while p < tok.len()
        invariant
            z <= p <= tok@.len(),
            tok@.len() - z <= 20,
            all_digits(sig),
            sig == tok@.skip(z as int),
            mag == digits_val(tok@.skip(z as int).take(p - z)),
            mag < pow10((p - z) as nat),
            pow10((p - z) as nat) <= pow10(20),
            pow10(20) == 100000000000000000000,
        decreases tok@.len() - p,
    {
        let b = tok[p];
        assert(is_digit(b));
        let ghost prefix = sig.take(p - z);
        mag = mag * 10 + ((b - 48) as u128);
        proof {
            assert(sig.take(p + 1 - z).drop_last() =~= prefix);
            assert(sig.take(p + 1 - z).last() == b);
            lemma_pow10_increases((p + 1 - z) as nat, 20nat);
        }
        p += 1;
    }
    proof {
        assert(tok@.skip(z as int).take(tok@.len() - z) =~= tok@.skip(z as int));
    }
    Some((neg, mag))
}

proof fn lemma_pow10_increases(a: nat, b: nat)
    requires
        a <= b,
    ensures
        pow10(a) <= pow10(b),
        pow10(a) >= 1,
    decreases b,
{
    if b > 0 {
        if a == b {
            lemma_pow10_increases((a - 1) as nat, (b - 1) as nat);
        } else {
            lemma_pow10_increases(a, (b - 1) as nat);
        }
    }
}

/// Parse a token as a signed 32-bit word, as `push` operands are written.
pub fn parse_word_token(tok: &Vec<u8>) -> (r: Option<i32>)
    ensures
        r == word_of_token(tok@),
{
    match scan_int_token(tok) {
        None => None,
        Some((neg, mag)) => {
            if neg {
                if mag > 0x8000_0000u128 {
                    None
                } else {
                    Some((-(mag as i64)) as i32)
                }
            } else {
                if mag > 0x7fff_ffffu128 {
                    None
                } else {
                    Some(mag as i32)
                }
            }
        },
    }
}

/// Parse a token as a non-negative index, as `dup` operands and literal
/// jump targets are written.
pub fn parse_index_token(tok: &Vec<u8>) -> (r: Option<usize>)
    ensures
        r == index_of_token(tok@),
{
    match scan_int_token(tok) {
        None => {
            proof {
                if is_int_token(tok@) {
                    lemma_digits_val_bounds(token_digits(tok@));
                }
            }
            None
        },
        Some((neg, mag)) => {
            if neg {
                None
            } else {
                if mag > usize::MAX as u128 {
                    None
                } else {
                    Some(mag as usize)
                }
            }
        },
    }
}

} // verus!
