//! The front end: the lexer, which keeps the eight tokens of a source text,
//! and the lowerer, which turns tokens into run-length bytecode.

use vstd::prelude::*;
use vstd::slice::slice_subrange;
use vstd::utf8::encode_utf8;
use crate::bf::{is_token, Program};
use crate::bytecode_bf::{ByteCode, ByteCodeProgram};

verus! {

/// The byte is one of the eight tokens.
pub open spec fn is_token_byte(b: u8) -> bool {
    is_token(b as char)
}

/// The tokens among `bytes`, in their order.
pub open spec fn lex(bytes: Seq<u8>) -> Seq<char> {
    bytes.filter(|b: u8| is_token_byte(b)).map_values(|b: u8| b as char)
}

/// The token is one of the four that the lowerer counts: `>`, `<`, `+`, `-`.
pub open spec fn is_counted(c: char) -> bool {
    c == '>' || c == '<' || c == '+' || c == '-'
}

/// Number of tokens directly behind position `i` that repeat the token at
/// `i`.
pub open spec fn repeats(tokens: Seq<char>, i: int) -> nat
    decreases tokens.len() - i,
{
    if 0 <= i && i + 1 < tokens.len() && tokens[i + 1] == tokens[i] {
        1 + repeats(tokens, i + 1)
    } else {
        0
    }
}

/// The opcode for a token that stands `count` times in a row. A character
/// that is no token becomes `Nop`.
pub open spec fn lower_token(c: char, count: usize) -> ByteCode {
    if c == '[' {
        ByteCode::JZ
    } else if c == ']' {
        ByteCode::JNZ
    } else if c == '.' {
        ByteCode::Write
    } else if c == ',' {
        ByteCode::Read
    } else if c == '+' {
        ByteCode::DataIncr(count)
    } else if c == '-' {
        ByteCode::DataDecr(count)
    } else if c == '>' {
        ByteCode::DataPointerIncr(count)
    } else if c == '<' {
        ByteCode::DataPointerDecr(count)
    } else {
        ByteCode::Nop
    }
}

/// The token at `i` repeats the counted token in front of it.
pub open spec fn continues_run(tokens: Seq<char>, i: int) -> bool {
    0 < i < tokens.len() && is_counted(tokens[i]) && tokens[i - 1] == tokens[i]
}

/// The bytecode of the tokens from position `i` on: one opcode where a run of
/// a counted token starts, with the length of the run, one opcode for every
/// other token, and nothing for a token that continues a run.
pub open spec fn lower_from(tokens: Seq<char>, i: int) -> Seq<ByteCode>
    decreases tokens.len() - i,
{
    if i < 0 || i >= tokens.len() {
        Seq::empty()
    } else if continues_run(tokens, i) {
        lower_from(tokens, i + 1)
    } else if is_counted(tokens[i]) {
        seq![lower_token(tokens[i], (1 + repeats(tokens, i)) as usize)] + lower_from(tokens, i + 1)
    } else {
        seq![lower_token(tokens[i], 1)] + lower_from(tokens, i + 1)
    }
}

/// The bytecode of a token sequence.
pub open spec fn lower(tokens: Seq<char>) -> Seq<ByteCode> {
    lower_from(tokens, 0)
}

/// No token continues a run, from position `i` on.
pub open spec fn no_runs_from(tokens: Seq<char>, i: int) -> bool {
    forall|k: int| i <= k < tokens.len() ==> !continues_run(tokens, k)
}

/// No two adjacent counted tokens are equal.
pub open spec fn no_adjacent_repeat(tokens: Seq<char>) -> bool {
    forall|k: int|
        0 <= k && k + 1 < tokens.len() ==> !(is_counted(#[trigger] tokens[k]) && tokens[k + 1]
            == tokens[k])
}

/// A stretch of `r + 1` equal tokens from `i` on that cannot be extended is
/// the run at `i`.
pub proof fn lemma_repeats_is(tokens: Seq<char>, i: int, r: int)
    requires
        0 <= i,
        0 <= r,
        i + r < tokens.len(),
        forall|k: int| i <= k <= i + r ==> tokens[k] == tokens[i],
        i + r + 1 == tokens.len() || tokens[i + r + 1] != tokens[i],
    ensures
        repeats(tokens, i) == r,
    decreases r,
{
    if r > 0 {
        assert(tokens[i + 1] == tokens[i]);
        lemma_repeats_is(tokens, i + 1, r - 1);
    }
}

/// The tokens that continue the run of a counted token add nothing.
proof fn lemma_lower_skips_run(tokens: Seq<char>, i: int, j: int)
    requires
        0 <= i < j <= tokens.len(),
        is_counted(tokens[i]),
        forall|k: int| i <= k < j ==> tokens[k] == tokens[i],
    ensures
        lower_from(tokens, i + 1) == lower_from(tokens, j),
    decreases j - i,
{
    if i + 1 < j {
        assert(tokens[j - 1] == tokens[i]);
        assert(tokens[j - 2] == tokens[i]);
        assert(continues_run(tokens, j - 1));
        lemma_lower_skips_run(tokens, i, j - 1);
    }
}

/// Lowering never lengthens: the bytecode of the tokens from `i` on has at
/// most as many opcodes as there are tokens, and exactly as many if and only
/// if none of them continues a run.
pub proof fn lemma_lower_from_contracts(tokens: Seq<char>, i: int)
    requires
        0 <= i <= tokens.len(),
    ensures
        lower_from(tokens, i).len() <= tokens.len() - i,
        lower_from(tokens, i).len() == tokens.len() - i <==> no_runs_from(tokens, i),
    decreases tokens.len() - i,
{
    if i < tokens.len() {
        lemma_lower_from_contracts(tokens, i + 1);
        if !continues_run(tokens, i) {
            assert(no_runs_from(tokens, i) <==> no_runs_from(tokens, i + 1));
        }
    }
}

/// The lowerer is a contraction: the bytecode has at most as many opcodes as
/// there are tokens, and exactly as many if and only if no two adjacent
/// counted tokens are equal.
pub proof fn lemma_lower_contracts(tokens: Seq<char>)
    ensures
        lower(tokens).len() <= tokens.len(),
        lower(tokens).len() == tokens.len() <==> no_adjacent_repeat(tokens),
{
    lemma_lower_from_contracts(tokens, 0);
    if no_runs_from(tokens, 0) {
        assert forall|k: int| 0 <= k && k + 1 < tokens.len() implies !(is_counted(
            #[trigger] tokens[k],
        ) && tokens[k + 1] == tokens[k]) by {
            assert(!continues_run(tokens, k + 1));
        }
    }
    if no_adjacent_repeat(tokens) {
        assert forall|k: int| 0 <= k < tokens.len() implies !continues_run(tokens, k) by {
            if k > 0 {
                assert(!(is_counted(tokens[k - 1]) && tokens[k] == tokens[k - 1]));
            }
        }
    }
}

/// The opcode for a token that stands `count` times in a row.
pub fn token_opcode(c: char, count: usize) -> (op: ByteCode)
    ensures
        op == lower_token(c, count),
{
    if c == '[' {
        ByteCode::JZ
    } else if c == ']' {
        ByteCode::JNZ
    } else if c == '.' {
        ByteCode::Write
    } else if c == ',' {
        ByteCode::Read
    } else if c == '+' {
        ByteCode::DataIncr(count)
    } else if c == '-' {
        ByteCode::DataDecr(count)
    } else if c == '>' {
        ByteCode::DataPointerIncr(count)
    } else if c == '<' {
        ByteCode::DataPointerDecr(count)
    } else {
        ByteCode::Nop
    }
}

/// The front end. It holds no state.
pub struct Parser {}

impl Parser {
    /// The lexer: keeps the tokens of a source text and drops every other
    /// byte.
    pub fn parse(src_code: String) -> (p: Program)
        ensures
            p.instructions@ == lex(encode_utf8(src_code@)),
            p.well_formed(),
    {
        let bytes: &[u8] = src_code.as_str().as_bytes();
        let n: usize = bytes.len();
        let mut instructions: Vec<char> = Vec::new();
        let mut i: usize = 0;
        let ghost keep = |b: u8| is_token_byte(b);
        let ghost show = |b: u8| b as char;
        while i < n
            invariant
                n == bytes@.len(),
                i <= n,
                keep == |b: u8| is_token_byte(b),
                show == |b: u8| b as char,
                instructions@ == bytes@.take(i as int).filter(keep).map_values(show),
                forall|k: int| 0 <= k < instructions@.len() ==> is_token(#[trigger] instructions@[k]),
            decreases n - i,
        {
            let b: u8 = bytes[i];
            proof {
                let seen = bytes@.take(i as int);
                seen.lemma_filter_push(b, keep);
                seen.filter(keep).lemma_push_map_commute(show, b);
                bytes@.lemma_take_succ_push(i as int);
            }
            if b == 62 || b == 60 || b == 43 || b == 45 || b == 46 || b == 44 || b == 91 || b == 93 {
                instructions.push(b as char);
            }
            i += 1;
        }
        assert(bytes@.take(n as int) =~= bytes@);
        Program { instructions }
    }

    /// Number of elements at the start of `vec` that equal `c`.
    pub fn count_contigous(vec: &[char], c: char) -> (count: usize)
        ensures
            count <= vec@.len(),
            forall|k: int| 0 <= k < count ==> vec@[k] == c,
            count < vec@.len() ==> vec@[count as int] != c,
    {
        let n: usize = vec.len();
        let mut i: usize = 0;
        while i < n && vec[i] == c
            invariant
                n == vec@.len(),
                i <= n,
                forall|k: int| 0 <= k < i ==> vec@[k] == c,
            decreases n - i,
        {
            i += 1;
        }
        i
    }

    /// The lexer followed by the lowerer.
    pub fn parse_to_bytecode(src_code: String) -> (p: ByteCodeProgram)
        ensures
            p.instructions@ == lower(lex(encode_utf8(src_code@))),
    {
        let program = Self::parse(src_code);
        let ghost tokens = program.instructions@;
        let mut bytecode_instrs: Vec<ByteCode> = Vec::new();
        let mut index: usize = 0;
        let prog_size: usize = program.instructions.len();
        while index < prog_size
            invariant
                tokens == program.instructions@,
                prog_size == tokens.len(),
                index <= prog_size,
                !continues_run(tokens, index as int),
                bytecode_instrs@ + lower_from(tokens, index as int) == lower(tokens),
            decreases prog_size - index,
        {
            let c: char = program.instructions[index];
            let ghost done = bytecode_instrs@;
            let ghost at = index as int;
            let mut occ: usize = 1;
            if c == '+' || c == '-' || c == '>' || c == '<' {
                occ = Self::count_contigous(
                    slice_subrange(program.instructions.as_slice(), index, prog_size),
                    c,
                );
                proof {
                    let tail = tokens.subrange(at, prog_size as int);
                    assert(tail[0] == c);
                    assert forall|k: int| at <= k <= at + (occ - 1) implies tokens[k] == tokens[at] by {
                        assert(tail[k - at] == c);
                    }
                    if at + occ < prog_size {
                        assert(tail[occ as int] != c);
                    }
                    lemma_repeats_is(tokens, at, occ - 1);
                    lemma_lower_skips_run(tokens, at, at + occ);
                }
            }

            let code = token_opcode(c, occ);
            bytecode_instrs.push(code);
            index += occ - 1;
            index += 1;
            proof {
                assert(done + (seq![code] + lower_from(tokens, index as int)) =~= bytecode_instrs@
                    + lower_from(tokens, index as int));
            }
        }
        assert(bytecode_instrs@ =~= lower(tokens));
        ByteCodeProgram { instructions: bytecode_instrs }
    }
}

} // verus!
