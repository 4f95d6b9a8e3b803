//! The native emitter for tokens: one fixed piece of machine code per token,
//! with the displacement of each `[` left blank until its `]` is reached.

use vstd::prelude::*;
use crate::bf::{is_token, token_kind, token_kinds, Program};
use crate::brackets::{
    first_unmatched, has_partner, lemma_pending_closer, lemma_pending_done,
    lemma_pending_leftover, lemma_pending_opener, lemma_pending_plain, lemma_pending_start,
    lemma_pending_stray, paired, partner, pending, pending_at, well_bracketed, Bracket,
};
use crate::error::JitError;
use crate::jit_utils::{
    compute_relative_32bit_offset, fits_rel32, le32, lemma_patch32_append, patch32,
    relative_32bit_offset_fits, wrap32, CodeEmitter,
};
use crate::x64::{
    add_cell, blank_field, jump_if_not_zero, jump_if_zero, load_tape, read_cell, ret, sub_cell,
    write_cell,
};

verus! {

/// `inc r13`.
pub open spec fn inc_cursor() -> Seq<u8> {
    seq![0x49u8, 0xFFu8, 0xC5u8]
}

/// `dec r13`.
pub open spec fn dec_cursor() -> Seq<u8> {
    seq![0x49u8, 0xFFu8, 0xCDu8]
}

/// The machine code of one token. `disp` is the displacement of its jump, for
/// `[` and `]`; for the others it plays no part.
pub open spec fn token_code(c: char, disp: int) -> Seq<u8> {
    if c == '>' {
        inc_cursor()
    } else if c == '<' {
        dec_cursor()
    } else if c == '+' {
        add_cell(1)
    } else if c == '-' {
        sub_cell(1)
    } else if c == '.' {
        write_cell()
    } else if c == ',' {
        read_cell()
    } else if c == '[' {
        jump_if_zero() + le32(wrap32(disp))
    } else if c == ']' {
        jump_if_not_zero() + le32(wrap32(disp))
    } else {
        Seq::empty()
    }
}

/// Number of bytes of the machine code of one token.
pub open spec fn token_len(c: char) -> int {
    if c == '>' || c == '<' {
        3
    } else if c == '+' || c == '-' {
        5
    } else if c == '.' || c == ',' {
        26
    } else if c == '[' || c == ']' {
        11
    } else {
        0
    }
}

/// Offset at which the machine code of token `k` starts; for `k` the number of
/// tokens, the offset behind the last.
pub open spec fn token_start(tokens: Seq<char>, k: int) -> int
    decreases k,
{
    if k <= 0 {
        10
    } else {
        token_start(tokens, k - 1) + token_len(tokens[k - 1])
    }
}

/// Displacement of the jump of the bracket at `k`: from behind its own code to
/// behind the code of its partner.
pub open spec fn bracket_disp(tokens: Seq<char>, k: int) -> int {
    token_start(tokens, partner(token_kinds(tokens), k) + 1) - token_start(tokens, k + 1)
}

/// The displacement of every position, as `bracket_disp` gives it.
pub open spec fn bracket_disps(tokens: Seq<char>) -> Seq<int> {
    Seq::new(tokens.len(), |k: int| bracket_disp(tokens, k))
}

/// The load of the tape address and the code of the first `n` tokens, token
/// `k` with the displacement `disp[k]`.
pub open spec fn coded(tokens: Seq<char>, tape: u64, disp: Seq<int>, n: int) -> Seq<u8>
    decreases n,
{
    if n <= 0 {
        load_tape(tape)
    } else {
        coded(tokens, tape, disp, n - 1) + token_code(tokens[n - 1], disp[n - 1])
    }
}

/// The machine code of a program that works on the tape at address `tape`.
pub open spec fn simple_code(tokens: Seq<char>, tape: u64) -> Seq<u8> {
    coded(tokens, tape, bracket_disps(tokens), tokens.len() as int) + ret()
}

/// Both jumps of the loop that the `]` at `k` ends fit their fields.
pub open spec fn loop_fits(tokens: Seq<char>, k: int) -> bool {
    &&& fits_rel32(bracket_disp(tokens, k))
    &&& fits_rel32(bracket_disp(tokens, partner(token_kinds(tokens), k)))
}

/// Why the token at `k` cannot be emitted, if it cannot: it is a `]` without a
/// partner, or a jump of its loop does not fit.
pub open spec fn token_fault(tokens: Seq<char>, k: int) -> Option<JitError> {
    if tokens[k] != ']' {
        None
    } else if !has_partner(token_kinds(tokens), k) {
        Some(JitError::UnbalancedBrackets(k as usize))
    } else if !loop_fits(tokens, k) {
        Some(JitError::DisplacementOverflow)
    } else {
        None
    }
}

/// No token is at fault.
pub open spec fn tokens_faultless(tokens: Seq<char>) -> bool {
    forall|m: int| 0 <= m < tokens.len() ==> token_fault(tokens, m) is None
}

/// The error that emitting `tokens` reports: that of the first token at
/// fault, or, where none is, the first `[` that is never closed.
pub open spec fn simple_error(tokens: Seq<char>, e: JitError) -> bool {
    ||| exists|k: int|
        {
            &&& 0 <= k < tokens.len()
            &&& token_fault(tokens, k) == Some(e)
            &&& forall|m: int| 0 <= m < k ==> token_fault(tokens, m) is None
        }
    ||| {
        &&& tokens_faultless(tokens)
        &&& exists|k: int|
            first_unmatched(token_kinds(tokens), k) && e == JitError::UnbalancedBrackets(
                k as usize,
            )
    }
}

/// Where emitting reports an error, a token is at fault or a bracket lacks its
/// partner.
pub proof fn lemma_simple_error_excludes_success(tokens: Seq<char>, e: JitError)
    requires
        simple_error(tokens, e),
    ensures
        !(tokens_faultless(tokens) && well_bracketed(token_kinds(tokens))),
{
}

/// The machine code of a token has the length that `token_len` gives.
proof fn lemma_token_code_len(c: char, disp: int)
    ensures
        token_code(c, disp).len() == token_len(c),
{
}

/// The code of the first `n` tokens ends where `token_start` says.
proof fn lemma_coded_len(tokens: Seq<char>, tape: u64, disp: Seq<int>, n: int)
    requires
        0 <= n,
    ensures
        coded(tokens, tape, disp, n).len() == token_start(tokens, n),
    decreases n,
{
    if n > 0 {
        lemma_coded_len(tokens, tape, disp, n - 1);
        lemma_token_code_len(tokens[n - 1], disp[n - 1]);
    }
}

/// Only the displacements of the brackets matter.
proof fn lemma_coded_agree(tokens: Seq<char>, tape: u64, d1: Seq<int>, d2: Seq<int>, n: int)
    requires
        forall|k: int| 0 <= k < n && token_kind(tokens[k]) != Bracket::Plain ==> d1[k] == d2[k],
    ensures
        coded(tokens, tape, d1, n) == coded(tokens, tape, d2, n),
    decreases n,
{
    if n > 0 {
        lemma_coded_agree(tokens, tape, d1, d2, n - 1);
    }
}

/// A blank field holds the displacement zero.
proof fn lemma_blank_is_zero()
    ensures
        le32(wrap32(0)) == blank_field(),
{
    assert(0u32 & 0xff == 0) by (bit_vector);
    assert((0u32 >> 8) & 0xff == 0) by (bit_vector);
    assert((0u32 >> 16) & 0xff == 0) by (bit_vector);
    assert((0u32 >> 24) & 0xff == 0) by (bit_vector);
    assert(le32(wrap32(0)) =~= blank_field());
}

/// Writing a displacement into the field of the bracket at `i` is the same as
/// having emitted that bracket with it.
proof fn lemma_coded_patch(tokens: Seq<char>, tape: u64, disp: Seq<int>, n: int, i: int, d: int)
    requires
        0 <= i < n <= disp.len(),
        token_kind(tokens[i]) != Bracket::Plain,
    ensures
        coded(tokens, tape, disp.update(i, d), n) == patch32(
            coded(tokens, tape, disp, n),
            token_start(tokens, i) + 7,
            wrap32(d),
        ),
    decreases n,
{
    let before = coded(tokens, tape, disp, n - 1);
    let last = token_code(tokens[n - 1], disp[n - 1]);
    lemma_coded_len(tokens, tape, disp, n - 1);
    if i == n - 1 {
        lemma_coded_agree(tokens, tape, disp.update(i, d), disp, n - 1);
        let head = if tokens[i] == '[' {
            jump_if_zero()
        } else {
            jump_if_not_zero()
        };
        assert(last == head + le32(wrap32(disp[i])));
        assert(patch32(before + last, token_start(tokens, i) + 7, wrap32(d)) =~= before + (head + le32(
            wrap32(d),
        )));
    } else {
        lemma_coded_patch(tokens, tape, disp, n - 1, i, d);
        lemma_coded_len(tokens, tape, disp, i + 1);
        lemma_token_start_monotone(tokens, i + 1, n - 1);
        lemma_patch32_append(before, last, token_start(tokens, i) + 7, wrap32(d));
    }
}

/// Later tokens start later.
proof fn lemma_token_start_monotone(tokens: Seq<char>, a: int, b: int)
    requires
        0 <= a <= b,
    ensures
        10 <= token_start(tokens, a) <= token_start(tokens, b),
    decreases b,
{
    if a < b {
        lemma_token_start_monotone(tokens, a, b - 1);
    } else if a > 0 {
        lemma_token_start_monotone(tokens, a - 1, a - 1);
    }
}

/// The token indices on a stack of open loops. An entry holds the index of
/// the `[` and the offset of its `jz`.
spec fn open_sites(stack: Seq<(usize, usize)>) -> Seq<int> {
    stack.map_values(|e: (usize, usize)| e.0 as int)
}

/// What holds between tokens while a program is emitted: the code is that of
/// the tokens so far, with a blank field for every `[` that is still open.
spec fn simple_inv(
    tokens: Seq<char>,
    tape: u64,
    pc: int,
    code: Seq<u8>,
    stack: Seq<(usize, usize)>,
    disp: Seq<int>,
) -> bool {
    &&& pending(token_kinds(tokens), pc, open_sites(stack))
    &&& disp.len() == pc
    &&& code == coded(tokens, tape, disp, pc)
    &&& forall|p: int|
        0 <= p < stack.len() ==> (#[trigger] stack[p]).1 == token_start(tokens, stack[p].0 as int)
            + 5
    &&& forall|k: int|
        0 <= k < pc && token_kind(tokens[k]) != Bracket::Plain ==> #[trigger] disp[k] == if open_sites(
            stack,
        ).contains(k) {
            0
        } else {
            bracket_disp(tokens, k)
        }
    &&& forall|m: int| 0 <= m < pc ==> token_fault(tokens, m) is None
}

/// A token that is no bracket.
proof fn lemma_simple_plain(
    tokens: Seq<char>,
    tape: u64,
    pc: int,
    code: Seq<u8>,
    stack: Seq<(usize, usize)>,
    disp: Seq<int>,
)
    requires
        simple_inv(tokens, tape, pc, code, stack, disp),
        0 <= pc < tokens.len(),
        token_kind(tokens[pc]) == Bracket::Plain,
    ensures
        simple_inv(tokens, tape, pc + 1, code + token_code(tokens[pc], 0), stack, disp.push(0)),
{
    let after = pc + 1;
    let disp2 = disp.push(0);
    assert(token_kinds(tokens)[pc] == Bracket::Plain);
    lemma_pending_plain(token_kinds(tokens), pc, open_sites(stack));
    lemma_coded_agree(tokens, tape, disp2, disp, pc);
    assert forall|k: int|
        0 <= k < after && token_kind(tokens[k]) != Bracket::Plain implies #[trigger] disp2[k]
        == if open_sites(stack).contains(k) {
        0
    } else {
        bracket_disp(tokens, k)
    } by {
        assert(disp2[k] == disp[k]);
    }
}

/// A `[`: its field stays blank and its site goes on the stack.
proof fn lemma_simple_open(
    tokens: Seq<char>,
    tape: u64,
    pc: int,
    code: Seq<u8>,
    stack: Seq<(usize, usize)>,
    disp: Seq<int>,
    entry: (usize, usize),
)
    requires
        simple_inv(tokens, tape, pc, code, stack, disp),
        0 <= pc < tokens.len(),
        tokens[pc] == '[',
        entry.0 == pc,
        entry.1 == code.len() + 5,
    ensures
        simple_inv(
            tokens,
            tape,
            pc + 1,
            code + (jump_if_zero() + blank_field()),
            stack.push(entry),
            disp.push(0),
        ),
{
    let after = pc + 1;
    let disp2 = disp.push(0);
    let stack2 = stack.push(entry);
    assert(token_kinds(tokens)[pc] == Bracket::Opener);
    lemma_pending_opener(token_kinds(tokens), pc, open_sites(stack));
    assert(open_sites(stack2) =~= open_sites(stack).push(pc));
    lemma_coded_agree(tokens, tape, disp2, disp, pc);
    lemma_coded_len(tokens, tape, disp, pc);
    lemma_blank_is_zero();
    assert forall|p: int| 0 <= p < stack2.len() implies (#[trigger] stack2[p]).1 == token_start(
        tokens,
        stack2[p].0 as int,
    ) + 5 by {
        if p < stack.len() {
            assert(stack2[p] == stack[p]);
        }
    }
    assert forall|k: int|
        0 <= k < after && token_kind(tokens[k]) != Bracket::Plain implies #[trigger] disp2[k]
        == if open_sites(stack2).contains(k) {
        0
    } else {
        bracket_disp(tokens, k)
    } by {
        if k < pc {
            assert(disp2[k] == disp[k]);
            if open_sites(stack).contains(k) {
                let p = choose|p: int| 0 <= p < stack.len() && open_sites(stack)[p] == k;
                assert(open_sites(stack2)[p] == k);
            } else if open_sites(stack2).contains(k) {
                let p = choose|p: int| 0 <= p < stack2.len() && open_sites(stack2)[p] == k;
                assert(open_sites(stack)[p] == k);
            }
        } else {
            assert(open_sites(stack2)[stack.len() as int] == pc);
        }
    }
}

/// What is known of the loop that a `]` ends when it finds the stack
/// non-empty.
proof fn lemma_simple_top(
    tokens: Seq<char>,
    tape: u64,
    pc: int,
    code: Seq<u8>,
    stack: Seq<(usize, usize)>,
    disp: Seq<int>,
)
    requires
        simple_inv(tokens, tape, pc, code, stack, disp),
        0 <= pc < tokens.len(),
        tokens[pc] == ']',
        stack.len() > 0,
    ensures
        has_partner(token_kinds(tokens), pc),
        partner(token_kinds(tokens), pc) == stack.last().0,
        partner(token_kinds(tokens), stack.last().0 as int) == pc,
        tokens[stack.last().0 as int] == '[',
        stack.last().0 < pc,
        stack.last().1 + 6 == token_start(tokens, stack.last().0 + 1),
        token_start(tokens, stack.last().0 + 1) <= token_start(tokens, pc),
        code.len() == token_start(tokens, pc),
        token_start(tokens, pc + 1) == token_start(tokens, pc) + 11,
        token_start(tokens, stack.last().0 as int) >= 10,
{
    let i = stack.last().0 as int;
    let after = pc + 1;
    assert(stack.last() == stack[stack.len() - 1]);
    assert(token_kinds(tokens)[pc] == Bracket::Closer);
    assert(open_sites(stack).last() == i);
    lemma_pending_closer(token_kinds(tokens), pc, open_sites(stack));
    assert(paired(token_kinds(tokens), pc, i));
    assert(token_kinds(tokens)[i] == Bracket::Opener);
    lemma_coded_len(tokens, tape, disp, pc);
    lemma_token_start_monotone(tokens, i + 1, pc);
    lemma_token_start_monotone(tokens, i, i);
    assert(token_start(tokens, i + 1) == token_start(tokens, i) + 11);
    assert(token_start(tokens, after) == token_start(tokens, pc) + 11);
}

/// A `]` whose loop fits: both fields get their displacements.
proof fn lemma_simple_close(
    tokens: Seq<char>,
    tape: u64,
    pc: int,
    code: Seq<u8>,
    stack: Seq<(usize, usize)>,
    disp: Seq<int>,
)
    requires
        simple_inv(tokens, tape, pc, code, stack, disp),
        0 <= pc < tokens.len(),
        tokens[pc] == ']',
        stack.len() > 0,
        loop_fits(tokens, pc),
    ensures
        simple_inv(
            tokens,
            tape,
            pc + 1,
            patch32(
                patch32(
                    code + (jump_if_not_zero() + blank_field()),
                    token_start(tokens, pc) + 7,
                    wrap32(bracket_disp(tokens, pc)),
                ),
                token_start(tokens, stack.last().0 as int) + 7,
                wrap32(bracket_disp(tokens, stack.last().0 as int)),
            ),
            stack.drop_last(),
            disp.push(bracket_disp(tokens, pc)).update(
                stack.last().0 as int,
                bracket_disp(tokens, stack.last().0 as int),
            ),
        ),
{
    let ks = token_kinds(tokens);
    let after = pc + 1;
    let i = stack.last().0 as int;
    let rest = stack.drop_last();
    let top = stack.len() - 1;
    let disp1 = disp.push(0);
    let disp2 = disp.push(bracket_disp(tokens, pc));
    let disp3 = disp2.update(i, bracket_disp(tokens, i));
    let code1 = code + (jump_if_not_zero() + blank_field());
    lemma_simple_top(tokens, tape, pc, code, stack, disp);
    assert(ks[pc] == Bracket::Closer);
    lemma_pending_closer(ks, pc, open_sites(stack));
    assert(open_sites(rest) =~= open_sites(stack).drop_last());
    lemma_coded_agree(tokens, tape, disp1, disp, pc);
    lemma_blank_is_zero();
    assert(code1 == coded(tokens, tape, disp1, after));
    lemma_coded_patch(tokens, tape, disp1, after, pc, bracket_disp(tokens, pc));
    assert(disp1.update(pc, bracket_disp(tokens, pc)) =~= disp2);
    lemma_coded_patch(tokens, tape, disp2, after, i, bracket_disp(tokens, i));
    assert forall|p: int| 0 <= p < rest.len() implies (#[trigger] rest[p]).1 == token_start(
        tokens,
        rest[p].0 as int,
    ) + 5 by {
        assert(rest[p] == stack[p]);
    }
    assert forall|k: int|
        0 <= k < after && token_kind(tokens[k]) != Bracket::Plain implies #[trigger] disp3[k]
        == if open_sites(rest).contains(k) {
        0
    } else {
        bracket_disp(tokens, k)
    } by {
        if open_sites(rest).contains(k) {
            let p = choose|p: int| 0 <= p < rest.len() && open_sites(rest)[p] == k;
            assert(open_sites(stack)[p] == k);
            assert(pending_at(ks, pc, open_sites(stack), p));
            assert(pending_at(ks, pc, open_sites(stack), top));
            assert(k != i);
            assert(disp3[k] == disp[k]);
        } else if k != pc && k != i {
            assert(disp3[k] == disp[k]);
            if open_sites(stack).contains(k) {
                let p = choose|p: int| 0 <= p < stack.len() && open_sites(stack)[p] == k;
                assert(open_sites(rest)[p] == k);
            }
        }
    }
    assert(token_fault(tokens, pc) is None);
}

/// The engine. It holds no state of its own.
pub struct SimpleJit {}

impl SimpleJit {
    /// Emits the machine code of a program that works on the tape at address
    /// `tape`: a function without parameters that runs the program and
    /// returns.
    ///
    /// Succeeds exactly on the programs whose brackets are balanced and whose
    /// jumps fit a 32-bit displacement. Otherwise the error is that of the
    /// first `]` that has no partner or whose loop does not fit; where there is
    /// none, `UnbalancedBrackets` with the first `[` that is never closed.
    pub fn compile(prog: &Program, tape: u64) -> (r: Result<Vec<u8>, JitError>)
        requires
            prog.well_formed(),
        ensures
            match r {
                Ok(code) => {
                    &&& tokens_faultless(prog.instructions@)
                    &&& well_bracketed(token_kinds(prog.instructions@))
                    &&& code@ == simple_code(prog.instructions@, tape)
                },
                Err(e) => simple_error(prog.instructions@, e),
            },
    {
        let n: usize = prog.instructions.len();
        let ghost tokens = prog.instructions@;
        let ghost ks = token_kinds(tokens);
        let mut emitter = CodeEmitter::new();
        let mut open_bracket_stack: Vec<(usize, usize)> = Vec::new();
        let ghost mut disp: Seq<int> = Seq::empty();
        emitter.emit_bytes(&[0x49, 0xBD]);
        emitter.emit_uint64(tape);
        proof {
            lemma_pending_start(ks);
            assert(open_sites(open_bracket_stack@) =~= Seq::<int>::empty());
            assert(emitter@ =~= load_tape(tape));
        }
        let mut pc: usize = 0;
        while pc < n
            invariant
                n == prog.instructions.len(),
                tokens == prog.instructions@,
                ks == token_kinds(tokens),
                prog.well_formed(),
                pc <= n,
                simple_inv(tokens, tape, pc as int, emitter@, open_bracket_stack@, disp),
            decreases n - pc,
        {
            let instr: char = prog.instructions[pc];
            let ghost code = emitter@;
            let ghost stack = open_bracket_stack@;
            assert(is_token(instr));
            if instr == '[' {
                emitter.emit_bytes(&[0x41, 0x80, 0x7d, 0x00, 0x00]);
                let site: usize = emitter.size();
                open_bracket_stack.push((pc, site));
                emitter.emit_bytes(&[0x0F, 0x84]);
                emitter.emit_uint32(0);
                proof {
                    lemma_blank_is_zero();
                    assert(wrap32(0) == 0u32);
                    assert(emitter@ =~= code + (jump_if_zero() + blank_field()));
                    lemma_simple_open(tokens, tape, pc as int, code, stack, disp, (pc, site));
                    disp = disp.push(0);
                }
            } else if instr == ']' {
                match open_bracket_stack.pop() {
                    None => {
                        proof {
                            assert(ks[pc as int] == Bracket::Closer);
                            lemma_pending_stray(ks, pc as int, open_sites(stack));
                            assert(token_fault(tokens, pc as int) == Some(
                                JitError::UnbalancedBrackets(pc),
                            ));
                        }
                        return Err(JitError::UnbalancedBrackets(pc));
                    },
                    Some((open_pc, last_open_bracket)) => {
                        proof {
                            lemma_simple_top(tokens, tape, pc as int, code, stack, disp);
                        }
                        emitter.emit_bytes(&[0x41, 0x80, 0x7d, 0x00, 0x00]);
                        emitter.emit_bytes(&[0x0F, 0x85]);
                        emitter.emit_uint32(0);
                        proof {
                            lemma_blank_is_zero();
                            assert(wrap32(0) == 0u32);
                            assert(emitter@ =~= code + (jump_if_not_zero() + blank_field()));
                            assert(stack.last() == (open_pc, last_open_bracket));
                        }
                        let behind_close: usize = emitter.size();
                        let behind_open: usize = last_open_bracket + 6;
                        if !relative_32bit_offset_fits(behind_close, behind_open)
                            || !relative_32bit_offset_fits(behind_open, behind_close) {
                            proof {
                                assert(token_fault(tokens, pc as int) == Some(
                                    JitError::DisplacementOverflow,
                                ));
                            }
                            return Err(JitError::DisplacementOverflow);
                        }
                        let back: u32 = compute_relative_32bit_offset(behind_close, behind_open);
                        emitter.replace_uint32_at_offset(behind_close - 4, back);
                        let forth: u32 = compute_relative_32bit_offset(behind_open, behind_close);
                        emitter.replace_uint32_at_offset(last_open_bracket + 2, forth);
                        proof {
                            assert(open_bracket_stack@ =~= stack.drop_last());
                            lemma_simple_close(tokens, tape, pc as int, code, stack, disp);
                            disp = disp.push(bracket_disp(tokens, pc as int)).update(
                                open_pc as int,
                                bracket_disp(tokens, open_pc as int),
                            );
                        }
                    },
                }
            } else {
                if instr == '>' {
                    emitter.emit_bytes(&[0x49, 0xFF, 0xC5]);
                } else if instr == '<' {
                    emitter.emit_bytes(&[0x49, 0xFF, 0xCD]);
                } else if instr == '+' {
                    emitter.emit_bytes(&[0x41, 0x80, 0x45, 0x00, 0x01]);
                } else if instr == '-' {
                    emitter.emit_bytes(&[0x41, 0x80, 0x6D, 0x00, 0x01]);
                } else if instr == '.' {
                    emitter.emit_bytes(&[0x48, 0xC7, 0xC0, 0x01, 0x00, 0x00, 0x00]);
                    emitter.emit_bytes(&[0x48, 0xC7, 0xC7, 0x01, 0x00, 0x00, 0x00]);
                    emitter.emit_bytes(&[0x4C, 0x89, 0xEE]);
                    emitter.emit_bytes(&[0x48, 0xC7, 0xC2, 0x01, 0x00, 0x00, 0x00]);
                    emitter.emit_bytes(&[0x0F, 0x05]);
                } else {
                    emitter.emit_bytes(&[0x48, 0xC7, 0xC0, 0x00, 0x00, 0x00, 0x00]);
                    emitter.emit_bytes(&[0x48, 0xC7, 0xC7, 0x00, 0x00, 0x00, 0x00]);
                    emitter.emit_bytes(&[0x4C, 0x89, 0xEE]);
                    emitter.emit_bytes(&[0x48, 0xC7, 0xC2, 0x01, 0x00, 0x00, 0x00]);
                    emitter.emit_bytes(&[0x0F, 0x05]);
                }
                proof {
                    assert(emitter@ =~= code + token_code(instr, 0));
                    lemma_simple_plain(tokens, tape, pc as int, code, stack, disp);
                    disp = disp.push(0);
                }
            }
            pc += 1;
        }
        if open_bracket_stack.len() > 0 {
            let open_pc: usize = open_bracket_stack[0].0;
            proof {
                lemma_pending_leftover(ks, open_sites(open_bracket_stack@));
                assert(open_sites(open_bracket_stack@)[0] == open_pc);
            }
            return Err(JitError::UnbalancedBrackets(open_pc));
        }
        proof {
            lemma_pending_done(ks, open_sites(open_bracket_stack@));
            lemma_coded_agree(tokens, tape, disp, bracket_disps(tokens), n as int);
        }
        emitter.emit_byte(0xC3);
        assert(emitter@ =~= simple_code(tokens, tape));
        let out: Vec<u8> = emitter.code().clone();
        assert(out@ =~= emitter@);
        Ok(out)
    }
}

} // verus!
