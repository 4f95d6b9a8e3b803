//! The compiler engine that hands a program to an SSA backend.
//!
//! This module decides what the backend is asked to build: a flat list of
//! typed instructions over a handful of temporaries, with one pair of basic
//! blocks per loop. Carrying the list out against a backend is the caller's
//! part.
//!
//! The generated function keeps the tape in a zeroed stack buffer of
//! `tape_cells` bytes and the cursor in a 64-bit stack slot that starts at 0.

use vstd::prelude::*;
use crate::brackets::{first_unmatched, has_partner, partner, pending, well_bracketed};
use crate::bytecode_bf::{kinds, ByteCode, Change};
use crate::error::JitError;
use crate::MEMORY_SIZE;

verus! {

/// A basic block of the generated function, named by the loop it belongs to.
/// Loops are numbered in program order of their heads. The entry block has no
/// name: nothing branches to it.
#[derive(Debug, Clone, Copy, PartialEq, Eq, Structural)]
pub enum Block {
    /// Where the body of the loop starts.
    Body(usize),
    /// Where execution continues behind the loop.
    Exit(usize),
}

/// One instruction for the backend. `dst`, `src`, `addr`, `index`, `arg` and
/// `cond` name temporaries; a temporary holds the value last written to it.
#[derive(Debug, Clone, Copy, PartialEq, Eq, Structural)]
pub enum IrInstr {
    /// `dst` = the cursor, loaded from its slot as a 64-bit integer.
    LoadCursor { dst: u8 },
    /// Stores `src` into the cursor slot.
    StoreCursor { src: u8 },
    /// `dst` = `src` + `imm`, in 64 bits.
    AddI64 { dst: u8, src: u8, imm: u64 },
    /// `dst` = `src` - `imm`, in 64 bits.
    SubI64 { dst: u8, src: u8, imm: u64 },
    /// `dst` = address of the tape cell with index `index`.
    CellAddr { dst: u8, index: u8 },
    /// `dst` = the byte at `addr`.
    LoadCell { dst: u8, addr: u8 },
    /// Stores the byte `src` at `addr`.
    StoreCell { addr: u8, src: u8 },
    /// Stores the constant `byte` at `addr`.
    StoreCellImm { addr: u8, byte: u8 },
    /// `dst` = `src` + `byte`, in 8 bits.
    AddI8 { dst: u8, src: u8, byte: u8 },
    /// `dst` = `src` - `byte`, in 8 bits.
    SubI8 { dst: u8, src: u8, byte: u8 },
    /// `dst` = the byte `src` as a 32-bit integer.
    Widen { dst: u8, src: u8 },
    /// `dst` = the 32-bit integer `src` cut to a byte.
    Narrow { dst: u8, src: u8 },
    /// Calls the output routine with the 32-bit integer `arg`.
    CallPut { arg: u8 },
    /// `dst` = the 32-bit result of a call of the input routine.
    CallGet { dst: u8 },
    /// `dst` = whether the byte `src` is zero.
    IsZero { dst: u8, src: u8 },
    /// `dst` = whether the byte `src` is not zero.
    IsNonZero { dst: u8, src: u8 },
    /// Appends a new, empty block to the function.
    AppendBlock(Block),
    /// Ends the current block: continues at `then_to` if `cond` holds, else at
    /// `else_to`.
    CondBr { cond: u8, then_to: Block, else_to: Block },
    /// Directs the instructions that follow to the end of the given block.
    MoveTo(Block),
    /// Ends the current block and the function.
    Return,
}

/// What the backend is asked to build.
#[derive(Debug)]
pub struct IrFunction {
    /// Size of the zero-initialised tape, in bytes.
    pub tape_cells: usize,
    /// Number of loops; the function has two blocks per loop and the entry block.
    pub loops: usize,
    /// The instructions, starting in the entry block.
    pub body: Vec<IrInstr>,
}

/// Address of the current cell into temporary 1.
pub open spec fn locate_cell() -> Seq<IrInstr> {
    seq![IrInstr::LoadCursor { dst: 0 }, IrInstr::CellAddr { dst: 1, index: 0 }]
}

/// Address of the current cell into temporary 1 and its value into temporary 2.
pub open spec fn fetch_cell() -> Seq<IrInstr> {
    locate_cell().push(IrInstr::LoadCell { dst: 2, addr: 1 })
}

/// Cursor moved by `n`, up if `up`, else down.
pub open spec fn shift_cursor(up: bool, n: u64) -> Seq<IrInstr> {
    seq![
        IrInstr::LoadCursor { dst: 0 },
        if up {
            IrInstr::AddI64 { dst: 1, src: 0, imm: n }
        } else {
            IrInstr::SubI64 { dst: 1, src: 0, imm: n }
        },
        IrInstr::StoreCursor { src: 1 },
    ]
}

/// Current cell changed by `n`, added if `up`, else subtracted.
pub open spec fn adjust_cell(up: bool, n: u8) -> Seq<IrInstr> {
    fetch_cell() + seq![
        if up {
            IrInstr::AddI8 { dst: 3, src: 2, byte: n }
        } else {
            IrInstr::SubI8 { dst: 3, src: 2, byte: n }
        },
        IrInstr::StoreCell { addr: 1, src: 3 },
    ]
}

/// Current cell handed to the output routine.
pub open spec fn put_cell() -> Seq<IrInstr> {
    fetch_cell() + seq![IrInstr::Widen { dst: 3, src: 2 }, IrInstr::CallPut { arg: 3 }]
}

/// Result of the input routine stored into the current cell.
pub open spec fn get_cell() -> Seq<IrInstr> {
    seq![
        IrInstr::CallGet { dst: 0 },
        IrInstr::Narrow { dst: 1, src: 0 },
        IrInstr::LoadCursor { dst: 2 },
        IrInstr::CellAddr { dst: 3, index: 2 },
        IrInstr::StoreCell { addr: 3, src: 1 },
    ]
}

/// Zero stored into the current cell.
pub open spec fn clear_cell() -> Seq<IrInstr> {
    locate_cell().push(IrInstr::StoreCellImm { addr: 1, byte: 0 })
}

/// Head of loop `l`: both blocks are created, a zero cell skips to the exit,
/// and what follows goes into the body.
pub open spec fn open_loop(l: usize) -> Seq<IrInstr> {
    fetch_cell() + seq![
        IrInstr::IsZero { dst: 3, src: 2 },
        IrInstr::AppendBlock(Block::Body(l)),
        IrInstr::AppendBlock(Block::Exit(l)),
        IrInstr::CondBr { cond: 3, then_to: Block::Exit(l), else_to: Block::Body(l) },
        IrInstr::MoveTo(Block::Body(l)),
    ]
}

/// Foot of loop `l`: a non-zero cell goes round again, and what follows goes
/// into the exit block.
pub open spec fn close_loop(l: usize) -> Seq<IrInstr> {
    fetch_cell() + seq![
        IrInstr::IsNonZero { dst: 3, src: 2 },
        IrInstr::CondBr { cond: 3, then_to: Block::Body(l), else_to: Block::Exit(l) },
        IrInstr::MoveTo(Block::Exit(l)),
    ]
}

/// The opcode starts a loop of its own.
pub open spec fn is_loop_head(op: ByteCode) -> bool {
    op is JZ || op is MoveInStepUntilZero
}

/// The instructions that stand for one opcode. `l` is the number of the loop
/// the opcode starts or ends; for the others it plays no part.
pub open spec fn lower_instr(op: ByteCode, l: usize) -> Seq<IrInstr> {
    match op {
        ByteCode::Nop => Seq::empty(),
        ByteCode::DataPointerIncr(n) => shift_cursor(true, n as u64),
        ByteCode::DataPointerDecr(n) => shift_cursor(false, n as u64),
        ByteCode::DataIncr(n) => adjust_cell(true, n as u8),
        ByteCode::DataDecr(n) => adjust_cell(false, n as u8),
        ByteCode::Write => put_cell(),
        ByteCode::Read => get_cell(),
        ByteCode::JZ => open_loop(l),
        ByteCode::JNZ => close_loop(l),
        ByteCode::SETZERO => clear_cell(),
        ByteCode::MoveInStepUntilZero(Change::Incr(n)) => open_loop(l) + shift_cursor(
            true,
            n as u64,
        ) + close_loop(l),
        ByteCode::MoveInStepUntilZero(Change::Decr(n)) => open_loop(l) + shift_cursor(
            false,
            n as u64,
        ) + close_loop(l),
    }
}

/// The opcode changes a cell by more than a byte can express.
pub open spec fn cell_delta_overflows(op: ByteCode) -> bool {
    match op {
        ByteCode::DataIncr(n) => n > 255,
        ByteCode::DataDecr(n) => n > 255,
        _ => false,
    }
}

/// Number of loop heads among the first `k` opcodes.
pub open spec fn loop_heads(ops: Seq<ByteCode>, k: int) -> nat
    decreases k,
{
    if k <= 0 {
        0
    } else {
        loop_heads(ops, k - 1) + if is_loop_head(ops[k - 1]) {
            1nat
        } else {
            0nat
        }
    }
}

/// Number of the loop that the opcode at `k` starts or ends.
pub open spec fn loop_of(ops: Seq<ByteCode>, k: int) -> usize {
    if ops[k] is JNZ {
        loop_heads(ops, partner(kinds(ops), k)) as usize
    } else {
        loop_heads(ops, k) as usize
    }
}

/// Why the opcode at `k` cannot be lowered, if it cannot.
pub open spec fn lowering_fault(ops: Seq<ByteCode>, k: int) -> Option<JitError> {
    if cell_delta_overflows(ops[k]) {
        Some(JitError::CellDeltaOverflow(k as usize))
    } else if ops[k] is JNZ && !has_partner(kinds(ops), k) {
        Some(JitError::UnbalancedBrackets(k as usize))
    } else {
        None
    }
}

/// The instructions for the first `n` opcodes.
pub open spec fn lower_prefix(ops: Seq<ByteCode>, n: int) -> Seq<IrInstr>
    decreases n,
{
    if n <= 0 {
        Seq::empty()
    } else {
        lower_prefix(ops, n - 1) + lower_instr(ops[n - 1], loop_of(ops, n - 1))
    }
}

/// The error that lowering `ops` reports: that of the first opcode that cannot
/// be lowered, or, where each can, the first opener that is never closed.
pub open spec fn lowering_error(ops: Seq<ByteCode>, e: JitError) -> bool {
    ||| exists|k: int|
        {
            &&& 0 <= k < ops.len()
            &&& lowering_fault(ops, k) == Some(e)
            &&& forall|m: int| 0 <= m < k ==> lowering_fault(ops, m) is None
        }
    ||| {
        &&& forall|m: int| 0 <= m < ops.len() ==> lowering_fault(ops, m) is None
        &&& exists|k: int| first_unmatched(kinds(ops), k) && e == JitError::UnbalancedBrackets(k as usize)
    }
}

/// Every opcode can be lowered and every loop is closed.
pub open spec fn lowerable(ops: Seq<ByteCode>) -> bool {
    &&& forall|m: int| 0 <= m < ops.len() ==> lowering_fault(ops, m) is None
    &&& well_bracketed(kinds(ops))
}

/// The indices of the loop heads on a stack of open loops.
pub open spec fn open_sites(stack: Seq<(usize, usize)>) -> Seq<int> {
    stack.map_values(|e: (usize, usize)| e.0 as int)
}

/// There are no more loop heads among the first `k` opcodes than opcodes.
pub proof fn lemma_loop_heads_bound(ops: Seq<ByteCode>, k: int)
    requires
        0 <= k,
    ensures
        loop_heads(ops, k) <= k,
    decreases k,
{
    if k > 0 {
        lemma_loop_heads_bound(ops, k - 1);
    }
}

/// Where lowering reports an error, the program is not lowerable.
pub proof fn lemma_lowering_error_excludes_lowerable(ops: Seq<ByteCode>, e: JitError)
    requires
        lowering_error(ops, e),
    ensures
        !lowerable(ops),
{
}

fn push_fetch_cell(body: &mut Vec<IrInstr>)
    ensures
        final(body)@ == old(body)@ + fetch_cell(),
{
    body.push(IrInstr::LoadCursor { dst: 0 });
    body.push(IrInstr::CellAddr { dst: 1, index: 0 });
    body.push(IrInstr::LoadCell { dst: 2, addr: 1 });
    assert(body@ =~= old(body)@ + fetch_cell());
}

fn push_shift_cursor(body: &mut Vec<IrInstr>, up: bool, n: u64)
    ensures
        final(body)@ == old(body)@ + shift_cursor(up, n),
{
    body.push(IrInstr::LoadCursor { dst: 0 });
    if up {
        body.push(IrInstr::AddI64 { dst: 1, src: 0, imm: n });
    } else {
        body.push(IrInstr::SubI64 { dst: 1, src: 0, imm: n });
    }
    body.push(IrInstr::StoreCursor { src: 1 });
    assert(body@ =~= old(body)@ + shift_cursor(up, n));
}

fn push_adjust_cell(body: &mut Vec<IrInstr>, up: bool, n: u8)
    ensures
        final(body)@ == old(body)@ + adjust_cell(up, n),
{
    push_fetch_cell(body);
    if up {
        body.push(IrInstr::AddI8 { dst: 3, src: 2, byte: n });
    } else {
        body.push(IrInstr::SubI8 { dst: 3, src: 2, byte: n });
    }
    body.push(IrInstr::StoreCell { addr: 1, src: 3 });
    assert(body@ =~= old(body)@ + adjust_cell(up, n));
}

fn push_open_loop(body: &mut Vec<IrInstr>, l: usize)
    ensures
        final(body)@ == old(body)@ + open_loop(l),
{
    push_fetch_cell(body);
    body.push(IrInstr::IsZero { dst: 3, src: 2 });
    body.push(IrInstr::AppendBlock(Block::Body(l)));
    body.push(IrInstr::AppendBlock(Block::Exit(l)));
    body.push(IrInstr::CondBr { cond: 3, then_to: Block::Exit(l), else_to: Block::Body(l) });
    body.push(IrInstr::MoveTo(Block::Body(l)));
    assert(body@ =~= old(body)@ + open_loop(l));
}

fn push_close_loop(body: &mut Vec<IrInstr>, l: usize)
    ensures
        final(body)@ == old(body)@ + close_loop(l),
{
    push_fetch_cell(body);
    body.push(IrInstr::IsNonZero { dst: 3, src: 2 });
    body.push(IrInstr::CondBr { cond: 3, then_to: Block::Body(l), else_to: Block::Exit(l) });
    body.push(IrInstr::MoveTo(Block::Exit(l)));
    assert(body@ =~= old(body)@ + close_loop(l));
}

fn push_scan(body: &mut Vec<IrInstr>, up: bool, n: u64, l: usize)
    ensures
        final(body)@ == old(body)@ + (open_loop(l) + shift_cursor(up, n) + close_loop(l)),
{
    push_open_loop(body, l);
    push_shift_cursor(body, up, n);
    push_close_loop(body, l);
    assert(body@ =~= old(body)@ + (open_loop(l) + shift_cursor(up, n) + close_loop(l)));
}

/// The engine. It holds no state of its own.
pub struct LlvmJit {}

impl LlvmJit {
    /// Appends the instructions for one opcode, found at index `pc` of its
    /// program, to `body`.
    ///
    /// `loops` counts the loops started so far. `matching_blocks` holds, for
    /// each loop that is still open, the index of its head and its number,
    /// innermost last. A loop head takes the next number; `JZ` also goes on
    /// the stack. `JNZ` ends the loop on top of the stack and fails with
    /// `UnbalancedBrackets` where there is none. A cell delta above 255 fails
    /// with `CellDeltaOverflow`. A failure changes nothing.
    pub fn jit_instr(
        instruction: ByteCode,
        pc: usize,
        body: &mut Vec<IrInstr>,
        loops: &mut usize,
        matching_blocks: &mut Vec<(usize, usize)>,
    ) -> (r: Result<(), JitError>)
        requires
            *old(loops) < usize::MAX,
        ensures
            r is Err <==> cell_delta_overflows(instruction) || (instruction is JNZ && old(
                matching_blocks,
            )@.len() == 0),
            r is Err ==> {
                &&& final(body)@ == old(body)@
                &&& *final(loops) == *old(loops)
                &&& final(matching_blocks)@ == old(matching_blocks)@
                &&& r == Err::<(), JitError>(
                    if cell_delta_overflows(instruction) {
                        JitError::CellDeltaOverflow(pc)
                    } else {
                        JitError::UnbalancedBrackets(pc)
                    },
                )
            },
            r is Ok ==> {
                &&& final(body)@ == old(body)@ + lower_instr(
                    instruction,
                    if instruction is JNZ {
                        old(matching_blocks)@.last().1
                    } else {
                        *old(loops)
                    },
                )
                &&& *final(loops) == *old(loops) + if is_loop_head(instruction) {
                    1int
                } else {
                    0int
                }
                &&& final(matching_blocks)@ == match instruction {
                    ByteCode::JZ => old(matching_blocks)@.push((pc, *old(loops))),
                    ByteCode::JNZ => old(matching_blocks)@.drop_last(),
                    _ => old(matching_blocks)@,
                }
            },
    {
        match instruction {
            ByteCode::Nop => {
                assert(body@ =~= old(body)@ + Seq::<IrInstr>::empty());
            },
            ByteCode::DataPointerIncr(offset) => {
                push_shift_cursor(body, true, offset as u64);
            },
            ByteCode::DataPointerDecr(offset) => {
                push_shift_cursor(body, false, offset as u64);
            },
            ByteCode::DataIncr(delta) => {
                if delta > 255 {
                    return Err(JitError::CellDeltaOverflow(pc));
                }
                push_adjust_cell(body, true, delta as u8);
            },
            ByteCode::DataDecr(delta) => {
                if delta > 255 {
                    return Err(JitError::CellDeltaOverflow(pc));
                }
                push_adjust_cell(body, false, delta as u8);
            },
            ByteCode::Write => {
                push_fetch_cell(body);
                body.push(IrInstr::Widen { dst: 3, src: 2 });
                body.push(IrInstr::CallPut { arg: 3 });
                assert(body@ =~= old(body)@ + put_cell());
            },
            ByteCode::Read => {
                body.push(IrInstr::CallGet { dst: 0 });
                body.push(IrInstr::Narrow { dst: 1, src: 0 });
                body.push(IrInstr::LoadCursor { dst: 2 });
                body.push(IrInstr::CellAddr { dst: 3, index: 2 });
                body.push(IrInstr::StoreCell { addr: 3, src: 1 });
                assert(body@ =~= old(body)@ + get_cell());
            },
            ByteCode::JZ => {
                let l: usize = *loops;
                push_open_loop(body, l);
                matching_blocks.push((pc, l));
                *loops = l + 1;
            },
            ByteCode::JNZ => {
                match matching_blocks.pop() {
                    Some((_, l)) => {
                        push_close_loop(body, l);
                    },
                    None => {
                        return Err(JitError::UnbalancedBrackets(pc));
                    },
                }
            },
            ByteCode::SETZERO => {
                body.push(IrInstr::LoadCursor { dst: 0 });
                body.push(IrInstr::CellAddr { dst: 1, index: 0 });
                body.push(IrInstr::StoreCellImm { addr: 1, byte: 0 });
                assert(body@ =~= old(body)@ + clear_cell());
            },
            ByteCode::MoveInStepUntilZero(chng) => {
                let l: usize = *loops;
                match chng {
                    Change::Incr(x) => push_scan(body, true, x as u64, l),
                    Change::Decr(x) => push_scan(body, false, x as u64, l),
                }
                *loops = l + 1;
            },
        }
        Ok(())
    }

    /// Lowers a whole program.
    ///
    /// Succeeds exactly on the programs whose cell deltas fit a byte and whose
    /// brackets are balanced. The body then holds the instructions of the
    /// opcodes in program order, each `JNZ` ending the loop that its partner
    /// started, and a final `Return`. Otherwise the error is that of the first
    /// opcode that cannot be lowered, or, where each can, `UnbalancedBrackets`
    /// with the first `JZ` that is never closed.
    pub fn jit(&self, instructions: Vec<ByteCode>) -> (r: Result<IrFunction, JitError>)
        ensures
            match r {
                Ok(f) => {
                    &&& lowerable(instructions@)
                    &&& f.tape_cells == MEMORY_SIZE
                    &&& f.loops == loop_heads(instructions@, instructions@.len() as int)
                    &&& f.body@ == lower_prefix(instructions@, instructions@.len() as int).push(
                        IrInstr::Return,
                    )
                },
                Err(e) => lowering_error(instructions@, e),
            },
    {
        let mut body: Vec<IrInstr> = Vec::new();
        let mut loops: usize = 0;
        let mut matching_blocks: Vec<(usize, usize)> = Vec::new();
        let n: usize = instructions.len();
        let mut pc: usize = 0;
        let ghost ops = instructions@;
        let ghost ks = kinds(ops);
        proof {
            crate::brackets::lemma_pending_start(ks);
            assert(open_sites(matching_blocks@) =~= Seq::<int>::empty());
        }
        while pc < n
            invariant
                n == instructions.len(),
                ops == instructions@,
                ks == kinds(ops),
                pc <= n,
                pending(ks, pc as int, open_sites(matching_blocks@)),
                forall|p: int|
                    0 <= p < matching_blocks@.len() ==> (#[trigger] matching_blocks@[p]).1
                        == loop_heads(ops, matching_blocks@[p].0 as int),
                loops == loop_heads(ops, pc as int),
                body@ == lower_prefix(ops, pc as int),
                forall|m: int| 0 <= m < pc ==> lowering_fault(ops, m) is None,
            decreases n - pc,
        {
            let op = instructions[pc];
            let ghost stack = matching_blocks@;
            let ghost sites = open_sites(stack);
            proof {
                lemma_loop_heads_bound(ops, pc as int);
                lemma_loop_heads_bound(ops, pc as int + 1);
                assert(ks[pc as int] == op.spec_kind());
            }
            match Self::jit_instr(op, pc, &mut body, &mut loops, &mut matching_blocks) {
                Ok(()) => {
                    proof {
                        match op {
                            ByteCode::JZ => {
                                crate::brackets::lemma_pending_opener(ks, pc as int, sites);
                                assert(open_sites(matching_blocks@) =~= sites.push(pc as int));
                            },
                            ByteCode::JNZ => {
                                crate::brackets::lemma_pending_closer(ks, pc as int, sites);
                                assert(open_sites(matching_blocks@) =~= sites.drop_last());
                                assert(sites.last() == stack.last().0);
                                lemma_loop_heads_bound(ops, stack.last().0 as int);
                                assert(crate::brackets::paired(ks, pc as int, sites.last()));
                            },
                            _ => {
                                crate::brackets::lemma_pending_plain(ks, pc as int, sites);
                            },
                        }
                        assert(lowering_fault(ops, pc as int) is None);
                    }
                },
                Err(e) => {
                    proof {
                        if !cell_delta_overflows(op) {
                            crate::brackets::lemma_pending_stray(ks, pc as int, sites);
                        }
                        assert(lowering_fault(ops, pc as int) == Some(e));
                    }
                    return Err(e);
                },
            }
            pc += 1;
        }
        if matching_blocks.len() > 0 {
            let open_pc: usize = matching_blocks[0].0;
            proof {
                crate::brackets::lemma_pending_leftover(ks, open_sites(matching_blocks@));
                assert(open_sites(matching_blocks@)[0] == open_pc);
            }
            return Err(JitError::UnbalancedBrackets(open_pc));
        }
        proof {
            crate::brackets::lemma_pending_done(ks, open_sites(matching_blocks@));
        }
        body.push(IrInstr::Return);
        Ok(IrFunction { tape_cells: MEMORY_SIZE, loops, body })
    }
}

} // verus!
