//! The run-length bytecode: opcodes, programs, the peephole optimizer, the
//! jump resolver and the bytecode interpreter.

use vstd::prelude::*;
use vstd::slice::slice_subrange;
use crate::brackets::{
    first_unmatched, is_jump_table, lemma_balanced_iff_settles, lemma_settles_shift,
    lemma_well_bracketed_iff_balanced, resolve, settles, well_bracketed, Bracket,
};
use crate::agreement::{bears_out, lemma_optimizer_keeps_runs};
use crate::error::JitError;
use crate::machine::{initial_state, run, run_spec, step_spec, Execution, Machine, Step};

verus! {

/// Direction and stride of a scan.
#[derive(Debug, Clone, Copy, PartialEq, Eq, Structural)]
pub enum Change {
    /// Towards higher cells.
    Incr(usize),
    /// Towards lower cells.
    Decr(usize),
}

/// One opcode of the bytecode.
#[derive(Debug, Clone, Copy, PartialEq, Eq, Structural)]
pub enum ByteCode {
    /// Does nothing.
    Nop,
    /// `>` repeated: moves the cursor up.
    DataPointerIncr(usize),
    /// `<` repeated: moves the cursor down, stopping at cell 0.
    DataPointerDecr(usize),
    /// `+` repeated: adds to the current cell, modulo 256.
    DataIncr(usize),
    /// `-` repeated: subtracts from the current cell, modulo 256.
    DataDecr(usize),
    /// `.`: writes the current cell.
    Write,
    /// `,`: reads a byte into the current cell.
    Read,
    /// `[`: jumps behind the matching `JNZ` when the current cell is zero.
    JZ,
    /// `]`: jumps behind the matching `JZ` when the current cell is not zero.
    JNZ,
    /// Stores zero into the current cell; stands for `[+]` and `[-]`.
    SETZERO,
    /// Moves the cursor in fixed steps until it rests on a zero cell; stands
    /// for `[>>>]` and `[<<<]`.
    MoveInStepUntilZero(Change),
}

impl ByteCode {
    /// What this opcode means for control flow.
    pub open spec fn spec_kind(self) -> Bracket {
        match self {
            ByteCode::JZ => Bracket::Opener,
            ByteCode::JNZ => Bracket::Closer,
            _ => Bracket::Plain,
        }
    }

    /// What this opcode means for control flow.
    #[verifier::when_used_as_spec(spec_kind)]
    pub fn kind(self) -> (b: Bracket)
        ensures
            b == self.spec_kind(),
    {
        match self {
            ByteCode::JZ => Bracket::Opener,
            ByteCode::JNZ => Bracket::Closer,
            _ => Bracket::Plain,
        }
    }
}

/// The bracket kinds of an opcode sequence, position by position.
pub open spec fn kinds(ops: Seq<ByteCode>) -> Seq<Bracket> {
    ops.map_values(|op: ByteCode| op.spec_kind())
}

/// A program in bytecode.
#[derive(Debug)]
pub struct ByteCodeProgram {
    pub instructions: Vec<ByteCode>,
}

/// What the window `a`, `b`, `c` is rewritten to, if it is rewritten: a loop
/// around one cell change clears the cell, a loop around one cursor move
/// scans.
pub open spec fn peephole(a: ByteCode, b: ByteCode, c: ByteCode) -> Option<ByteCode> {
    if a is JZ && c is JNZ {
        match b {
            ByteCode::DataIncr(_) => Some(ByteCode::SETZERO),
            ByteCode::DataDecr(_) => Some(ByteCode::SETZERO),
            ByteCode::DataPointerIncr(k) => Some(ByteCode::MoveInStepUntilZero(Change::Incr(k))),
            ByteCode::DataPointerDecr(k) => Some(ByteCode::MoveInStepUntilZero(Change::Decr(k))),
            _ => None,
        }
    } else {
        None
    }
}

/// What the window of three opcodes at `i` is rewritten to, if there is one
/// and it is rewritten.
pub open spec fn peephole_at(ops: Seq<ByteCode>, i: int) -> Option<ByteCode> {
    if 0 <= i && i + 2 < ops.len() {
        peephole(ops[i], ops[i + 1], ops[i + 2])
    } else {
        None
    }
}

/// The result of the optimizer on the opcodes from `i` on: a single pass from
/// left to right, in which a window that is rewritten gives one opcode and is
/// skipped as a whole.
pub open spec fn optimize_from(ops: Seq<ByteCode>, i: int) -> Seq<ByteCode>
    decreases ops.len() - i,
{
    if i < 0 || i >= ops.len() {
        Seq::empty()
    } else {
        match peephole_at(ops, i) {
            Some(r) => seq![r] + optimize_from(ops, i + 3),
            None => seq![ops[i]] + optimize_from(ops, i + 1),
        }
    }
}

/// The result of the optimizer.
pub open spec fn optimized(ops: Seq<ByteCode>) -> Seq<ByteCode> {
    optimize_from(ops, 0)
}

/// Number of windows that the pass rewrites from `i` on.
pub open spec fn rewrites_from(ops: Seq<ByteCode>, i: int) -> nat
    decreases ops.len() - i,
{
    if i < 0 || i >= ops.len() {
        0
    } else {
        match peephole_at(ops, i) {
            Some(_) => 1 + rewrites_from(ops, i + 3),
            None => rewrites_from(ops, i + 1),
        }
    }
}

/// Every rewrite shortens the program by two opcodes.
pub proof fn lemma_optimize_len(ops: Seq<ByteCode>, i: int)
    requires
        0 <= i <= ops.len(),
    ensures
        optimize_from(ops, i).len() + 2 * rewrites_from(ops, i) == ops.len() - i,
    decreases ops.len() - i,
{
    if i < ops.len() {
        if peephole_at(ops, i) is Some {
            lemma_optimize_len(ops, i + 3);
        } else {
            lemma_optimize_len(ops, i + 1);
        }
    }
}

/// Where a window at or behind `i` matches a pattern, the pass from `i` on
/// rewrites at least once.
pub proof fn lemma_match_is_rewritten(ops: Seq<ByteCode>, i: int, at: int)
    requires
        0 <= i <= at,
        peephole_at(ops, at) is Some,
    ensures
        rewrites_from(ops, i) >= 1,
    decreases at - i,
{
    if peephole_at(ops, i) is None {
        lemma_match_is_rewritten(ops, i + 1, at);
    }
}

/// The optimizer never lengthens a program, and shortens it where any window
/// matches a pattern.
pub proof fn lemma_optimized_shrinks(ops: Seq<ByteCode>)
    ensures
        optimized(ops).len() <= ops.len(),
        (exists|at: int| peephole_at(ops, at) is Some) ==> optimized(ops).len() < ops.len(),
{
    lemma_optimize_len(ops, 0);
    if exists|at: int| peephole_at(ops, at) is Some {
        let at = choose|at: int| peephole_at(ops, at) is Some;
        lemma_match_is_rewritten(ops, 0, at);
    }
}

/// The depth settles over the opcodes from `i` on exactly if it settles over
/// their optimized form.
proof fn lemma_optimize_settles(ops: Seq<ByteCode>, i: int, d: int)
    requires
        0 <= i <= ops.len(),
        0 <= d,
    ensures
        settles(kinds(ops), i, d) <==> settles(kinds(optimize_from(ops, i)), 0, d),
    decreases ops.len() - i,
{
    let ks = kinds(ops);
    if i < ops.len() {
        match peephole_at(ops, i) {
            Some(r) => {
                let rest = optimize_from(ops, i + 3);
                assert(kinds(seq![r] + rest) =~= seq![r.spec_kind()] + kinds(rest));
                lemma_settles_shift(r.spec_kind(), kinds(rest), 0, d);
                lemma_optimize_settles(ops, i + 3, d);
                assert(ks[i] == Bracket::Opener);
                assert(ks[i + 1] == Bracket::Plain);
                assert(ks[i + 2] == Bracket::Closer);
                assert(settles(ks, i, d) == settles(ks, i + 1, d + 1));
                assert(settles(ks, i + 1, d + 1) == settles(ks, i + 2, d + 1));
                assert(settles(ks, i + 2, d + 1) == settles(ks, i + 3, d));
            },
            None => {
                let rest = optimize_from(ops, i + 1);
                let e = d + crate::brackets::delta(ks[i]);
                assert(kinds(seq![ops[i]] + rest) =~= seq![ops[i].spec_kind()] + kinds(rest));
                lemma_settles_shift(ops[i].spec_kind(), kinds(rest), 0, e);
                if e >= 0 {
                    lemma_optimize_settles(ops, i + 1, e);
                }
            },
        }
    }
}

/// The optimizer preserves bracket balance: a program is well bracketed
/// exactly if its optimized form is.
pub proof fn lemma_optimized_keeps_balance(ops: Seq<ByteCode>)
    ensures
        well_bracketed(kinds(ops)) <==> well_bracketed(kinds(optimized(ops))),
{
    lemma_well_bracketed_iff_balanced(kinds(ops));
    lemma_balanced_iff_settles(kinds(ops));
    lemma_optimize_settles(ops, 0, 0);
    lemma_balanced_iff_settles(kinds(optimized(ops)));
    lemma_well_bracketed_iff_balanced(kinds(optimized(ops)));
}

impl ByteCodeProgram {
    /// The jump table: for every `JZ` and `JNZ` the index of its partner, for
    /// every other opcode zero. Fails with `UnbalancedBrackets` and the index
    /// of the first bracket without a partner where there is one.
    pub fn compute_jumptable(&self) -> (r: Result<Vec<usize>, JitError>)
        ensures
            match r {
                Ok(t) => well_bracketed(kinds(self.instructions@)) && is_jump_table(
                    kinds(self.instructions@),
                    t@,
                ),
                Err(e) => match e {
                    JitError::UnbalancedBrackets(pc) => first_unmatched(
                        kinds(self.instructions@),
                        pc as int,
                    ),
                    _ => false,
                },
            },
    {
        let n: usize = self.instructions.len();
        let mut ks: Vec<Bracket> = Vec::new();
        let mut i: usize = 0;
        while i < n
            invariant
                n == self.instructions@.len(),
                i <= n,
                ks@ == kinds(self.instructions@).take(i as int),
            decreases n - i,
        {
            ks.push(self.instructions[i].kind());
            i += 1;
            assert(ks@ =~= kinds(self.instructions@).take(i as int));
        }
        assert(ks@ =~= kinds(self.instructions@));
        match resolve(&ks) {
            Ok(table) => Ok(table),
            Err(pc) => Err(JitError::UnbalancedBrackets(pc)),
        }
    }

    /// Whether the opcodes start with a loop around one cell change.
    pub fn is_set_zero(instructions: &[ByteCode]) -> (b: bool)
        ensures
            b == (instructions@.len() >= 3 && peephole(
                instructions@[0],
                instructions@[1],
                instructions@[2],
            ) == Some(ByteCode::SETZERO)),
    {
        if instructions.len() >= 3 {
            match (instructions[0], instructions[1], instructions[2]) {
                (ByteCode::JZ, ByteCode::DataIncr(_), ByteCode::JNZ) => {
                    return true;
                },
                (ByteCode::JZ, ByteCode::DataDecr(_), ByteCode::JNZ) => {
                    return true;
                },
                _ => {
                    return false;
                },
            }
        }
        return false;
    }

    /// The scan that the opcodes start with, if they start with a loop around
    /// one cursor move.
    pub fn is_move_until_zero(instructions: &[ByteCode]) -> (r: Option<Change>)
        ensures
            match r {
                Some(c) => instructions@.len() >= 3 && peephole(
                    instructions@[0],
                    instructions@[1],
                    instructions@[2],
                ) == Some(ByteCode::MoveInStepUntilZero(c)),
                None => instructions@.len() < 3 || !(peephole(
                    instructions@[0],
                    instructions@[1],
                    instructions@[2],
                ) matches Some(ByteCode::MoveInStepUntilZero(_))),
            },
    {
        if instructions.len() >= 3 {
            match (instructions[0], instructions[1], instructions[2]) {
                (ByteCode::JZ, ByteCode::DataPointerIncr(x), ByteCode::JNZ) => {
                    return Some(Change::Incr(x));
                },
                (ByteCode::JZ, ByteCode::DataPointerDecr(x), ByteCode::JNZ) => {
                    return Some(Change::Decr(x));
                },
                _ => {
                    return None;
                },
            }
        }
        return None;
    }

    /// The peephole optimizer: one pass from left to right that rewrites every
    /// loop around a single cell change to `SETZERO` and every loop around a
    /// single cursor move to a scan.
    ///
    /// The program gets no longer, gets shorter where any window matches a
    /// pattern, and is well bracketed afterwards exactly if it was before. A
    /// well-bracketed program keeps what it does: on every input and budget the
    /// new program writes everything that the old one writes, and ends as the
    /// old one does where that ends.
    pub fn opt_pass_1(&mut self)
        ensures
            well_bracketed(kinds(old(self).instructions@)) ==> forall|input: Seq<u8>, fuel: nat|
                bears_out(
                    #[trigger] run_spec(old(self).instructions@, initial_state(), input, fuel),
                    run_spec(final(self).instructions@, initial_state(), input, fuel),
                ),
            final(self).instructions@ == optimized(old(self).instructions@),
            final(self).instructions@.len() <= old(self).instructions@.len(),
            (exists|at: int| peephole_at(old(self).instructions@, at) is Some)
                ==> final(self).instructions@.len() < old(self).instructions@.len(),
            well_bracketed(kinds(old(self).instructions@)) <==> well_bracketed(
                kinds(final(self).instructions@),
            ),
    {
        let mut index: usize = 0;
        let prog_size: usize = self.instructions.len();
        let mut new_instructions: Vec<ByteCode> = Vec::new();
        let ghost ops = self.instructions@;
        while index < prog_size
            invariant
                ops == self.instructions@,
                prog_size == ops.len(),
                index <= prog_size,
                new_instructions@ + optimize_from(ops, index as int) == optimized(ops),
            decreases prog_size - index,
        {
            let ghost done = new_instructions@;
            let ghost at = index as int;
            let tail = slice_subrange(self.instructions.as_slice(), index, prog_size);
            let mut step: usize = 1;
            let code = match self.instructions[index] {
                ByteCode::JZ => {
                    if Self::is_set_zero(tail) {
                        step = 3;
                        ByteCode::SETZERO
                    } else {
                        match Self::is_move_until_zero(tail) {
                            Some(chng) => {
                                step = 3;
                                ByteCode::MoveInStepUntilZero(chng)
                            },
                            None => ByteCode::JZ,
                        }
                    }
                },
                instr => instr,
            };
            proof {
                if at + 2 < prog_size {
                    assert(tail@[0] == ops[at]);
                    assert(tail@[1] == ops[at + 1]);
                    assert(tail@[2] == ops[at + 2]);
                }
                assert(peephole_at(ops, at) == if step == 3 {
                    Some(code)
                } else {
                    None::<ByteCode>
                });
            }
            new_instructions.push(code);
            index += step;
            proof {
                assert(done + (seq![code] + optimize_from(ops, index as int)) =~= new_instructions@
                    + optimize_from(ops, index as int));
            }
        }
        proof {
            assert(new_instructions@ =~= optimized(ops));
            lemma_optimized_shrinks(ops);
            lemma_optimized_keeps_balance(ops);
            if well_bracketed(kinds(ops)) {
                assert forall|input: Seq<u8>, fuel: nat|
                    bears_out(
                        #[trigger] run_spec(ops, initial_state(), input, fuel),
                        run_spec(optimized(ops), initial_state(), input, fuel),
                    ) by {
                    lemma_optimizer_keeps_runs(ops, input, fuel);
                }
            }
        }
        self.instructions = new_instructions;
    }

    /// One step of the program on `machine`. `jumptable` is the program's jump
    /// table. `input` is the byte on offer to an input opcode; where the step
    /// returns `NeedInput`, nothing has changed and the step is to be repeated
    /// with a byte.
    pub fn step(&self, jumptable: &Vec<usize>, machine: &mut Machine, input: Option<u8>) -> (r: Step)
        requires
            is_jump_table(kinds(self.instructions@), jumptable@),
            old(machine).wf(),
        ensures
            final(machine).wf(),
            final(machine)@ == step_spec(self.instructions@, old(machine)@, input).0,
            r == step_spec(self.instructions@, old(machine)@, input).1,
    {
        crate::machine::step(&self.instructions, jumptable, machine, input)
    }

    /// Runs the program from the initial state for at most `fuel` steps, with
    /// `input` as its input, and returns what it wrote and why it stopped.
    /// Fails with `UnbalancedBrackets` where the program has no jump table.
    pub fn eval(&self, input: &[u8], fuel: usize) -> (r: Result<Execution, JitError>)
        ensures
            match r {
                Ok(x) => {
                    &&& well_bracketed(kinds(self.instructions@))
                    &&& x.output@ == run_spec(
                        self.instructions@,
                        initial_state(),
                        input@,
                        fuel as nat,
                    ).0
                    &&& x.halt == run_spec(
                        self.instructions@,
                        initial_state(),
                        input@,
                        fuel as nat,
                    ).1
                },
                Err(e) => match e {
                    JitError::UnbalancedBrackets(pc) => first_unmatched(
                        kinds(self.instructions@),
                        pc as int,
                    ),
                    _ => false,
                },
            },
    {
        match self.compute_jumptable() {
            Ok(jumptable) => Ok(run(&self.instructions, &jumptable, input, fuel)),
            Err(e) => Err(e),
        }
    }
}

} // verus!
