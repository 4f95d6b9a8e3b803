//! Programs as token sequences: the jump resolver and the tree-walking
//! interpreter.

use vstd::prelude::*;
use crate::brackets::{
    first_unmatched, is_jump_table, lemma_jump_table_involution, partner, resolve,
    well_bracketed, Bracket,
};
use crate::bytecode_bf::{kinds, ByteCode};
use crate::error::JitError;
use crate::machine::{initial_state, run, run_spec, step_spec, Execution, Machine, Step};
use crate::parser::{lower_token, token_opcode};

verus! {

/// `c` is one of the eight characters of the language.
pub open spec fn is_token(c: char) -> bool {
    c == '>' || c == '<' || c == '+' || c == '-' || c == '.' || c == ',' || c == '[' || c == ']'
}

/// What a token means for control flow.
pub open spec fn token_kind(c: char) -> Bracket {
    if c == '[' {
        Bracket::Opener
    } else if c == ']' {
        Bracket::Closer
    } else {
        Bracket::Plain
    }
}

/// The bracket kinds of a token sequence, position by position.
pub open spec fn token_kinds(tokens: Seq<char>) -> Seq<Bracket> {
    tokens.map_values(|c: char| token_kind(c))
}

/// A program as the lexer hands it out.
#[derive(Debug)]
pub struct Program {
    pub instructions: Vec<char>,
}

/// The opcodes that the tokens stand for, one for one: every counted token
/// with the count 1.
pub open spec fn unit_ops(tokens: Seq<char>) -> Seq<ByteCode> {
    tokens.map_values(|c: char| lower_token(c, 1))
}

/// The opcodes of a token sequence have its brackets.
pub proof fn lemma_unit_ops_kinds(tokens: Seq<char>)
    ensures
        kinds(unit_ops(tokens)) == token_kinds(tokens),
{
    assert(kinds(unit_ops(tokens)) =~= token_kinds(tokens));
}

/// The bracket kind of a token.
fn kind_of(c: char) -> (b: Bracket)
    ensures
        b == token_kind(c),
{
    if c == '[' {
        Bracket::Opener
    } else if c == ']' {
        Bracket::Closer
    } else {
        Bracket::Plain
    }
}

impl Program {
    /// Every instruction is one of the eight tokens.
    pub open spec fn well_formed(&self) -> bool {
        forall|k: int| 0 <= k < self.instructions@.len() ==> is_token(#[trigger] self.instructions@[k])
    }

    /// The jump table: for every `[` and `]` the index of its partner, for
    /// every other token zero. Fails with `UnbalancedBrackets` and the index of
    /// the first bracket without a partner where there is one.
    pub fn compute_jumptable(&self) -> (r: Result<Vec<usize>, JitError>)
        ensures
            match r {
                Ok(t) => well_bracketed(token_kinds(self.instructions@)) && is_jump_table(
                    token_kinds(self.instructions@),
                    t@,
                ),
                Err(e) => match e {
                    JitError::UnbalancedBrackets(pc) => first_unmatched(
                        token_kinds(self.instructions@),
                        pc as int,
                    ),
                    _ => false,
                },
            },
    {
        let n: usize = self.instructions.len();
        let mut ks: Vec<Bracket> = Vec::new();
        let mut i: usize = 0;
        while i < n
            invariant
                n == self.instructions@.len(),
                i <= n,
                ks@ == token_kinds(self.instructions@).take(i as int),
            decreases n - i,
        {
            ks.push(kind_of(self.instructions[i]));
            i += 1;
            assert(ks@ =~= token_kinds(self.instructions@).take(i as int));
        }
        assert(ks@ =~= token_kinds(self.instructions@));
        match resolve(&ks) {
            Ok(table) => Ok(table),
            Err(pc) => Err(JitError::UnbalancedBrackets(pc)),
        }
    }

    /// One step of the program on `machine`: the token at the program counter
    /// acts as its opcode with the count 1. `jumptable` is the program's jump
    /// table. `input` is the byte on offer to `,`; where the step returns
    /// `NeedInput`, nothing has changed and the step is to be repeated with a
    /// byte.
    pub fn step(&self, jumptable: &Vec<usize>, machine: &mut Machine, input: Option<u8>) -> (r: Step)
        requires
            is_jump_table(token_kinds(self.instructions@), jumptable@),
            old(machine).wf(),
        ensures
            final(machine).wf(),
            final(machine)@ == step_spec(unit_ops(self.instructions@), old(machine)@, input).0,
            r == step_spec(unit_ops(self.instructions@), old(machine)@, input).1,
    {
        if machine.pc >= self.instructions.len() {
            return Step::Done;
        }
        let op = token_opcode(self.instructions[machine.pc], 1);
        let target: usize = jumptable[machine.pc];
        proof {
            let pc = machine.pc as int;
            let ks = token_kinds(self.instructions@);
            lemma_unit_ops_kinds(self.instructions@);
            assert(ks[pc] == op.spec_kind());
            if op is JZ || op is JNZ {
                lemma_jump_table_involution(ks, jumptable@, pc);
            } else {
                assert(jumptable@[pc] == 0);
            }
        }
        machine.apply(op, target, input)
    }

    /// Runs the program from the initial state for at most `fuel` steps, with
    /// `input` as its input, and returns what it wrote and why it stopped.
    /// Fails with `UnbalancedBrackets` where the program has no jump table.
    pub fn eval(&self, input: &[u8], fuel: usize) -> (r: Result<Execution, JitError>)
        ensures
            match r {
                Ok(x) => {
                    &&& well_bracketed(token_kinds(self.instructions@))
                    &&& x.output@ == run_spec(
                        unit_ops(self.instructions@),
                        initial_state(),
                        input@,
                        fuel as nat,
                    ).0
                    &&& x.halt == run_spec(
                        unit_ops(self.instructions@),
                        initial_state(),
                        input@,
                        fuel as nat,
                    ).1
                },
                Err(e) => match e {
                    JitError::UnbalancedBrackets(pc) => first_unmatched(
                        token_kinds(self.instructions@),
                        pc as int,
                    ),
                    _ => false,
                },
            },
    {
        let jumptable = match self.compute_jumptable() {
            Ok(t) => t,
            Err(e) => {
                return Err(e);
            },
        };
        let n: usize = self.instructions.len();
        let mut ops: Vec<ByteCode> = Vec::new();
        let mut i: usize = 0;
        while i < n
            invariant
                n == self.instructions@.len(),
                i <= n,
                ops@ == unit_ops(self.instructions@).take(i as int),
            decreases n - i,
        {
            ops.push(token_opcode(self.instructions[i], 1));
            i += 1;
            assert(ops@ =~= unit_ops(self.instructions@).take(i as int));
        }
        proof {
            assert(ops@ =~= unit_ops(self.instructions@));
            lemma_unit_ops_kinds(self.instructions@);
        }
        Ok(run(&ops, &jumptable, input, fuel))
    }
}

} // verus!
