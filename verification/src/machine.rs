//! The memory model that all engines share, and the meaning of every opcode
//! on it: a tape of `MEMORY_SIZE` byte cells, a cursor and a program counter.

use vstd::prelude::*;
use crate::brackets::{is_jump_table, lemma_jump_table_involution, partner};
use crate::bytecode_bf::{kinds, ByteCode, Change};
use crate::MEMORY_SIZE;

verus! {

/// A cell after adding `n`, modulo 256.
pub open spec fn cell_add(v: u8, n: usize) -> u8 {
    ((v + n) % 256) as u8
}

/// A cell after subtracting `n`, modulo 256.
pub open spec fn cell_sub(v: u8, n: usize) -> u8 {
    ((v - n) % 256) as u8
}

/// The cursor after moving down by `n` from `k`: it stops at cell 0.
pub open spec fn cursor_down(k: int, n: int) -> int {
    if n >= k {
        0
    } else {
        k - n
    }
}

/// Adding a delta to a cell and subtracting it again gives the cell back.
pub proof fn lemma_cell_round_trip(v: u8, d: usize)
    ensures
        cell_sub(cell_add(v, d), d) == v,
        cell_add(cell_sub(v, d), d) == v,
{
}

/// Moving down from cell 0 leaves the cursor at cell 0, whatever the distance.
pub proof fn lemma_cursor_down_at_zero(n: int)
    requires
        0 <= n,
    ensures
        cursor_down(0, n) == 0,
{
}

/// The state of a machine as plain values.
pub struct MachineState {
    pub tape: Seq<u8>,
    pub cursor: int,
    pub pc: int,
}

/// The state in which every execution starts: all cells zero, cursor and
/// program counter at 0.
pub open spec fn initial_state() -> MachineState {
    MachineState { tape: Seq::new(MEMORY_SIZE as nat, |i: int| 0u8), cursor: 0, pc: 0 }
}

/// What the caller of a step has to do next.
#[derive(Debug, Clone, Copy, PartialEq, Eq, Structural)]
pub enum Step {
    /// Nothing: take the next step.
    Continue,
    /// Write this byte to the output, then take the next step.
    Output(u8),
    /// The machine stands at an input opcode and was given no byte. Nothing
    /// has changed: read a byte and repeat the step with it.
    NeedInput,
    /// The program counter is behind the last opcode: the program has ended.
    Done,
    /// The cursor would leave the tape. Nothing has changed.
    TapeOverrun,
}

/// Why a bounded execution stopped.
#[derive(Debug, Clone, Copy, PartialEq, Eq, Structural)]
pub enum Halt {
    /// The program ended.
    Finished,
    /// The step budget was used up.
    OutOfFuel,
    /// An input opcode found the input used up.
    InputExhausted,
    /// The cursor would have left the tape.
    TapeOverrun,
}

/// The outcome of a bounded execution.
#[derive(Debug)]
pub struct Execution {
    /// The bytes written, followed by a newline if the program ended.
    pub output: Vec<u8>,
    /// Why the execution stopped.
    pub halt: Halt,
}

/// The effect of one opcode. `target` is the index of its partner, for `JZ`
/// and `JNZ`. `input` is the byte on offer to an input opcode.
///
/// A scan is one step per move: it stays at its opcode while the current cell
/// is not zero.
pub open spec fn apply_spec(op: ByteCode, target: int, st: MachineState, input: Option<u8>) -> (
    MachineState,
    Step,
) {
    let cell = st.tape[st.cursor];
    let next = MachineState { pc: st.pc + 1, ..st };
    match op {
        ByteCode::Nop => (next, Step::Continue),
        ByteCode::DataPointerIncr(n) => if st.cursor + n >= MEMORY_SIZE {
            (st, Step::TapeOverrun)
        } else {
            (MachineState { cursor: st.cursor + n, ..next }, Step::Continue)
        },
        ByteCode::DataPointerDecr(n) => (
            MachineState { cursor: cursor_down(st.cursor, n as int), ..next },
            Step::Continue,
        ),
        ByteCode::DataIncr(n) => (
            MachineState { tape: st.tape.update(st.cursor, cell_add(cell, n)), ..next },
            Step::Continue,
        ),
        ByteCode::DataDecr(n) => (
            MachineState { tape: st.tape.update(st.cursor, cell_sub(cell, n)), ..next },
            Step::Continue,
        ),
        ByteCode::Write => (next, Step::Output(cell)),
        ByteCode::Read => match input {
            Some(b) => (MachineState { tape: st.tape.update(st.cursor, b), ..next }, Step::Continue),
            None => (st, Step::NeedInput),
        },
        ByteCode::JZ => if cell == 0 {
            (MachineState { pc: target + 1, ..st }, Step::Continue)
        } else {
            (next, Step::Continue)
        },
        ByteCode::JNZ => if cell != 0 {
            (MachineState { pc: target + 1, ..st }, Step::Continue)
        } else {
            (next, Step::Continue)
        },
        ByteCode::SETZERO => (
            MachineState { tape: st.tape.update(st.cursor, 0u8), ..next },
            Step::Continue,
        ),
        ByteCode::MoveInStepUntilZero(c) => if cell == 0 {
            (next, Step::Continue)
        } else {
            match c {
                Change::Incr(n) => if st.cursor + n >= MEMORY_SIZE {
                    (st, Step::TapeOverrun)
                } else {
                    (MachineState { cursor: st.cursor + n, ..st }, Step::Continue)
                },
                Change::Decr(n) => (
                    MachineState { cursor: cursor_down(st.cursor, n as int), ..st },
                    Step::Continue,
                ),
            }
        },
    }
}

/// One step of a program: the effect of the opcode at the program counter,
/// or `Done` behind the last opcode.
pub open spec fn step_spec(ops: Seq<ByteCode>, st: MachineState, input: Option<u8>) -> (
    MachineState,
    Step,
) {
    if st.pc >= ops.len() {
        (st, Step::Done)
    } else {
        apply_spec(ops[st.pc], partner(kinds(ops), st.pc), st, input)
    }
}

/// The outcome of running a program from state `st` for at most `fuel` steps,
/// with `input` as the bytes still unread: the bytes written and why the run
/// stopped. A program that ends writes a final newline.
pub open spec fn run_spec(ops: Seq<ByteCode>, st: MachineState, input: Seq<u8>, fuel: nat) -> (
    Seq<u8>,
    Halt,
)
    decreases fuel,
{
    let asked = step_spec(ops, st, None);
    if asked.1 == Step::Done {
        (seq![10u8], Halt::Finished)
    } else if fuel == 0 {
        (Seq::empty(), Halt::OutOfFuel)
    } else if asked.1 == Step::TapeOverrun {
        (Seq::empty(), Halt::TapeOverrun)
    } else if asked.1 == Step::NeedInput {
        if input.len() == 0 {
            (Seq::empty(), Halt::InputExhausted)
        } else {
            run_spec(ops, step_spec(ops, st, Some(input[0])).0, input.skip(1), (fuel - 1) as nat)
        }
    } else {
        let rest = run_spec(ops, asked.0, input, (fuel - 1) as nat);
        match asked.1 {
            Step::Output(b) => (seq![b] + rest.0, rest.1),
            _ => rest,
        }
    }
}

/// The empty program ends at once, on every input and budget, and writes only
/// the final newline.
pub proof fn lemma_empty_program_only_ends(input: Seq<u8>, fuel: nat)
    ensures
        run_spec(Seq::<ByteCode>::empty(), initial_state(), input, fuel) == (
            seq![10u8],
            Halt::Finished,
        ),
{
}

/// `SETZERO` leaves the current cell zero, whatever it held, and changes
/// nothing else but the program counter.
pub proof fn lemma_set_zero_clears(st: MachineState, target: int, input: Option<u8>)
    requires
        0 <= st.cursor < st.tape.len(),
    ensures
        apply_spec(ByteCode::SETZERO, target, st, input).1 == Step::Continue,
        apply_spec(ByteCode::SETZERO, target, st, input).0.tape == st.tape.update(st.cursor, 0u8),
        apply_spec(ByteCode::SETZERO, target, st, input).0.tape[st.cursor] == 0,
        apply_spec(ByteCode::SETZERO, target, st, input).0.cursor == st.cursor,
        apply_spec(ByteCode::SETZERO, target, st, input).0.pc == st.pc + 1,
{
}

/// A machine: the tape, the cursor and the program counter.
#[derive(Debug)]
pub struct Machine {
    pub memory: Vec<u8>,
    pub data_counter: usize,
    pub pc: usize,
}

impl View for Machine {
    type V = MachineState;

    open spec fn view(&self) -> MachineState {
        MachineState { tape: self.memory@, cursor: self.data_counter as int, pc: self.pc as int }
    }
}

impl Machine {
    /// The tape has its full size and the cursor is on it.
    pub open spec fn wf(&self) -> bool {
        &&& self.memory@.len() == MEMORY_SIZE
        &&& self.data_counter < MEMORY_SIZE
    }

    /// A machine in the initial state.
    pub fn new() -> (m: Machine)
        ensures
            m.wf(),
            m@ == initial_state(),
    {
        let mut memory: Vec<u8> = Vec::new();
        let mut i: usize = 0;
        while i < MEMORY_SIZE
            invariant
                i <= MEMORY_SIZE,
                memory@.len() == i,
                forall|k: int| 0 <= k < i ==> memory@[k] == 0u8,
            decreases MEMORY_SIZE - i,
        {
            memory.push(0);
            i += 1;
        }
        assert(memory@ =~= initial_state().tape);
        Machine { memory, data_counter: 0, pc: 0 }
    }

    /// Carries out one opcode. `target` is the index of the opcode's partner,
    /// for `JZ` and `JNZ`; `input` is the byte on offer to an input opcode.
    pub fn apply(&mut self, op: ByteCode, target: usize, input: Option<u8>) -> (r: Step)
        requires
            old(self).wf(),
            old(self).pc < usize::MAX,
            target < usize::MAX,
        ensures
            final(self).wf(),
            final(self)@ == apply_spec(op, target as int, old(self)@, input).0,
            r == apply_spec(op, target as int, old(self)@, input).1,
    {
        let cell: u8 = self.memory[self.data_counter];
        let mut r = Step::Continue;
        match op {
            ByteCode::Nop => {
                self.pc = self.pc + 1;
            },
            ByteCode::DataPointerIncr(n) => {
                if n >= MEMORY_SIZE - self.data_counter {
                    r = Step::TapeOverrun;
                } else {
                    self.data_counter = self.data_counter + n;
                    self.pc = self.pc + 1;
                }
            },
            ByteCode::DataPointerDecr(n) => {
                self.data_counter = if n >= self.data_counter {
                    0
                } else {
                    self.data_counter - n
                };
                self.pc = self.pc + 1;
            },
            ByteCode::DataIncr(n) => {
                let sum: usize = cell as usize + n % 256;
                self.memory.set(self.data_counter, (sum % 256) as u8);
                self.pc = self.pc + 1;
            },
            ByteCode::DataDecr(n) => {
                let rest: usize = cell as usize + 256 - n % 256;
                self.memory.set(self.data_counter, (rest % 256) as u8);
                self.pc = self.pc + 1;
            },
            ByteCode::Write => {
                r = Step::Output(cell);
                self.pc = self.pc + 1;
            },
            ByteCode::Read => {
                match input {
                    Some(b) => {
                        self.memory.set(self.data_counter, b);
                        self.pc = self.pc + 1;
                    },
                    None => {
                        r = Step::NeedInput;
                    },
                }
            },
            ByteCode::JZ => {
                if cell == 0 {
                    self.pc = target + 1;
                } else {
                    self.pc = self.pc + 1;
                }
            },
            ByteCode::JNZ => {
                if cell != 0 {
                    self.pc = target + 1;
                } else {
                    self.pc = self.pc + 1;
                }
            },
            ByteCode::SETZERO => {
                self.memory.set(self.data_counter, 0);
                self.pc = self.pc + 1;
            },
            ByteCode::MoveInStepUntilZero(chng) => {
                if cell == 0 {
                    self.pc = self.pc + 1;
                } else {
                    match chng {
                        Change::Incr(n) => {
                            if n >= MEMORY_SIZE - self.data_counter {
                                r = Step::TapeOverrun;
                            } else {
                                self.data_counter = self.data_counter + n;
                            }
                        },
                        Change::Decr(n) => {
                            self.data_counter = if n >= self.data_counter {
                                0
                            } else {
                                self.data_counter - n
                            };
                        },
                    }
                }
            },
        }
        assert(self@.tape =~= apply_spec(op, target as int, old(self)@, input).0.tape);
        r
    }
}

/// One step of the program `ops` on `machine`, with `jumptable` as its jump
/// table.
pub fn step(ops: &Vec<ByteCode>, jumptable: &Vec<usize>, machine: &mut Machine, input: Option<u8>) -> (r: Step)
    requires
        is_jump_table(kinds(ops@), jumptable@),
        old(machine).wf(),
    ensures
        final(machine).wf(),
        final(machine)@ == step_spec(ops@, old(machine)@, input).0,
        r == step_spec(ops@, old(machine)@, input).1,
{
    if machine.pc >= ops.len() {
        return Step::Done;
    }
    let op = ops[machine.pc];
    let target: usize = jumptable[machine.pc];
    proof {
        let pc = machine.pc as int;
        assert(kinds(ops@)[pc] == op.spec_kind());
        if op is JZ || op is JNZ {
            lemma_jump_table_involution(kinds(ops@), jumptable@, pc);
        } else {
            assert(jumptable@[pc] == 0);
        }
    }
    machine.apply(op, target, input)
}

/// Runs the program `ops` from the initial state for at most `fuel` steps,
/// taking its input from `input`.
pub fn run(ops: &Vec<ByteCode>, jumptable: &Vec<usize>, input: &[u8], fuel: usize) -> (r: Execution)
    requires
        is_jump_table(kinds(ops@), jumptable@),
    ensures
        r.output@ == run_spec(ops@, initial_state(), input@, fuel as nat).0,
        r.halt == run_spec(ops@, initial_state(), input@, fuel as nat).1,
{
    let mut machine = Machine::new();
    let mut output: Vec<u8> = Vec::new();
    let mut used: usize = 0;
    let mut left: usize = fuel;
    let ghost total = run_spec(ops@, initial_state(), input@, fuel as nat);
    assert(input@.skip(0) =~= input@);
    loop
        invariant
            is_jump_table(kinds(ops@), jumptable@),
            machine.wf(),
            used <= input@.len(),
            total == run_spec(ops@, initial_state(), input@, fuel as nat),
            total.0 == output@ + run_spec(ops@, machine@, input@.skip(used as int), left as nat).0,
            total.1 == run_spec(ops@, machine@, input@.skip(used as int), left as nat).1,
        decreases left,
    {
        let ghost before = machine@;
        let ghost unread = input@.skip(used as int);
        let ghost rest = run_spec(ops@, before, unread, left as nat);
        if machine.pc >= ops.len() {
            output.push(10);
            assert(output@ =~= total.0);
            return Execution { output, halt: Halt::Finished };
        }
        if left == 0 {
            assert(output@ =~= total.0);
            return Execution { output, halt: Halt::OutOfFuel };
        }
        let mut asked = step(ops, jumptable, &mut machine, None);
        if let Step::NeedInput = asked {
            if used >= input.len() {
                assert(output@ =~= total.0);
                return Execution { output, halt: Halt::InputExhausted };
            }
            let byte: u8 = input[used];
            assert(unread[0] == byte);
            assert(unread.skip(1) =~= input@.skip(used + 1));
            asked = step(ops, jumptable, &mut machine, Some(byte));
            used = used + 1;
        }
        match asked {
            Step::TapeOverrun => {
                assert(output@ =~= total.0);
                return Execution { output, halt: Halt::TapeOverrun };
            },
            Step::Output(b) => {
                let ghost shown = output@;
                output.push(b);
                assert(shown + (seq![b] + run_spec(
                    ops@,
                    machine@,
                    input@.skip(used as int),
                    (left - 1) as nat,
                ).0) =~= output@ + run_spec(
                    ops@,
                    machine@,
                    input@.skip(used as int),
                    (left - 1) as nat,
                ).0);
            },
            _ => {},
        }
        left = left - 1;
    }
}

} // verus!
