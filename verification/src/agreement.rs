//! The interpreters agree: what the tree-walking interpreter writes on a
//! program, the bytecode interpreter writes on its lowered and optimized form.

use vstd::prelude::*;
use crate::bf::{lemma_unit_ops_kinds, token_kinds, unit_ops};
use crate::brackets::{
    depth, lemma_partner_of_pair, lemma_plain_stretch, lemma_segment_partner,
    lemma_segmented_balance, lemma_segments_ordered, matched, partner, segment_fits, segmented,
    well_bracketed, Bracket,
};
use crate::machine::{cursor_down, initial_state};
use crate::parser::{continues_run, is_counted, lower, lower_from, lower_token, repeats};
use crate::bytecode_bf::{
    kinds, lemma_optimized_keeps_balance, optimize_from, optimized, peephole_at, ByteCode,
};
use crate::machine::{apply_spec, run_spec, step_spec, Halt, MachineState, Step};
use crate::MEMORY_SIZE;

verus! {

/// The tape has its full size, the cursor is on it, and the program counter
/// is not negative.
pub open spec fn state_ok(st: MachineState) -> bool {
    &&& st.tape.len() == MEMORY_SIZE
    &&& 0 <= st.cursor < MEMORY_SIZE
    &&& 0 <= st.pc
}

/// An opcode keeps the tape at its size and the cursor on it.
pub proof fn lemma_apply_keeps_ok(op: ByteCode, target: int, st: MachineState, input: Option<u8>)
    requires
        state_ok(st),
        op is JZ || op is JNZ ==> 0 <= target,
    ensures
        state_ok(apply_spec(op, target, st, input).0),
{
}

/// A run that stopped for another reason than its budget is the same on every
/// larger budget.
pub proof fn lemma_run_more_fuel(
    ops: Seq<ByteCode>,
    st: MachineState,
    input: Seq<u8>,
    fuel: nat,
    more: nat,
)
    requires
        run_spec(ops, st, input, fuel).1 != Halt::OutOfFuel,
        fuel <= more,
    ensures
        run_spec(ops, st, input, more) == run_spec(ops, st, input, fuel),
    decreases fuel,
{
    let asked = step_spec(ops, st, None);
    if asked.1 == Step::Done {
    } else if fuel == 0 {
    } else if asked.1 == Step::TapeOverrun {
    } else if asked.1 == Step::NeedInput {
        if input.len() > 0 {
            lemma_run_more_fuel(
                ops,
                step_spec(ops, st, Some(input[0])).0,
                input.skip(1),
                (fuel - 1) as nat,
                (more - 1) as nat,
            );
        }
    } else {
        lemma_run_more_fuel(ops, asked.0, input, (fuel - 1) as nat, (more - 1) as nat);
    }
}

/// What a run writes on a budget, it writes on every larger budget, and more
/// at most behind it.
pub proof fn lemma_run_output_grows(
    ops: Seq<ByteCode>,
    st: MachineState,
    input: Seq<u8>,
    fuel: nat,
    more: nat,
)
    requires
        fuel <= more,
    ensures
        run_spec(ops, st, input, fuel).0.is_prefix_of(run_spec(ops, st, input, more).0),
    decreases fuel,
{
    let asked = step_spec(ops, st, None);
    if asked.1 == Step::Done {
    } else if fuel == 0 {
    } else if asked.1 == Step::TapeOverrun {
    } else if asked.1 == Step::NeedInput {
        if input.len() > 0 {
            lemma_run_output_grows(
                ops,
                step_spec(ops, st, Some(input[0])).0,
                input.skip(1),
                (fuel - 1) as nat,
                (more - 1) as nat,
            );
        }
    } else {
        lemma_run_output_grows(ops, asked.0, input, (fuel - 1) as nat, (more - 1) as nat);
    }
}

/// The second run bears the first out: it has written everything that the
/// first has written, in the same order, and where the first has ended, for
/// whatever reason, the second has ended for the same reason and has written
/// nothing more.
pub open spec fn bears_out(first: (Seq<u8>, Halt), second: (Seq<u8>, Halt)) -> bool {
    if first.1 != Halt::OutOfFuel {
        second == first
    } else {
        first.0.is_prefix_of(second.0)
    }
}

/// `bears_out` is transitive.
pub proof fn lemma_bears_out_chain(
    a: (Seq<u8>, Halt),
    b: (Seq<u8>, Halt),
    c: (Seq<u8>, Halt),
)
    requires
        bears_out(a, b),
        bears_out(b, c),
    ensures
        bears_out(a, c),
{
}

/// Number of opcodes that the optimizer takes in at position `i`.
pub open spec fn window_len(ops: Seq<ByteCode>, i: int) -> int {
    if peephole_at(ops, i) is Some {
        3
    } else {
        1
    }
}

/// The opcode that the optimizer gives out at position `i`.
pub open spec fn window_op(ops: Seq<ByteCode>, i: int) -> ByteCode {
    match peephole_at(ops, i) {
        Some(r) => r,
        None => ops[i],
    }
}

/// The positions at which the optimizer's pass from `i` on looks, followed by
/// the position at which it ends.
pub open spec fn pass_starts(ops: Seq<ByteCode>, i: int) -> Seq<int>
    decreases ops.len() - i,
{
    if i < 0 || i >= ops.len() {
        seq![i]
    } else {
        seq![i] + pass_starts(ops, i + window_len(ops, i))
    }
}

/// The `k`-th opcode that the pass from `i` on gives out is that of the
/// `k`-th position it looks at, and the next position lies behind the window.
pub proof fn lemma_pass_at(ops: Seq<ByteCode>, i: int, k: int)
    requires
        0 <= i <= ops.len(),
        0 <= k <= optimize_from(ops, i).len(),
    ensures
        pass_starts(ops, i).len() == optimize_from(ops, i).len() + 1,
        i <= pass_starts(ops, i)[k] <= ops.len(),
        k < optimize_from(ops, i).len() ==> {
            &&& pass_starts(ops, i)[k] < ops.len()
            &&& optimize_from(ops, i)[k] == window_op(ops, pass_starts(ops, i)[k])
            &&& pass_starts(ops, i)[k + 1] == pass_starts(ops, i)[k] + window_len(
                ops,
                pass_starts(ops, i)[k],
            )
        },
        k == optimize_from(ops, i).len() ==> pass_starts(ops, i)[k] == ops.len(),
    decreases ops.len() - i,
{
    if i < ops.len() {
        let next = i + window_len(ops, i);
        lemma_pass_at(ops, next, 0);
        if k > 0 {
            lemma_pass_at(ops, next, k - 1);
        }
    }
}

/// The optimized program is the program with every rewritten window
/// contracted to one position.
pub proof fn lemma_optimized_segmented(ops: Seq<ByteCode>)
    ensures
        segmented(kinds(ops), kinds(optimized(ops)), pass_starts(ops, 0)),
{
    let p = kinds(ops);
    let q = kinds(optimized(ops));
    let starts = pass_starts(ops, 0);
    lemma_pass_at(ops, 0, 0);
    lemma_pass_at(ops, 0, optimized(ops).len() as int);
    assert forall|k: int| 0 <= k < q.len() implies segment_fits(p, q, starts, k) by {
        lemma_pass_at(ops, 0, k);
        let x = starts[k];
        if peephole_at(ops, x) is Some {
            assert(p[x] == Bracket::Opener);
            assert(p[x + 1] == Bracket::Plain);
            assert(p[x + 2] == Bracket::Closer);
            assert(depth(p, x + 1) == depth(p, x) + 1);
            assert(depth(p, x + 2) == depth(p, x + 1));
            assert(depth(p, x + 3) == depth(p, x + 2) - 1);
        } else {
            assert(depth(p, x + 1) == depth(p, x) + crate::brackets::delta(p[x]));
        }
    }
}

/// The brackets of a rewritten window are each other's partners.
pub proof fn lemma_window_pair(ops: Seq<ByteCode>, x: int)
    requires
        peephole_at(ops, x) is Some,
    ensures
        partner(kinds(ops), x) == x + 2,
        partner(kinds(ops), x + 2) == x,
{
    let p = kinds(ops);
    assert(p[x] == Bracket::Opener);
    assert(p[x + 1] == Bracket::Plain);
    assert(p[x + 2] == Bracket::Closer);
    assert(depth(p, x + 1) == depth(p, x) + 1);
    assert(depth(p, x + 2) == depth(p, x + 1));
    assert(depth(p, x + 3) == depth(p, x + 2) - 1);
    assert(matched(p, x, x + 2));
    lemma_partner_of_pair(p, x, x + 2);
}

/// How far two runs have come after one step of the second: the states
/// reached, the input left, the number of steps that the first run took, and
/// what both wrote. `done` says that there is nothing left to compare: the
/// second run bears the first out as they stand.
pub struct Advance {
    pub done: bool,
    pub stq: MachineState,
    pub stp: MachineState,
    pub input: Seq<u8>,
    pub used: nat,
    pub out: Seq<u8>,
}

/// `a` describes the run of `p` from `stp` and the run of `q` from `stq`
/// correctly.
pub open spec fn advances(
    p: Seq<ByteCode>,
    q: Seq<ByteCode>,
    stq: MachineState,
    stp: MachineState,
    input: Seq<u8>,
    fuel: nat,
    a: Advance,
) -> bool {
    if a.done {
        bears_out(run_spec(p, stp, input, fuel), run_spec(q, stq, input, fuel))
    } else {
        &&& 1 <= a.used <= fuel
        &&& run_spec(p, stp, input, fuel).0 == a.out + run_spec(
            p,
            a.stp,
            a.input,
            (fuel - a.used) as nat,
        ).0
        &&& run_spec(p, stp, input, fuel).1 == run_spec(p, a.stp, a.input, (fuel - a.used) as nat).1
        &&& run_spec(q, stq, input, fuel).0 == a.out + run_spec(
            q,
            a.stq,
            a.input,
            (fuel - 1) as nat,
        ).0
        &&& run_spec(q, stq, input, fuel).1 == run_spec(q, a.stq, a.input, (fuel - 1) as nat).1
    }
}

/// One and the same opcode, carried out by both programs on the same tape and
/// cursor: both take one step with the same effect, and each goes on behind
/// the opcode, stays at it, or jumps behind its partner, as the other does.
proof fn lemma_same_op(
    p: Seq<ByteCode>,
    q: Seq<ByteCode>,
    stq: MachineState,
    stp: MachineState,
    input: Seq<u8>,
    fuel: nat,
) -> (a: Advance)
    requires
        state_ok(stp),
        stq.tape == stp.tape,
        stq.cursor == stp.cursor,
        0 <= stq.pc < q.len(),
        0 <= stp.pc < p.len(),
        q[stq.pc] == p[stp.pc],
        q[stq.pc] is JZ || q[stq.pc] is JNZ ==> 0 <= partner(kinds(p), stp.pc),
    ensures
        advances(p, q, stq, stp, input, fuel, a),
        !a.done ==> {
            &&& state_ok(a.stp)
            &&& a.stq.tape == a.stp.tape
            &&& a.stq.cursor == a.stp.cursor
            &&& a.used == 1
            &&& {
                ||| a.stp.pc == stp.pc + 1 && a.stq.pc == stq.pc + 1
                ||| a.stp.pc == stp.pc && a.stq.pc == stq.pc && q[stq.pc] is MoveInStepUntilZero
                ||| {
                    &&& q[stq.pc] is JZ || q[stq.pc] is JNZ
                    &&& a.stp.pc == partner(kinds(p), stp.pc) + 1
                    &&& a.stq.pc == partner(kinds(q), stq.pc) + 1
                }
            }
        },
{
    let op = q[stq.pc];
    let tp = partner(kinds(p), stp.pc);
    let tq = partner(kinds(q), stq.pc);
    let asked_p = apply_spec(op, tp, stp, None);
    let asked_q = apply_spec(op, tq, stq, None);
    assert(step_spec(p, stp, None) == asked_p);
    assert(step_spec(q, stq, None) == asked_q);
    assert(asked_p.1 == asked_q.1);
    let less = (fuel - 1) as nat;
    if fuel == 0 {
        Advance { done: true, stq, stp, input, used: 1, out: Seq::empty() }
    } else if asked_p.1 == Step::TapeOverrun {
        Advance { done: true, stq, stp, input, used: 1, out: Seq::empty() }
    } else if asked_p.1 == Step::NeedInput {
        if input.len() == 0 {
            Advance { done: true, stq, stp, input, used: 1, out: Seq::empty() }
        } else {
            let fed_p = apply_spec(op, tp, stp, Some(input[0]));
            let fed_q = apply_spec(op, tq, stq, Some(input[0]));
            assert(step_spec(p, stp, Some(input[0])) == fed_p);
            assert(step_spec(q, stq, Some(input[0])) == fed_q);
            lemma_apply_keeps_ok(op, tp, stp, Some(input[0]));
            let a = Advance {
                done: false,
                stq: fed_q.0,
                stp: fed_p.0,
                input: input.skip(1),
                used: 1,
                out: Seq::empty(),
            };
            assert(a.out + run_spec(p, a.stp, a.input, less).0 =~= run_spec(
                p,
                a.stp,
                a.input,
                less,
            ).0);
            assert(a.out + run_spec(q, a.stq, a.input, less).0 =~= run_spec(
                q,
                a.stq,
                a.input,
                less,
            ).0);
            a
        }
    } else {
        lemma_apply_keeps_ok(op, tp, stp, None);
        let out = match asked_p.1 {
            Step::Output(b) => seq![b],
            _ => Seq::empty(),
        };
        let a = Advance { done: false, stq: asked_q.0, stp: asked_p.0, input, used: 1, out };
        assert(a.out + run_spec(p, a.stp, a.input, less).0 =~= run_spec(p, stp, input, fuel).0);
        assert(a.out + run_spec(q, a.stq, a.input, less).0 =~= run_spec(q, stq, input, fuel).0);
        a
    }
}

/// The state with the current cell cleared and the program counter at `pc`.
pub open spec fn cleared(st: MachineState, pc: int) -> MachineState {
    MachineState { tape: st.tape.update(st.cursor, 0u8), cursor: st.cursor, pc }
}

/// A loop around a single cell change, entered at the change: nothing is
/// written, and a run that gets through the loop on its budget leaves it with
/// the cell cleared. The result is the number of steps through the loop, or
/// zero where the budget does not last.
proof fn lemma_clear_loop(
    ops: Seq<ByteCode>,
    x: int,
    st: MachineState,
    input: Seq<u8>,
    fuel: nat,
) -> (used: nat)
    requires
        peephole_at(ops, x) == Some(ByteCode::SETZERO),
        state_ok(st),
        st.pc == x + 1,
    ensures
        used == 0 ==> run_spec(ops, st, input, fuel) == (Seq::<u8>::empty(), Halt::OutOfFuel),
        used != 0 ==> 2 <= used <= fuel && run_spec(ops, st, input, fuel) == run_spec(
            ops,
            cleared(st, x + 3),
            input,
            (fuel - used) as nat,
        ),
    decreases fuel,
{
    lemma_window_pair(ops, x);
    let change = ops[x + 1];
    let st1 = step_spec(ops, st, None).0;
    assert(step_spec(ops, st, None) == apply_spec(
        change,
        partner(kinds(ops), x + 1),
        st,
        None,
    ));
    assert(step_spec(ops, st, None).1 == Step::Continue);
    if fuel < 1 {
        return 0;
    }
    assert(run_spec(ops, st, input, fuel) == run_spec(ops, st1, input, (fuel - 1) as nat));
    assert(st1.pc == x + 2);
    assert(state_ok(st1));
    let st2 = step_spec(ops, st1, None).0;
    assert(step_spec(ops, st1, None) == apply_spec(ByteCode::JNZ, x, st1, None));
    if fuel < 2 {
        return 0;
    }
    assert(run_spec(ops, st1, input, (fuel - 1) as nat) == run_spec(
        ops,
        st2,
        input,
        (fuel - 2) as nat,
    ));
    if st1.tape[st1.cursor] != 0 {
        assert(st2.pc == x + 1);
        let more = lemma_clear_loop(ops, x, st2, input, (fuel - 2) as nat);
        assert(cleared(st2, x + 3).tape =~= cleared(st, x + 3).tape);
        if more == 0 {
            0
        } else {
            2 + more
        }
    } else {
        assert(st2.tape =~= cleared(st, x + 3).tape);
        assert(st2 == cleared(st, x + 3));
        2
    }
}

/// The states of the optimized program (`stq`) and of the program itself
/// (`stp`) correspond: same tape and cursor, and the program counter of the
/// first stands for that of the second. A scan stands for the `JNZ` of its
/// loop as well as for the `JZ`.
pub open spec fn optimized_related(ops: Seq<ByteCode>, stq: MachineState, stp: MachineState) -> bool {
    let starts = pass_starts(ops, 0);
    &&& state_ok(stp)
    &&& stq.tape == stp.tape
    &&& stq.cursor == stp.cursor
    &&& 0 <= stq.pc <= optimized(ops).len()
    &&& {
        ||| stp.pc == starts[stq.pc]
        ||| {
            &&& stq.pc < optimized(ops).len()
            &&& peephole_at(ops, starts[stq.pc]) is Some
            &&& optimized(ops)[stq.pc] is MoveInStepUntilZero
            &&& stp.pc == starts[stq.pc] + 2
        }
    }
}

/// What the optimized program has at position `k`, and where the partner of a
/// bracket there lies in the program itself.
proof fn lemma_optimized_at(ops: Seq<ByteCode>, k: int)
    requires
        well_bracketed(kinds(ops)),
        0 <= k < optimized(ops).len(),
    ensures
        0 <= pass_starts(ops, 0)[k] < ops.len(),
        optimized(ops)[k] == window_op(ops, pass_starts(ops, 0)[k]),
        pass_starts(ops, 0)[k + 1] == pass_starts(ops, 0)[k] + window_len(
            ops,
            pass_starts(ops, 0)[k],
        ),
        optimized(ops)[k] is JZ || optimized(ops)[k] is JNZ ==> {
            &&& peephole_at(ops, pass_starts(ops, 0)[k]) is None
            &&& 0 <= partner(kinds(optimized(ops)), k) < optimized(ops).len()
            &&& partner(kinds(ops), pass_starts(ops, 0)[k]) == pass_starts(ops, 0)[partner(
                kinds(optimized(ops)),
                k,
            )]
            &&& pass_starts(ops, 0)[partner(kinds(optimized(ops)), k) + 1] == pass_starts(
                ops,
                0,
            )[partner(kinds(optimized(ops)), k)] + 1
        },
{
    lemma_pass_at(ops, 0, k);
    if optimized(ops)[k] is JZ || optimized(ops)[k] is JNZ {
        lemma_optimized_segmented(ops);
        lemma_optimized_keeps_balance(ops);
        assert(kinds(optimized(ops))[k] != Bracket::Plain);
        lemma_segment_partner(kinds(ops), kinds(optimized(ops)), pass_starts(ops, 0), k);
    }
}

/// One step of the optimized program from `stq`, and the steps of the program
/// itself from `stp` that it stands for.
proof fn lemma_optimized_step(
    ops: Seq<ByteCode>,
    stq: MachineState,
    stp: MachineState,
    input: Seq<u8>,
    fuel: nat,
) -> (a: Advance)
    requires
        well_bracketed(kinds(ops)),
        optimized_related(ops, stq, stp),
    ensures
        advances(ops, optimized(ops), stq, stp, input, fuel, a),
        !a.done ==> optimized_related(ops, a.stq, a.stp),
{
    let q = optimized(ops);
    let starts = pass_starts(ops, 0);
    let k = stq.pc;
    lemma_pass_at(ops, 0, q.len() as int);
    if k == q.len() {
        Advance { done: true, stq, stp, input, used: 1, out: Seq::empty() }
    } else {
        let x = starts[k];
        lemma_optimized_at(ops, k);
        match peephole_at(ops, x) {
            None => {
                if q[k] is JZ || q[k] is JNZ {
                    lemma_optimized_segmented(ops);
                    lemma_segments_ordered(
                        kinds(ops),
                        kinds(q),
                        starts,
                        0,
                        partner(kinds(q), k),
                    );
                }
                lemma_same_op(ops, q, stq, stp, input, fuel)
            },
            Some(ByteCode::SETZERO) => lemma_optimized_clear(ops, stq, stp, input, fuel),
            Some(_) => lemma_optimized_scan(ops, stq, stp, input, fuel),
        }
    }
}

/// The step of a `SETZERO` that stands for a loop around a cell change.
proof fn lemma_optimized_clear(
    ops: Seq<ByteCode>,
    stq: MachineState,
    stp: MachineState,
    input: Seq<u8>,
    fuel: nat,
) -> (a: Advance)
    requires
        well_bracketed(kinds(ops)),
        optimized_related(ops, stq, stp),
        stq.pc < optimized(ops).len(),
        peephole_at(ops, pass_starts(ops, 0)[stq.pc]) == Some(ByteCode::SETZERO),
    ensures
        advances(ops, optimized(ops), stq, stp, input, fuel, a),
        !a.done ==> optimized_related(ops, a.stq, a.stp),
{
    let q = optimized(ops);
    let k = stq.pc;
    let x = pass_starts(ops, 0)[k];
    lemma_optimized_at(ops, k);
    lemma_pass_at(ops, 0, k + 1);
    lemma_window_pair(ops, x);
    assert(stp.pc == x);
    assert(step_spec(q, stq, None) == apply_spec(
        ByteCode::SETZERO,
        partner(kinds(q), k),
        stq,
        None,
    ));
    assert(step_spec(ops, stp, None) == apply_spec(ByteCode::JZ, x + 2, stp, None));
    if fuel == 0 {
        return Advance { done: true, stq, stp, input, used: 1, out: Seq::empty() };
    }
    let less = (fuel - 1) as nat;
    let stq2 = cleared(stq, k + 1);
    let stp2 = cleared(stp, x + 3);
    assert(run_spec(q, stq, input, fuel) == run_spec(q, stq2, input, less));
    let mut used: nat = 1;
    if stp.tape[stp.cursor] == 0 {
        assert(stp2.tape =~= stp.tape);
        assert(step_spec(ops, stp, None).0 == stp2);
        assert(run_spec(ops, stp, input, fuel) == run_spec(ops, stp2, input, less));
    } else {
        let inside = MachineState { pc: x + 1, ..stp };
        assert(step_spec(ops, stp, None).0 == inside);
        assert(run_spec(ops, stp, input, fuel) == run_spec(ops, inside, input, less));
        let more = lemma_clear_loop(ops, x, inside, input, less);
        if more == 0 {
            return Advance { done: true, stq, stp, input, used: 1, out: Seq::empty() };
        }
        assert(cleared(inside, x + 3) == stp2);
        used = 1 + more;
    }
    let a = Advance { done: false, stq: stq2, stp: stp2, input, used, out: Seq::empty() };
    assert(a.out + run_spec(ops, stp2, input, (fuel - used) as nat).0 =~= run_spec(
        ops,
        stp2,
        input,
        (fuel - used) as nat,
    ).0);
    assert(a.out + run_spec(q, stq2, input, less).0 =~= run_spec(q, stq2, input, less).0);
    a
}

/// The step of a scan that stands for a loop around a cursor move.
proof fn lemma_optimized_scan(
    ops: Seq<ByteCode>,
    stq: MachineState,
    stp: MachineState,
    input: Seq<u8>,
    fuel: nat,
) -> (a: Advance)
    requires
        well_bracketed(kinds(ops)),
        optimized_related(ops, stq, stp),
        stq.pc < optimized(ops).len(),
        peephole_at(ops, pass_starts(ops, 0)[stq.pc]) is Some,
        peephole_at(ops, pass_starts(ops, 0)[stq.pc]) != Some(ByteCode::SETZERO),
    ensures
        advances(ops, optimized(ops), stq, stp, input, fuel, a),
        !a.done ==> optimized_related(ops, a.stq, a.stp),
{
    let q = optimized(ops);
    let k = stq.pc;
    let x = pass_starts(ops, 0)[k];
    lemma_optimized_at(ops, k);
    lemma_pass_at(ops, 0, k + 1);
    lemma_window_pair(ops, x);
    let scan = q[k];
    let walk = ops[x + 1];
    assert(scan is MoveInStepUntilZero);
    assert(step_spec(q, stq, None) == apply_spec(scan, partner(kinds(q), k), stq, None));
    if fuel == 0 {
        return Advance { done: true, stq, stp, input, used: 1, out: Seq::empty() };
    }
    let less = (fuel - 1) as nat;
    let first = step_spec(ops, stp, None);
    assert(first == if stp.pc == x {
        apply_spec(ByteCode::JZ, x + 2, stp, None)
    } else {
        apply_spec(ByteCode::JNZ, x, stp, None)
    });
    assert(run_spec(ops, stp, input, fuel) == run_spec(ops, first.0, input, less));
    let asked_q = step_spec(q, stq, None);
    if stp.tape[stp.cursor] == 0 {
        let a = Advance {
            done: false,
            stq: asked_q.0,
            stp: first.0,
            input,
            used: 1,
            out: Seq::empty(),
        };
        assert(a.out + run_spec(ops, a.stp, input, less).0 =~= run_spec(ops, a.stp, input, less).0);
        assert(a.out + run_spec(q, a.stq, input, less).0 =~= run_spec(q, a.stq, input, less).0);
        a
    } else {
        assert(first.0 == MachineState { pc: x + 1, ..stp });
        let second = step_spec(ops, first.0, None);
        assert(second == apply_spec(walk, partner(kinds(ops), x + 1), first.0, None));
        if less == 0 {
            return Advance { done: true, stq, stp, input, used: 1, out: Seq::empty() };
        }
        if asked_q.1 == Step::TapeOverrun {
            assert(second.1 == Step::TapeOverrun);
            Advance { done: true, stq, stp, input, used: 1, out: Seq::empty() }
        } else {
            let least = (fuel - 2) as nat;
            assert(second.1 == Step::Continue);
            assert(run_spec(ops, first.0, input, less) == run_spec(ops, second.0, input, least));
            assert(run_spec(q, stq, input, fuel) == run_spec(q, asked_q.0, input, less));
            let a = Advance {
                done: false,
                stq: asked_q.0,
                stp: second.0,
                input,
                used: 2,
                out: Seq::empty(),
            };
            assert(a.out + run_spec(ops, a.stp, input, least).0 =~= run_spec(
                ops,
                a.stp,
                input,
                least,
            ).0);
            assert(a.out + run_spec(q, a.stq, input, less).0 =~= run_spec(q, a.stq, input, less).0);
            a
        }
    }
}

/// What is left of two runs bears out what is left of two others, carried over
/// a common start.
proof fn lemma_bears_out_behind(
    out: Seq<u8>,
    p_rest: (Seq<u8>, Halt),
    q_same: (Seq<u8>, Halt),
    q_rest: (Seq<u8>, Halt),
)
    requires
        bears_out(p_rest, q_same),
        q_same.0.is_prefix_of(q_rest.0),
        q_same.1 != Halt::OutOfFuel ==> q_rest == q_same,
    ensures
        bears_out((out + p_rest.0, p_rest.1), (out + q_rest.0, q_rest.1)),
{
    if p_rest.1 != Halt::OutOfFuel {
        assert(out + q_rest.0 =~= out + p_rest.0);
    } else {
        assert((out + p_rest.0).is_prefix_of(out + q_rest.0)) by {
            assert((out + p_rest.0) =~= (out + q_rest.0).subrange(
                0,
                (out + p_rest.0).len() as int,
            ));
        }
    }
}

/// From corresponding states, the run of the optimized program bears out the
/// run of the program on the same budget.
pub proof fn lemma_optimized_simulates(
    ops: Seq<ByteCode>,
    stq: MachineState,
    stp: MachineState,
    input: Seq<u8>,
    fuel: nat,
)
    requires
        well_bracketed(kinds(ops)),
        optimized_related(ops, stq, stp),
    ensures
        bears_out(run_spec(ops, stp, input, fuel), run_spec(optimized(ops), stq, input, fuel)),
    decreases fuel,
{
    let q = optimized(ops);
    let a = lemma_optimized_step(ops, stq, stp, input, fuel);
    if !a.done {
        let rest = (fuel - a.used) as nat;
        let less = (fuel - 1) as nat;
        lemma_optimized_simulates(ops, a.stq, a.stp, a.input, rest);
        lemma_run_output_grows(q, a.stq, a.input, rest, less);
        if run_spec(q, a.stq, a.input, rest).1 != Halt::OutOfFuel {
            lemma_run_more_fuel(q, a.stq, a.input, rest, less);
        }
        lemma_bears_out_behind(
            a.out,
            run_spec(ops, a.stp, a.input, rest),
            run_spec(q, a.stq, a.input, rest),
            run_spec(q, a.stq, a.input, less),
        );
    }
}

/// The optimizer keeps what a program does: on every input and budget, the
/// optimized program writes everything that the program writes, in the same
/// order, and where the run of the program ends, for whatever reason, the run
/// of the optimized program ends for the same reason with the same output.
pub proof fn lemma_optimizer_keeps_runs(ops: Seq<ByteCode>, input: Seq<u8>, fuel: nat)
    requires
        well_bracketed(kinds(ops)),
    ensures
        bears_out(
            run_spec(ops, initial_state(), input, fuel),
            run_spec(optimized(ops), initial_state(), input, fuel),
        ),
{
    lemma_pass_at(ops, 0, 0);
    lemma_optimized_simulates(ops, initial_state(), initial_state(), input, fuel);
}

/// Number of tokens that the lowerer takes in at the run start `i`.
pub open spec fn run_len(tokens: Seq<char>, i: int) -> int {
    if is_counted(tokens[i]) {
        1 + repeats(tokens, i) as int
    } else {
        1
    }
}

/// The positions from `i` on at which a run starts, followed by the number of
/// tokens.
pub open spec fn run_starts(tokens: Seq<char>, i: int) -> Seq<int>
    decreases tokens.len() - i,
{
    if i < 0 || i >= tokens.len() {
        seq![i]
    } else if continues_run(tokens, i) {
        run_starts(tokens, i + 1)
    } else {
        seq![i] + run_starts(tokens, i + 1)
    }
}

/// The tokens of a run are equal, and the token behind it differs.
proof fn lemma_run_shape(tokens: Seq<char>, i: int)
    requires
        0 <= i < tokens.len(),
    ensures
        i + run_len(tokens, i) <= tokens.len(),
        forall|x: int| i <= x < i + run_len(tokens, i) ==> #[trigger] tokens[x] == tokens[i],
        forall|x: int| i < x < i + run_len(tokens, i) ==> continues_run(tokens, x),
        !continues_run(tokens, i + run_len(tokens, i)),
    decreases tokens.len() - i,
{
    if is_counted(tokens[i]) && i + 1 < tokens.len() && tokens[i + 1] == tokens[i] {
        lemma_run_shape(tokens, i + 1);
        assert(run_len(tokens, i) == 1 + run_len(tokens, i + 1));
    }
}

/// Behind a run start, nothing is given out up to the end of the run.
proof fn lemma_run_skipped(tokens: Seq<char>, i: int, j: int)
    requires
        0 <= i < j <= tokens.len(),
        forall|x: int| i < x < j ==> continues_run(tokens, x),
    ensures
        lower_from(tokens, i + 1) == lower_from(tokens, j),
        run_starts(tokens, i + 1) == run_starts(tokens, j),
    decreases j - i,
{
    if i + 1 < j {
        assert(continues_run(tokens, j - 1));
        lemma_run_skipped(tokens, i, j - 1);
    }
}

/// The `k`-th opcode that the lowerer gives out from the run start `i` on is
/// that of the `k`-th run start, and the next run starts behind the run.
proof fn lemma_lower_at(tokens: Seq<char>, i: int, k: int)
    requires
        0 <= i <= tokens.len(),
        !continues_run(tokens, i),
        0 <= k <= lower_from(tokens, i).len(),
    ensures
        run_starts(tokens, i).len() == lower_from(tokens, i).len() + 1,
        i <= run_starts(tokens, i)[k] <= tokens.len(),
        !continues_run(tokens, run_starts(tokens, i)[k]),
        k < lower_from(tokens, i).len() ==> {
            &&& run_starts(tokens, i)[k] < tokens.len()
            &&& lower_from(tokens, i)[k] == lower_token(
                tokens[run_starts(tokens, i)[k]],
                run_len(tokens, run_starts(tokens, i)[k]) as usize,
            )
            &&& run_starts(tokens, i)[k + 1] == run_starts(tokens, i)[k] + run_len(
                tokens,
                run_starts(tokens, i)[k],
            )
        },
        k == lower_from(tokens, i).len() ==> run_starts(tokens, i)[k] == tokens.len(),
    decreases tokens.len() - i,
{
    if i < tokens.len() {
        let next = i + run_len(tokens, i);
        lemma_run_shape(tokens, i);
        lemma_run_skipped(tokens, i, next);
        lemma_lower_at(tokens, next, 0);
        if k > 0 {
            lemma_lower_at(tokens, next, k - 1);
        }
    }
}

/// The lowered program is the token program with every run contracted to one
/// position.
proof fn lemma_lower_segmented(tokens: Seq<char>)
    ensures
        segmented(token_kinds(tokens), kinds(lower(tokens)), run_starts(tokens, 0)),
{
    let p = token_kinds(tokens);
    let q = kinds(lower(tokens));
    let starts = run_starts(tokens, 0);
    lemma_lower_at(tokens, 0, 0);
    lemma_lower_at(tokens, 0, lower(tokens).len() as int);
    assert forall|k: int| 0 <= k < q.len() implies segment_fits(p, q, starts, k) by {
        lemma_lower_at(tokens, 0, k);
        let x = starts[k];
        lemma_run_shape(tokens, x);
        if is_counted(tokens[x]) {
            assert forall|y: int| x < y <= x + run_len(tokens, x) implies #[trigger] depth(p, y)
                >= depth(p, x) && depth(p, y) == depth(p, x) by {
                assert forall|z: int| x <= z < y implies p[z] == Bracket::Plain by {
                    assert(tokens[z] == tokens[x]);
                }
                lemma_plain_stretch(p, x, y);
            }
            assert(depth(p, x + run_len(tokens, x)) == depth(p, x));
        } else {
            assert(depth(p, x + 1) == depth(p, x) + crate::brackets::delta(p[x]));
        }
    }
}

/// The state after `n` repetitions of the counted token `c`, with the program
/// counter at `pc`.
#[verifier::opaque]
pub open spec fn counted_effect(c: char, n: int, st: MachineState, pc: int) -> MachineState {
    let cell = st.tape[st.cursor];
    if c == '+' {
        MachineState { tape: st.tape.update(st.cursor, ((cell + n) % 256) as u8), pc, ..st }
    } else if c == '-' {
        MachineState { tape: st.tape.update(st.cursor, ((cell - n) % 256) as u8), pc, ..st }
    } else if c == '>' {
        MachineState { cursor: st.cursor + n, pc, ..st }
    } else {
        MachineState { cursor: cursor_down(st.cursor, n), pc, ..st }
    }
}

/// One counted token: it leaves the tape where `>` would lead off it, and has
/// the effect of one repetition otherwise.
proof fn lemma_unit_step(tokens: Seq<char>, st: MachineState)
    requires
        state_ok(st),
        0 <= st.pc < tokens.len(),
        is_counted(tokens[st.pc]),
    ensures
        step_spec(unit_ops(tokens), st, None) == if tokens[st.pc] == '>' && st.cursor + 1
            >= MEMORY_SIZE {
            (st, Step::TapeOverrun)
        } else {
            (counted_effect(tokens[st.pc], 1, st, st.pc + 1), Step::Continue)
        },
        !(tokens[st.pc] == '>' && st.cursor + 1 >= MEMORY_SIZE) ==> state_ok(
            counted_effect(tokens[st.pc], 1, st, st.pc + 1),
        ),
{
    reveal(counted_effect);
    let p = unit_ops(tokens);
    let c = tokens[st.pc];
    let op = lower_token(c, 1);
    assert(p[st.pc] == op);
    let asked = apply_spec(op, partner(kinds(p), st.pc), st, None);
    assert(step_spec(p, st, None) == asked);
    if !(c == '>' && st.cursor + 1 >= MEMORY_SIZE) {
        assert(asked.0.tape =~= counted_effect(c, 1, st, st.pc + 1).tape);
    }
}

/// Adding one and then `n` modulo 256 is adding `n + 1`.
proof fn lemma_add_in_steps(v: int, n: int)
    requires
        0 <= v < 256,
    ensures
        ((v + 1) % 256 + n) % 256 == (v + (n + 1)) % 256,
{
}

/// Subtracting one and then `n` modulo 256 is subtracting `n + 1`.
proof fn lemma_sub_in_steps(v: int, n: int)
    requires
        0 <= v < 256,
    ensures
        ((v - 1) % 256 - n) % 256 == (v - (n + 1)) % 256,
{
}

/// One repetition followed by `n` more is `n + 1` repetitions.
proof fn lemma_counted_effect_adds(c: char, n: int, st: MachineState, mid: int, pc: int)
    requires
        state_ok(st),
        is_counted(c),
        0 <= n,
    ensures
        counted_effect(c, n, counted_effect(c, 1, st, mid), pc) == counted_effect(c, n + 1, st, pc),
{
    reveal(counted_effect);
    let cell = st.tape[st.cursor] as int;
    let one = counted_effect(c, 1, st, mid);
    let both = counted_effect(c, n, one, pc);
    let whole = counted_effect(c, n + 1, st, pc);
    if c == '+' {
        lemma_add_in_steps(cell, n);
        assert(one.tape[st.cursor] == ((cell + 1) % 256) as u8);
        assert(both.tape =~= whole.tape);
    } else if c == '-' {
        lemma_sub_in_steps(cell, n);
        assert(one.tape[st.cursor] == ((cell - 1) % 256) as u8);
        assert(both.tape =~= whole.tape);
    } else if c == '>' {
        assert(both == whole);
    } else {
        assert(both == whole);
    }
}

/// A run of a counted token, entered anywhere: nothing is written; the rest of
/// the run leaves the tape where `>` would lead off it, and has the effect of
/// its tokens taken together otherwise, unless the budget does not last.
proof fn lemma_run_walk(
    tokens: Seq<char>,
    end: int,
    st: MachineState,
    input: Seq<u8>,
    fuel: nat,
)
    requires
        state_ok(st),
        0 <= st.pc < end <= tokens.len(),
        is_counted(tokens[st.pc]),
        forall|x: int| st.pc <= x < end ==> #[trigger] tokens[x] == tokens[st.pc],
    ensures
        ({
            ||| run_spec(unit_ops(tokens), st, input, fuel) == (
                Seq::<u8>::empty(),
                Halt::OutOfFuel,
            )
            ||| {
                &&& fuel >= 1
                &&& tokens[st.pc] == '>'
                &&& st.cursor + (end - st.pc) >= MEMORY_SIZE
                &&& run_spec(unit_ops(tokens), st, input, fuel) == (
                    Seq::<u8>::empty(),
                    Halt::TapeOverrun,
                )
            }
            ||| {
                &&& !(tokens[st.pc] == '>' && st.cursor + (end - st.pc) >= MEMORY_SIZE)
                &&& fuel >= end - st.pc
                &&& run_spec(unit_ops(tokens), st, input, fuel) == run_spec(
                    unit_ops(tokens),
                    counted_effect(tokens[st.pc], end - st.pc, st, end),
                    input,
                    (fuel - (end - st.pc)) as nat,
                )
            }
        }),
    decreases end - st.pc,
{
    let p = unit_ops(tokens);
    let c = tokens[st.pc];
    lemma_unit_step(tokens, st);
    let asked = step_spec(p, st, None);
    if fuel >= 1 && asked.1 != Step::TapeOverrun {
        let next = counted_effect(c, 1, st, st.pc + 1);
        let less = (fuel - 1) as nat;
        assert(asked == (next, Step::Continue));
        assert(run_spec(p, st, input, fuel) == run_spec(p, next, input, less));
        assert(next.pc == st.pc + 1) by {
            reveal(counted_effect);
        }
        assert(c == '>' ==> next.cursor == st.cursor + 1) by {
            reveal(counted_effect);
        }
        if next.pc < end {
            assert(tokens[next.pc] == c);
            lemma_run_walk(tokens, end, next, input, less);
            lemma_counted_effect_adds(c, end - next.pc, st, st.pc + 1, end);
        }
    }
}

/// The states of the lowered program (`stq`) and of the token program
/// (`stp`) correspond: same tape and cursor, and the program counter of the
/// first stands for the run start that is the program counter of the second.
pub open spec fn lowered_related(tokens: Seq<char>, stq: MachineState, stp: MachineState) -> bool {
    &&& state_ok(stp)
    &&& stq.tape == stp.tape
    &&& stq.cursor == stp.cursor
    &&& 0 <= stq.pc <= lower(tokens).len()
    &&& stp.pc == run_starts(tokens, 0)[stq.pc]
}

/// One step of the lowered program from `stq`, and the steps of the token
/// program from `stp` that it stands for.
proof fn lemma_lowered_step(
    tokens: Seq<char>,
    stq: MachineState,
    stp: MachineState,
    input: Seq<u8>,
    fuel: nat,
) -> (a: Advance)
    requires
        tokens.len() <= usize::MAX,
        well_bracketed(token_kinds(tokens)),
        lowered_related(tokens, stq, stp),
    ensures
        advances(unit_ops(tokens), lower(tokens), stq, stp, input, fuel, a),
        !a.done ==> lowered_related(tokens, a.stq, a.stp),
{
    let p = unit_ops(tokens);
    let q = lower(tokens);
    let starts = run_starts(tokens, 0);
    let k = stq.pc;
    lemma_unit_ops_kinds(tokens);
    lemma_lower_at(tokens, 0, q.len() as int);
    if k == q.len() {
        Advance { done: true, stq, stp, input, used: 1, out: Seq::empty() }
    } else {
        let x = starts[k];
        lemma_lower_at(tokens, 0, k);
        lemma_run_shape(tokens, x);
        let c = tokens[x];
        assert(p[x] == lower_token(c, 1));
        if !is_counted(c) {
            assert(q[k] == p[x]);
            if q[k] is JZ || q[k] is JNZ {
                lemma_lower_segmented(tokens);
                lemma_segmented_balance(kinds(p), kinds(q), starts);
                assert(kinds(q)[k] != Bracket::Plain);
                lemma_segment_partner(kinds(p), kinds(q), starts, k);
                lemma_segments_ordered(kinds(p), kinds(q), starts, 0, partner(kinds(q), k));
            }
            lemma_same_op(p, q, stq, stp, input, fuel)
        } else {
            reveal(counted_effect);
            let len = run_len(tokens, x);
            let end = x + len;
            lemma_run_walk(tokens, end, stp, input, fuel);
            let op = q[k];
            assert(op == lower_token(c, len as usize));
            let asked = step_spec(q, stq, None);
            assert(asked == apply_spec(op, partner(kinds(q), k), stq, None));
            if run_spec(p, stp, input, fuel) == (Seq::<u8>::empty(), Halt::OutOfFuel) {
                Advance { done: true, stq, stp, input, used: 1, out: Seq::empty() }
            } else if c == '>' && stp.cursor + len >= MEMORY_SIZE {
                Advance { done: true, stq, stp, input, used: 1, out: Seq::empty() }
            } else {
                let less = (fuel - 1) as nat;
                let stp2 = counted_effect(c, len, stp, end);
                assert(asked.1 == Step::Continue);
                assert(asked.0.tape =~= stp2.tape);
                assert(run_spec(q, stq, input, fuel) == run_spec(q, asked.0, input, less));
                let a = Advance {
                    done: false,
                    stq: asked.0,
                    stp: stp2,
                    input,
                    used: len as nat,
                    out: Seq::empty(),
                };
                assert(a.out + run_spec(p, stp2, input, (fuel - len) as nat).0 =~= run_spec(
                    p,
                    stp2,
                    input,
                    (fuel - len) as nat,
                ).0);
                assert(a.out + run_spec(q, a.stq, input, less).0 =~= run_spec(
                    q,
                    a.stq,
                    input,
                    less,
                ).0);
                a
            }
        }
    }
}

/// From corresponding states, the run of the lowered program bears out the
/// run of the token program on the same budget.
pub proof fn lemma_lowered_simulates(
    tokens: Seq<char>,
    stq: MachineState,
    stp: MachineState,
    input: Seq<u8>,
    fuel: nat,
)
    requires
        tokens.len() <= usize::MAX,
        well_bracketed(token_kinds(tokens)),
        lowered_related(tokens, stq, stp),
    ensures
        bears_out(
            run_spec(unit_ops(tokens), stp, input, fuel),
            run_spec(lower(tokens), stq, input, fuel),
        ),
    decreases fuel,
{
    let p = unit_ops(tokens);
    let q = lower(tokens);
    let a = lemma_lowered_step(tokens, stq, stp, input, fuel);
    if !a.done {
        let rest = (fuel - a.used) as nat;
        let less = (fuel - 1) as nat;
        lemma_lowered_simulates(tokens, a.stq, a.stp, a.input, rest);
        lemma_run_output_grows(q, a.stq, a.input, rest, less);
        if run_spec(q, a.stq, a.input, rest).1 != Halt::OutOfFuel {
            lemma_run_more_fuel(q, a.stq, a.input, rest, less);
        }
        lemma_bears_out_behind(
            a.out,
            run_spec(p, a.stp, a.input, rest),
            run_spec(q, a.stq, a.input, rest),
            run_spec(q, a.stq, a.input, less),
        );
    }
}

/// The lowerer keeps what a program does: on every input and budget, the
/// lowered program writes everything that the token program writes, in the
/// same order, and where the run of the token program ends, for whatever
/// reason, the run of the lowered program ends for the same reason with the
/// same output.
pub proof fn lemma_lowerer_keeps_runs(tokens: Seq<char>, input: Seq<u8>, fuel: nat)
    requires
        tokens.len() <= usize::MAX,
        well_bracketed(token_kinds(tokens)),
    ensures
        well_bracketed(kinds(lower(tokens))),
        bears_out(
            run_spec(unit_ops(tokens), initial_state(), input, fuel),
            run_spec(lower(tokens), initial_state(), input, fuel),
        ),
{
    lemma_lower_at(tokens, 0, 0);
    lemma_lowered_simulates(tokens, initial_state(), initial_state(), input, fuel);
    lemma_unit_ops_kinds(tokens);
    lemma_lower_segmented(tokens);
    lemma_segmented_balance(token_kinds(tokens), kinds(lower(tokens)), run_starts(tokens, 0));
}

/// The bytecode interpreter bears the tree-walking interpreter out: on every
/// well-bracketed program, input and budget, the run of the lowered and
/// optimized program writes everything that the run of the token program
/// writes, in the same order; and where the run of the token program ends,
/// for whatever reason, the other ends for the same reason and has written
/// the same bytes.
pub proof fn lemma_interpreters_agree(tokens: Seq<char>, input: Seq<u8>, fuel: nat)
    requires
        tokens.len() <= usize::MAX,
        well_bracketed(token_kinds(tokens)),
    ensures
        well_bracketed(kinds(optimized(lower(tokens)))),
        bears_out(
            run_spec(unit_ops(tokens), initial_state(), input, fuel),
            run_spec(optimized(lower(tokens)), initial_state(), input, fuel),
        ),
        run_spec(unit_ops(tokens), initial_state(), input, fuel).1 != Halt::OutOfFuel ==> run_spec(
            optimized(lower(tokens)),
            initial_state(),
            input,
            fuel,
        ) == run_spec(unit_ops(tokens), initial_state(), input, fuel),
{
    lemma_lowerer_keeps_runs(tokens, input, fuel);
    lemma_optimizer_keeps_runs(lower(tokens), input, fuel);
    lemma_optimized_keeps_balance(lower(tokens));
    lemma_bears_out_chain(
        run_spec(unit_ops(tokens), initial_state(), input, fuel),
        run_spec(lower(tokens), initial_state(), input, fuel),
        run_spec(optimized(lower(tokens)), initial_state(), input, fuel),
    );
}

/// Where both interpreters end their runs on a program and an input, each on
/// a budget of its own, they end for the same reason and have written the
/// same bytes.
pub proof fn lemma_ended_runs_are_equal(tokens: Seq<char>, input: Seq<u8>, walk: nat, fast: nat)
    requires
        tokens.len() <= usize::MAX,
        well_bracketed(token_kinds(tokens)),
        run_spec(unit_ops(tokens), initial_state(), input, walk).1 != Halt::OutOfFuel,
        run_spec(optimized(lower(tokens)), initial_state(), input, fast).1 != Halt::OutOfFuel,
    ensures
        run_spec(optimized(lower(tokens)), initial_state(), input, fast) == run_spec(
            unit_ops(tokens),
            initial_state(),
            input,
            walk,
        ),
{
    let q = optimized(lower(tokens));
    lemma_interpreters_agree(tokens, input, walk);
    if walk <= fast {
        lemma_run_more_fuel(q, initial_state(), input, walk, fast);
    } else {
        lemma_run_more_fuel(q, initial_state(), input, fast, walk);
    }
}

} // verus!
