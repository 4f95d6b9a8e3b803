//! The native emitter for bytecode. Instruction bytes go into an assembler of
//! the `dynasmrt` crate, which keeps the labels and fills in the jump
//! displacements when the code is finalized.

use vstd::prelude::*;
use dynasmrt::{DynamicLabel, DynasmError, DynasmLabelApi, VecAssembler};
use dynasmrt::x64::X64Relocation;
use crate::brackets::{
    first_unmatched, has_partner, lemma_pending_closer, lemma_pending_opener,
    lemma_pending_plain, paired, partner, pending, well_bracketed, Bracket,
};
use crate::bytecode_bf::{kinds, ByteCode, ByteCodeProgram, Change};
use crate::error::JitError;
use crate::jit_utils::{
    fits_rel32, le32, lemma_patch32_append, lemma_patch32_len, lemma_patch32_tail, patch32,
    wrap32, CodeEmitter,
};
use crate::x64::{
    add_cell, blank_field, jump_if_not_zero, jump_if_zero, load_tape, read_cell, ret, sub_cell,
    write_cell, zero_cell,
};

verus! {

/// `dynasmrt::VecAssembler` with the relocations of x86-64: an assembler that
/// collects its bytes in memory. Nothing inside it is visible to the proofs;
/// what it holds goes by the four names below, and what its methods do by the
/// contracts of the functions that call them.
#[verifier::external_body]
pub struct Assembler {
    inner: VecAssembler<X64Relocation>,
}

/// `dynasmrt::DynamicLabel`: a label that an assembler has handed out. Only
/// its number is spoken of.
#[verifier::external_type_specification]
#[verifier::external_body]
pub struct ExDynamicLabel(DynamicLabel);

/// `dynasmrt::DynasmError`: why an assembler failed. It is only passed on.
#[verifier::external_type_specification]
#[verifier::external_body]
pub struct ExDynasmError(DynasmError);

/// The bytes that the assembler holds.
pub uninterp spec fn asm_code(a: Assembler) -> Seq<u8>;

/// The labels that the assembler has handed out, by number: the offset where
/// each was placed, or `None` while it is unplaced.
pub uninterp spec fn asm_labels(a: Assembler) -> Seq<Option<int>>;

/// The jumps that the assembler still has to fill in, oldest first: the offset
/// behind the displacement field, and the number of the label aimed at.
pub uninterp spec fn asm_jumps(a: Assembler) -> Seq<(int, int)>;

/// The assembler has recorded a misuse of a label, which makes it fail when
/// the code is finalized.
pub uninterp spec fn asm_failed(a: Assembler) -> bool;

/// The number of a label, as `DynamicLabel::get_id` gives it.
pub uninterp spec fn label_id(l: DynamicLabel) -> int;

/// `VecAssembler::new`: an assembler without bytes, labels or jumps. The base
/// address that it is given plays no part: every jump recorded here is
/// relative.
#[verifier::external_body]
fn asm_new() -> (a: Assembler)
    ensures
        asm_code(a) == Seq::<u8>::empty(),
        asm_labels(a) == Seq::<Option<int>>::empty(),
        asm_jumps(a) == Seq::<(int, int)>::empty(),
        !asm_failed(a),
{
    Assembler { inner: VecAssembler::new(0) }
}

/// `Extend::extend` on the assembler: the bytes are appended; nothing else
/// changes.
#[verifier::external_body]
fn asm_emit(a: &mut Assembler, bytes: &Vec<u8>)
    ensures
        asm_code(*final(a)) == asm_code(*old(a)) + bytes@,
        asm_labels(*final(a)) == asm_labels(*old(a)),
        asm_jumps(*final(a)) == asm_jumps(*old(a)),
        asm_failed(*final(a)) == asm_failed(*old(a)),
{
    a.inner.extend(bytes)
}

/// `VecAssembler::new_dynamic_label`: hands out the next label number; the
/// label is unplaced.
#[verifier::external_body]
fn asm_new_label(a: &mut Assembler) -> (l: DynamicLabel)
    ensures
        label_id(l) == asm_labels(*old(a)).len(),
        asm_labels(*final(a)) == asm_labels(*old(a)).push(None),
        asm_code(*final(a)) == asm_code(*old(a)),
        asm_jumps(*final(a)) == asm_jumps(*old(a)),
        asm_failed(*final(a)) == asm_failed(*old(a)),
{
    a.inner.new_dynamic_label()
}

/// `DynasmLabelApi::dynamic_label`: places a label that the assembler handed
/// out and that is still unplaced at the end of the bytes emitted so far. On
/// any other label the assembler records a misuse instead.
#[verifier::external_body]
fn asm_place_label(a: &mut Assembler, l: DynamicLabel)
    ensures
        asm_code(*final(a)) == asm_code(*old(a)),
        asm_jumps(*final(a)) == asm_jumps(*old(a)),
        if 0 <= label_id(l) < asm_labels(*old(a)).len() && asm_labels(*old(a))[label_id(l)] is None {
            &&& asm_labels(*final(a)) == asm_labels(*old(a)).update(
                label_id(l),
                Some(asm_code(*old(a)).len() as int),
            )
            &&& asm_failed(*final(a)) == asm_failed(*old(a))
        } else {
            &&& asm_labels(*final(a)) == asm_labels(*old(a))
            &&& asm_failed(*final(a))
        },
{
    a.inner.dynamic_label(l)
}

/// `DynasmLabelApi::dynamic_reloc` for a four-byte relative field that ends
/// where the bytes emitted so far end: the jump is recorded; nothing else
/// changes.
#[verifier::external_body]
fn asm_jump_to(a: &mut Assembler, l: DynamicLabel)
    ensures
        asm_jumps(*final(a)) == asm_jumps(*old(a)).push(
            (asm_code(*old(a)).len() as int, label_id(l)),
        ),
        asm_code(*final(a)) == asm_code(*old(a)),
        asm_labels(*final(a)) == asm_labels(*old(a)),
        asm_failed(*final(a)) == asm_failed(*old(a)),
{
    a.inner.dynamic_reloc(l, 0, 4, 0, (4,))
}

/// The jump `(behind, label)` can be filled in: its field lies within `code`,
/// the label is placed, and the way from behind the field to the label fits
/// the field.
pub open spec fn jump_links(code: Seq<u8>, labels: Seq<Option<int>>, jump: (int, int)) -> bool {
    &&& 4 <= jump.0 <= code.len()
    &&& 0 <= jump.1 < labels.len()
    &&& labels[jump.1] is Some
    &&& fits_rel32(labels[jump.1]->0 - jump.0)
}

/// Every jump can be filled in.
pub open spec fn all_link(code: Seq<u8>, labels: Seq<Option<int>>, jumps: Seq<(int, int)>) -> bool {
    forall|m: int| 0 <= m < jumps.len() ==> jump_links(code, labels, #[trigger] jumps[m])
}

/// `code` with the displacement of every jump filled in, oldest first: the
/// distance from behind the field to the label, in two's complement, least
/// significant byte first.
pub open spec fn linked(code: Seq<u8>, labels: Seq<Option<int>>, jumps: Seq<(int, int)>) -> Seq<u8>
    decreases jumps.len(),
{
    if jumps.len() == 0 {
        code
    } else {
        let jump = jumps.last();
        patch32(
            linked(code, labels, jumps.drop_last()),
            jump.0 - 4,
            wrap32(labels[jump.1]->0 - jump.0),
        )
    }
}

/// `VecAssembler::finalize`: fills in the recorded jumps, oldest first, and
/// hands out the bytes. It fails where a misuse of a label was recorded, where
/// a jump aims at a label that was never placed, and where a displacement
/// does not fit its field. A field that does not lie within the bytes would
/// make it panic, so such a jump is not admitted.
#[verifier::external_body]
fn asm_finalize(a: Assembler) -> (r: Result<Vec<u8>, DynasmError>)
    requires
        forall|m: int| 0 <= m < asm_jumps(a).len() ==> 4 <= (#[trigger] asm_jumps(a)[m]).0 <= asm_code(a).len(),
    ensures
        match r {
            Ok(code) => {
                &&& !asm_failed(a)
                &&& all_link(asm_code(a), asm_labels(a), asm_jumps(a))
                &&& code@ == linked(asm_code(a), asm_labels(a), asm_jumps(a))
            },
            Err(_) => asm_failed(a) || !all_link(asm_code(a), asm_labels(a), asm_jumps(a)),
        },
{
    a.inner.finalize()
}

/// Filling in jumps keeps the length.
proof fn lemma_linked_len(code: Seq<u8>, labels: Seq<Option<int>>, jumps: Seq<(int, int)>)
    requires
        forall|m: int| 0 <= m < jumps.len() ==> 4 <= (#[trigger] jumps[m]).0 <= code.len(),
    ensures
        linked(code, labels, jumps).len() == code.len(),
    decreases jumps.len(),
{
    if jumps.len() > 0 {
        let rest = jumps.drop_last();
        assert forall|m: int| 0 <= m < rest.len() implies 4 <= (#[trigger] rest[m]).0
            <= code.len() by {
            assert(rest[m] == jumps[m]);
        }
        lemma_linked_len(code, labels, rest);
        let jump = jumps.last();
        assert(jump == jumps[jumps.len() - 1]);
        lemma_patch32_len(
            linked(code, labels, rest),
            jump.0 - 4,
            wrap32(labels[jump.1]->0 - jump.0),
        );
    }
}

/// Bytes appended behind every recorded jump stay as they are.
proof fn lemma_linked_append(
    code: Seq<u8>,
    labels: Seq<Option<int>>,
    jumps: Seq<(int, int)>,
    more: Seq<u8>,
)
    requires
        forall|m: int| 0 <= m < jumps.len() ==> 4 <= (#[trigger] jumps[m]).0 <= code.len(),
    ensures
        linked(code + more, labels, jumps) == linked(code, labels, jumps) + more,
    decreases jumps.len(),
{
    if jumps.len() > 0 {
        let rest = jumps.drop_last();
        assert forall|m: int| 0 <= m < rest.len() implies 4 <= (#[trigger] rest[m]).0
            <= code.len() by {
            assert(rest[m] == jumps[m]);
        }
        lemma_linked_append(code, labels, rest, more);
        lemma_linked_len(code, labels, rest);
        let jump = jumps.last();
        assert(jump == jumps[jumps.len() - 1]);
        lemma_patch32_append(
            linked(code, labels, rest),
            more,
            jump.0 - 4,
            wrap32(labels[jump.1]->0 - jump.0),
        );
    } else {
        assert(linked(code + more, labels, jumps) =~= linked(code, labels, jumps) + more);
    }
}

/// Only the labels that the jumps aim at matter.
proof fn lemma_linked_labels(
    code: Seq<u8>,
    labels: Seq<Option<int>>,
    other: Seq<Option<int>>,
    jumps: Seq<(int, int)>,
)
    requires
        forall|m: int|
            0 <= m < jumps.len() ==> labels[(#[trigger] jumps[m]).1] == other[jumps[m].1],
    ensures
        linked(code, labels, jumps) == linked(code, other, jumps),
    decreases jumps.len(),
{
    if jumps.len() > 0 {
        let rest = jumps.drop_last();
        assert forall|m: int| 0 <= m < rest.len() implies labels[(#[trigger] rest[m]).1]
            == other[rest[m].1] by {
            assert(rest[m] == jumps[m]);
        }
        lemma_linked_labels(code, labels, other, rest);
        assert(jumps.last() == jumps[jumps.len() - 1]);
    }
}

/// A jump recorded behind a blank field that was just appended: the field
/// gets the displacement, everything in front stays.
proof fn lemma_linked_jump(
    code: Seq<u8>,
    labels: Seq<Option<int>>,
    jumps: Seq<(int, int)>,
    head: Seq<u8>,
    label: int,
)
    requires
        forall|m: int| 0 <= m < jumps.len() ==> 4 <= (#[trigger] jumps[m]).0 <= code.len(),
    ensures
        linked(
            code + (head + blank_field()),
            labels,
            jumps.push(((code.len() + head.len() + 4) as int, label)),
        ) == linked(code, labels, jumps) + (head + le32(
            wrap32(labels[label]->0 - (code.len() + head.len() + 4)),
        )),
{
    let behind = (code.len() + head.len() + 4) as int;
    let grown = code + (head + blank_field());
    let all = jumps.push((behind, label));
    let before = linked(code, labels, jumps);
    assert(all.drop_last() =~= jumps);
    assert(all.last() == (behind, label));
    lemma_linked_append(code, labels, jumps, head + blank_field());
    lemma_linked_len(code, labels, jumps);
    assert(before + (head + blank_field()) =~= (before + head) + blank_field());
    lemma_patch32_tail(before + head, blank_field(), wrap32(labels[label]->0 - behind));
    assert((before + head) + le32(wrap32(labels[label]->0 - behind)) =~= before + (head + le32(
        wrap32(labels[label]->0 - behind),
    )));
}

/// `add r13, n`.
pub open spec fn add_cursor(n: u32) -> Seq<u8> {
    seq![0x49u8, 0x81u8, 0xC5u8] + le32(n)
}

/// `sub r13, n`.
pub open spec fn sub_cursor(n: u32) -> Seq<u8> {
    seq![0x49u8, 0x81u8, 0xEDu8] + le32(n)
}

/// The cursor step of a scan.
pub open spec fn scan_step(c: Change) -> Seq<u8> {
    match c {
        Change::Incr(n) => add_cursor(n as u32),
        Change::Decr(n) => sub_cursor(n as u32),
    }
}

/// The second half of a scan, without its displacement: the cursor step and
/// the opcode byte of `jmp rel32`.
pub open spec fn scan_back(c: Change) -> Seq<u8> {
    scan_step(c) + seq![0xE9u8]
}

/// The machine code of one opcode. `disp` is the displacement of its jump,
/// for `JZ` and `JNZ`; for the others it plays no part. A scan tests the cell,
/// leaves if it is zero (12 bytes ahead), steps the cursor and jumps back to the
/// test (23 bytes back).
pub open spec fn op_code(op: ByteCode, disp: int) -> Seq<u8> {
    match op {
        ByteCode::Nop => Seq::empty(),
        ByteCode::DataPointerIncr(n) => add_cursor(n as u32),
        ByteCode::DataPointerDecr(n) => sub_cursor(n as u32),
        ByteCode::DataIncr(n) => add_cell(n as u8),
        ByteCode::DataDecr(n) => sub_cell(n as u8),
        ByteCode::Write => write_cell(),
        ByteCode::Read => read_cell(),
        ByteCode::JZ => jump_if_zero() + le32(wrap32(disp)),
        ByteCode::JNZ => jump_if_not_zero() + le32(wrap32(disp)),
        ByteCode::SETZERO => zero_cell(),
        ByteCode::MoveInStepUntilZero(c) => (jump_if_zero() + le32(wrap32(12))) + (scan_back(c)
            + le32(wrap32(-23))),
    }
}

/// Number of bytes of the machine code of one opcode.
pub open spec fn op_len(op: ByteCode) -> int {
    match op {
        ByteCode::Nop => 0,
        ByteCode::DataPointerIncr(_) => 7,
        ByteCode::DataPointerDecr(_) => 7,
        ByteCode::DataIncr(_) => 5,
        ByteCode::DataDecr(_) => 5,
        ByteCode::Write => 26,
        ByteCode::Read => 26,
        ByteCode::JZ => 11,
        ByteCode::JNZ => 11,
        ByteCode::SETZERO => 5,
        ByteCode::MoveInStepUntilZero(_) => 23,
    }
}

/// Offset at which the machine code of opcode `k` starts; for `k` the number
/// of opcodes, the offset behind the last.
pub open spec fn code_start(ops: Seq<ByteCode>, k: int) -> int
    decreases k,
{
    if k <= 0 {
        10
    } else {
        code_start(ops, k - 1) + op_len(ops[k - 1])
    }
}

/// Displacement of the jump of the bracket at `k`: from behind its own code to
/// behind the code of its partner.
pub open spec fn jump_disp(ops: Seq<ByteCode>, k: int) -> int {
    code_start(ops, partner(kinds(ops), k) + 1) - code_start(ops, k + 1)
}

/// The machine code up to opcode `n`: the load of the tape address and the
/// code of the first `n` opcodes.
pub open spec fn native_prefix(ops: Seq<ByteCode>, tape: u64, n: int) -> Seq<u8>
    decreases n,
{
    if n <= 0 {
        load_tape(tape)
    } else {
        native_prefix(ops, tape, n - 1) + op_code(ops[n - 1], jump_disp(ops, n - 1))
    }
}

/// The machine code of a program that works on the tape at address `tape`.
pub open spec fn native_code(ops: Seq<ByteCode>, tape: u64) -> Seq<u8> {
    native_prefix(ops, tape, ops.len() as int) + ret()
}

/// The limit that the operand of `op`, found at index `k`, breaks, if it
/// breaks one: a cell delta has to fit a byte, a cursor delta a signed 32-bit
/// immediate.
pub open spec fn limit_fault(op: ByteCode, k: usize) -> Option<JitError> {
    match op {
        ByteCode::DataIncr(n) => if n > 255 {
            Some(JitError::CellDeltaOverflow(k))
        } else {
            None
        },
        ByteCode::DataDecr(n) => if n > 255 {
            Some(JitError::CellDeltaOverflow(k))
        } else {
            None
        },
        ByteCode::DataPointerIncr(n) => if n > 0x7fff_ffff {
            Some(JitError::PointerDeltaOverflow(k))
        } else {
            None
        },
        ByteCode::DataPointerDecr(n) => if n > 0x7fff_ffff {
            Some(JitError::PointerDeltaOverflow(k))
        } else {
            None
        },
        ByteCode::MoveInStepUntilZero(Change::Incr(n)) => if n > 0x7fff_ffff {
            Some(JitError::PointerDeltaOverflow(k))
        } else {
            None
        },
        ByteCode::MoveInStepUntilZero(Change::Decr(n)) => if n > 0x7fff_ffff {
            Some(JitError::PointerDeltaOverflow(k))
        } else {
            None
        },
        _ => None,
    }
}

/// Why the opcode at `k` cannot be emitted, if it cannot: its operand breaks
/// a limit, or it is a `JNZ` without a partner.
pub open spec fn native_fault(ops: Seq<ByteCode>, k: int) -> Option<JitError> {
    if ops[k] is JNZ && !has_partner(kinds(ops), k) {
        Some(JitError::UnbalancedBrackets(k as usize))
    } else {
        limit_fault(ops[k], k as usize)
    }
}

/// No opcode is at fault.
pub open spec fn faultless(ops: Seq<ByteCode>) -> bool {
    forall|m: int| 0 <= m < ops.len() ==> native_fault(ops, m) is None
}

/// The displacement of every bracket fits its field.
pub open spec fn displacements_fit(ops: Seq<ByteCode>) -> bool {
    forall|k: int|
        0 <= k < ops.len() && ops[k].spec_kind() != Bracket::Plain ==> fits_rel32(
            #[trigger] jump_disp(ops, k),
        )
}

/// The program can be emitted.
pub open spec fn emittable(ops: Seq<ByteCode>) -> bool {
    &&& faultless(ops)
    &&& well_bracketed(kinds(ops))
    &&& displacements_fit(ops)
}

/// The error that emitting `ops` reports: that of the first opcode at fault;
/// where none is, the first `JZ` that is never closed; where every bracket has
/// its partner, a displacement that does not fit.
pub open spec fn emit_error(ops: Seq<ByteCode>, e: JitError) -> bool {
    ||| exists|k: int|
        {
            &&& 0 <= k < ops.len()
            &&& native_fault(ops, k) == Some(e)
            &&& forall|m: int| 0 <= m < k ==> native_fault(ops, m) is None
        }
    ||| {
        &&& faultless(ops)
        &&& exists|k: int|
            first_unmatched(kinds(ops), k) && e == JitError::UnbalancedBrackets(k as usize)
    }
    ||| {
        &&& faultless(ops)
        &&& well_bracketed(kinds(ops))
        &&& !displacements_fit(ops)
        &&& e == JitError::DisplacementOverflow
    }
}

/// The machine code of an opcode has the length that `op_len` gives.
proof fn lemma_op_code_len(op: ByteCode, disp: int)
    ensures
        op_code(op, disp).len() == op_len(op),
{
}

/// Where emitting reports an error, the program is not emittable.
pub proof fn lemma_emit_error_excludes_emittable(ops: Seq<ByteCode>, e: JitError)
    requires
        emit_error(ops, e),
    ensures
        !emittable(ops),
{
}

/// What an assembler holds, as plain values.
pub struct Assembly {
    pub code: Seq<u8>,
    pub labels: Seq<Option<int>>,
    pub jumps: Seq<(int, int)>,
    pub failed: bool,
}

/// What the assembler `a` holds.
pub open spec fn assembly(a: Assembler) -> Assembly {
    Assembly { code: asm_code(a), labels: asm_labels(a), jumps: asm_jumps(a), failed: asm_failed(a) }
}

/// The opcode indices on a stack of open loops. An entry holds the index of
/// the `JZ`, the label behind its code and the label behind its partner's.
spec fn loop_sites(stack: Seq<(int, int, int)>) -> Seq<int> {
    stack.map_values(|e: (int, int, int)| e.0)
}

/// Every label has its planned offset, and the placed ones stand there.
spec fn plan_kept(s: Assembly, plan: Seq<Option<int>>) -> bool {
    &&& s.labels.len() == plan.len()
    &&& forall|id: int| 0 <= id < plan.len() ==> (#[trigger] plan[id]) is Some
    &&& forall|id: int|
        0 <= id < plan.len() && (#[trigger] s.labels[id]) is Some ==> s.labels[id] == plan[id]
}

/// Every recorded jump lies within the code and aims at a known label.
spec fn jumps_kept(s: Assembly, plan: Seq<Option<int>>) -> bool {
    forall|m: int|
        0 <= m < s.jumps.len() ==> 4 <= (#[trigger] s.jumps[m]).0 <= s.code.len() && 0
            <= s.jumps[m].1 < plan.len()
}

/// What holds of one open loop.
spec fn entry_kept(ops: Seq<ByteCode>, s: Assembly, plan: Seq<Option<int>>, e: (int, int, int)) -> bool {
    &&& 0 <= e.1 < plan.len()
    &&& 0 <= e.2 < plan.len()
    &&& plan[e.1] == Some(code_start(ops, e.0 + 1))
    &&& plan[e.2] == Some(code_start(ops, partner(kinds(ops), e.0) + 1))
    &&& s.labels[e.2] is None
}

/// The unplaced labels are the closing labels of the open loops.
spec fn stack_kept(ops: Seq<ByteCode>, s: Assembly, stack: Seq<(int, int, int)>, plan: Seq<Option<int>>) -> bool {
    &&& forall|p: int| 0 <= p < stack.len() ==> entry_kept(ops, s, plan, #[trigger] stack[p])
    &&& forall|p: int, q: int|
        0 <= p < q < stack.len() ==> (#[trigger] stack[p]).2 < (#[trigger] stack[q]).2
    &&& forall|id: int|
        0 <= id < s.labels.len() && (#[trigger] s.labels[id]) is None ==> exists|p: int|
            0 <= p < stack.len() && (#[trigger] stack[p]).2 == id
}

/// The recorded jumps can be filled in exactly if the displacements of the
/// brackets seen so far fit.
spec fn fits_kept(ops: Seq<ByteCode>, pc: int, s: Assembly, plan: Seq<Option<int>>) -> bool {
    &&& displacements_fit(ops) ==> all_link(s.code, plan, s.jumps)
    &&& all_link(s.code, plan, s.jumps) ==> forall|k: int|
        0 <= k < pc && ops[k].spec_kind() != Bracket::Plain ==> fits_rel32(
            #[trigger] jump_disp(ops, k),
        )
}

/// What holds between opcodes while a program is emitted.
spec fn emit_inv(
    ops: Seq<ByteCode>,
    tape: u64,
    pc: int,
    s: Assembly,
    stack: Seq<(int, int, int)>,
    plan: Seq<Option<int>>,
) -> bool {
    &&& pending(kinds(ops), pc, loop_sites(stack))
    &&& !s.failed
    &&& s.code.len() == code_start(ops, pc)
    &&& linked(s.code, plan, s.jumps) == native_prefix(ops, tape, pc)
    &&& plan_kept(s, plan)
    &&& jumps_kept(s, plan)
    &&& stack_kept(ops, s, stack, plan)
    &&& fits_kept(ops, pc, s, plan)
    &&& forall|m: int| 0 <= m < pc ==> native_fault(ops, m) is None
}

/// Growing the code and the plan changes nothing for the jumps recorded before.
proof fn lemma_links_grow(
    s: Assembly,
    plan: Seq<Option<int>>,
    code2: Seq<u8>,
    plan2: Seq<Option<int>>,
)
    requires
        jumps_kept(s, plan),
        s.code.len() <= code2.len(),
        plan.len() <= plan2.len(),
        forall|id: int| 0 <= id < plan.len() ==> plan2[id] == plan[id],
    ensures
        all_link(s.code, plan, s.jumps) <==> all_link(code2, plan2, s.jumps),
        forall|tail: Seq<u8>|
            linked(s.code + tail, plan2, s.jumps) == #[trigger] (linked(s.code, plan, s.jumps)
                + tail),
{
    let jumps = s.jumps;
    if all_link(s.code, plan, jumps) {
        assert forall|m: int| 0 <= m < jumps.len() implies jump_links(
            code2,
            plan2,
            #[trigger] jumps[m],
        ) by {
            assert(jump_links(s.code, plan, jumps[m]));
        }
    }
    if all_link(code2, plan2, jumps) {
        assert forall|m: int| 0 <= m < jumps.len() implies jump_links(
            s.code,
            plan,
            #[trigger] jumps[m],
        ) by {
            assert(jump_links(code2, plan2, jumps[m]));
        }
    }
    assert forall|tail: Seq<u8>|
        linked(s.code + tail, plan2, jumps) == #[trigger] (linked(s.code, plan, jumps)
            + tail) by {
        lemma_linked_labels(s.code + tail, plan2, plan, jumps);
        lemma_linked_append(s.code, plan, jumps, tail);
    }
}

/// An opcode without jump or label.
proof fn lemma_emit_plain(
    ops: Seq<ByteCode>,
    tape: u64,
    pc: int,
    s: Assembly,
    stack: Seq<(int, int, int)>,
    plan: Seq<Option<int>>,
    t: Assembly,
)
    requires
        emit_inv(ops, tape, pc, s, stack, plan),
        0 <= pc < ops.len(),
        !(ops[pc] is JZ),
        !(ops[pc] is JNZ),
        !(ops[pc] is MoveInStepUntilZero),
        native_fault(ops, pc) is None,
        t == (Assembly { code: s.code + op_code(ops[pc], 0), ..s }),
    ensures
        emit_inv(ops, tape, pc + 1, t, stack, plan),
{
    let after = pc + 1;
    let bytes = op_code(ops[pc], 0);
    assert(bytes == op_code(ops[pc], jump_disp(ops, pc)));
    lemma_op_code_len(ops[pc], 0);
    assert(kinds(ops)[pc] == Bracket::Plain);
    lemma_pending_plain(kinds(ops), pc, loop_sites(stack));
    lemma_links_grow(s, plan, t.code, plan);
    assert(linked(t.code, plan, t.jumps) == linked(s.code, plan, s.jumps) + bytes);
    assert forall|p: int| 0 <= p < stack.len() implies entry_kept(
        ops,
        t,
        plan,
        #[trigger] stack[p],
    ) by {
        assert(entry_kept(ops, s, plan, stack[p]));
    }
    assert(fits_kept(ops, after, t, plan));
    assert(emit_inv(ops, tape, after, t, stack, plan));
}

/// The stack part of `lemma_emit_open`.
proof fn lemma_emit_open_stack(
    ops: Seq<ByteCode>,
    pc: int,
    s: Assembly,
    stack: Seq<(int, int, int)>,
    plan: Seq<Option<int>>,
    t: Assembly,
    stack2: Seq<(int, int, int)>,
    plan2: Seq<Option<int>>,
    len: int,
    l: int,
)
    requires
        plan_kept(s, plan),
        stack_kept(ops, s, stack, plan),
        len == s.code.len(),
        l == s.labels.len(),
        len + 11 == code_start(ops, pc + 1),
        t.labels == s.labels.push(None).push(None).update(l, Some(len + 11)),
        stack2 == stack.push((pc, l, l + 1)),
        plan2 == plan.push(Some(code_start(ops, pc + 1))).push(
            Some(code_start(ops, partner(kinds(ops), pc) + 1)),
        ),
    ensures
        plan_kept(t, plan2),
        stack_kept(ops, t, stack2, plan2),
{
    assert forall|id: int| 0 <= id < plan2.len() implies (#[trigger] plan2[id]) is Some by {
        if id < l {
            assert(plan[id] is Some);
        }
    }
    assert forall|id: int| 0 <= id < plan2.len() && (#[trigger] t.labels[id]) is Some implies t.labels[id]
        == plan2[id] by {
        if id < l {
            assert(s.labels[id] is Some);
        }
    }
    assert forall|p: int| 0 <= p < stack2.len() implies entry_kept(
        ops,
        t,
        plan2,
        #[trigger] stack2[p],
    ) by {
        if p < stack.len() {
            assert(entry_kept(ops, s, plan, stack[p]));
        }
    }
    assert forall|id: int| 0 <= id < t.labels.len() && (#[trigger] t.labels[id]) is None implies exists|
        p: int,
    |
        0 <= p < stack2.len() && (#[trigger] stack2[p]).2 == id by {
        if id < l {
            assert(s.labels[id] is None);
            let p = choose|p: int| 0 <= p < stack.len() && (#[trigger] stack[p]).2 == id;
            assert(stack2[p].2 == id);
        } else {
            assert(stack2[stack.len() as int].2 == id);
        }
    }
    assert forall|p: int, q: int| 0 <= p < q < stack2.len() implies (#[trigger] stack2[p]).2 < (
    #[trigger] stack2[q]).2 by {
        assert(entry_kept(ops, s, plan, stack[p]));
    }
}

/// The part of the step lemmas on whether the jumps can be filled in, for a
/// step that records one jump for the bracket at `pc`.
proof fn lemma_emit_fits(
    ops: Seq<ByteCode>,
    pc: int,
    s: Assembly,
    plan: Seq<Option<int>>,
    t: Assembly,
    plan2: Seq<Option<int>>,
    label: int,
)
    requires
        0 <= pc < ops.len(),
        ops[pc].spec_kind() != Bracket::Plain,
        jumps_kept(s, plan),
        fits_kept(ops, pc, s, plan),
        s.code.len() + 11 == t.code.len(),
        t.jumps == s.jumps.push((t.code.len() as int, label)),
        plan.len() <= plan2.len(),
        forall|id: int| 0 <= id < plan.len() ==> plan2[id] == plan[id],
        0 <= label < plan2.len(),
        plan2[label] is Some,
        plan2[label]->0 - t.code.len() == jump_disp(ops, pc),
    ensures
        fits_kept(ops, pc + 1, t, plan2),
        jumps_kept(t, plan2),
{
    let after = pc + 1;
    lemma_links_grow(s, plan, t.code, plan2);
    if displacements_fit(ops) {
        assert(fits_rel32(jump_disp(ops, pc)));
        assert forall|m: int| 0 <= m < t.jumps.len() implies jump_links(
            t.code,
            plan2,
            #[trigger] t.jumps[m],
        ) by {
            if m < s.jumps.len() {
                assert(jump_links(t.code, plan2, s.jumps[m]));
            }
        }
    }
    if all_link(t.code, plan2, t.jumps) {
        assert forall|m: int| 0 <= m < s.jumps.len() implies jump_links(
            t.code,
            plan2,
            #[trigger] s.jumps[m],
        ) by {
            assert(jump_links(t.code, plan2, t.jumps[m]));
        }
        assert(jump_links(t.code, plan2, t.jumps[s.jumps.len() as int]));
        assert forall|k: int|
            0 <= k < after && ops[k].spec_kind() != Bracket::Plain implies fits_rel32(
            #[trigger] jump_disp(ops, k),
        ) by {}
    }
}

/// A `JZ`: two fresh labels, the jump to the second, the first placed behind
/// the jump.
proof fn lemma_emit_open(
    ops: Seq<ByteCode>,
    tape: u64,
    pc: int,
    s: Assembly,
    stack: Seq<(int, int, int)>,
    plan: Seq<Option<int>>,
    t: Assembly,
    stack2: Seq<(int, int, int)>,
    plan2: Seq<Option<int>>,
    len: int,
    l: int,
)
    requires
        emit_inv(ops, tape, pc, s, stack, plan),
        0 <= pc < ops.len(),
        ops[pc] is JZ,
        len == s.code.len(),
        l == s.labels.len(),
        t.code == s.code + (jump_if_zero() + blank_field()),
        t.jumps == s.jumps.push((len + 11, l + 1)),
        t.labels == s.labels.push(None).push(None).update(l, Some(len + 11)),
        t.failed == s.failed,
        stack2 == stack.push((pc, l, l + 1)),
        plan2 == plan.push(Some(code_start(ops, pc + 1))).push(
            Some(code_start(ops, partner(kinds(ops), pc) + 1)),
        ),
    ensures
        emit_inv(ops, tape, pc + 1, t, stack2, plan2),
{
    let after = pc + 1;
    assert(kinds(ops)[pc] == Bracket::Opener);
    assert(pending(kinds(ops), after, loop_sites(stack2))) by {
        lemma_pending_opener(kinds(ops), pc, loop_sites(stack));
        assert(loop_sites(stack2) =~= loop_sites(stack).push(pc));
    }
    assert(linked(t.code, plan2, t.jumps) == native_prefix(ops, tape, after)) by {
        lemma_linked_jump(s.code, plan2, s.jumps, jump_if_zero(), l + 1);
        lemma_linked_labels(s.code, plan2, plan, s.jumps);
        assert(plan2[l + 1]->0 - (len + 11) == jump_disp(ops, pc));
    }
    lemma_emit_open_stack(ops, pc, s, stack, plan, t, stack2, plan2, len, l);
    lemma_emit_fits(ops, pc, s, plan, t, plan2, l + 1);
}

/// A `JNZ` that finds a loop open: the jump back behind the `JZ`, and the
/// label that the `JZ` aims at placed behind it.
proof fn lemma_emit_close(
    ops: Seq<ByteCode>,
    tape: u64,
    pc: int,
    s: Assembly,
    stack: Seq<(int, int, int)>,
    plan: Seq<Option<int>>,
    t: Assembly,
    len: int,
)
    requires
        emit_inv(ops, tape, pc, s, stack, plan),
        0 <= pc < ops.len(),
        ops[pc] is JNZ,
        stack.len() > 0,
        len == s.code.len(),
        t.code == s.code + (jump_if_not_zero() + blank_field()),
        t.jumps == s.jumps.push((len + 11, stack.last().1)),
        t.labels == s.labels.update(stack.last().2, Some(len + 11)),
        t.failed == s.failed,
    ensures
        emit_inv(ops, tape, pc + 1, t, stack.drop_last(), plan),
{
    let after = pc + 1;
    let top = stack.last();
    let rest = stack.drop_last();
    assert(top == stack[stack.len() - 1]);
    assert(entry_kept(ops, s, plan, top));
    assert(kinds(ops)[pc] == Bracket::Closer);
    assert(loop_sites(stack).last() == top.0);
    lemma_pending_closer(kinds(ops), pc, loop_sites(stack));
    assert(loop_sites(rest) =~= loop_sites(stack).drop_last());
    assert(paired(kinds(ops), pc, top.0));
    assert(native_fault(ops, pc) is None);
    lemma_linked_jump(s.code, plan, s.jumps, jump_if_not_zero(), top.1);
    assert(plan[top.1]->0 - (len + 11) == jump_disp(ops, pc));
    assert(linked(t.code, plan, t.jumps) == native_prefix(ops, tape, after));
    assert(plan_kept(t, plan));
    assert forall|p: int| 0 <= p < rest.len() implies entry_kept(
        ops,
        t,
        plan,
        #[trigger] rest[p],
    ) by {
        assert(rest[p] == stack[p]);
        assert(entry_kept(ops, s, plan, stack[p]));
        assert(stack[p].2 < top.2);
    }
    assert forall|id: int| 0 <= id < t.labels.len() && (#[trigger] t.labels[id]) is None implies exists|
        p: int,
    |
        0 <= p < rest.len() && (#[trigger] rest[p]).2 == id by {
        assert(s.labels[id] is None);
        let p = choose|p: int| 0 <= p < stack.len() && (#[trigger] stack[p]).2 == id;
        assert(rest[p] == stack[p]);
    }
    assert forall|p: int, q: int| 0 <= p < q < rest.len() implies (#[trigger] rest[p]).2 < (
    #[trigger] rest[q]).2 by {
        assert(rest[p] == stack[p]);
        assert(rest[q] == stack[q]);
    }
    assert(stack_kept(ops, t, rest, plan));
    lemma_emit_fits(ops, pc, s, plan, t, plan, top.1);
}

/// A scan: a loop of its own, with both labels placed at once.
proof fn lemma_emit_scan(
    ops: Seq<ByteCode>,
    tape: u64,
    pc: int,
    s: Assembly,
    stack: Seq<(int, int, int)>,
    plan: Seq<Option<int>>,
    t: Assembly,
    plan2: Seq<Option<int>>,
    c: Change,
    len: int,
    l: int,
)
    requires
        emit_inv(ops, tape, pc, s, stack, plan),
        0 <= pc < ops.len(),
        ops[pc] == ByteCode::MoveInStepUntilZero(c),
        native_fault(ops, pc) is None,
        len == s.code.len(),
        l == s.labels.len(),
        t.code == (s.code + (jump_if_zero() + blank_field())) + (scan_back(c) + blank_field()),
        t.jumps == s.jumps.push((len + 11, l + 1)).push((len + 23, l)),
        t.labels == s.labels.push(None).push(None).update(l, Some(len)).update(
            l + 1,
            Some(len + 23),
        ),
        t.failed == s.failed,
        plan2 == plan.push(Some(len)).push(Some(len + 23)),
    ensures
        emit_inv(ops, tape, pc + 1, t, stack, plan2),
{
    let after = pc + 1;
    let mid = s.code + (jump_if_zero() + blank_field());
    let mid_jumps = s.jumps.push((len + 11, l + 1));
    assert(kinds(ops)[pc] == Bracket::Plain);
    lemma_pending_plain(kinds(ops), pc, loop_sites(stack));
    lemma_linked_jump(s.code, plan2, s.jumps, jump_if_zero(), l + 1);
    lemma_linked_labels(s.code, plan2, plan, s.jumps);
    assert(scan_back(c).len() == 8);
    lemma_linked_jump(mid, plan2, mid_jumps, scan_back(c), l);
    assert(linked(t.code, plan2, t.jumps) == (linked(s.code, plan, s.jumps) + (jump_if_zero()
        + le32(wrap32(12)))) + (scan_back(c) + le32(wrap32(-23))));
    assert(linked(t.code, plan2, t.jumps) =~= native_prefix(ops, tape, after));
    assert(plan_kept(t, plan2));
    assert(jumps_kept(t, plan2));
    assert forall|p: int| 0 <= p < stack.len() implies entry_kept(
        ops,
        t,
        plan2,
        #[trigger] stack[p],
    ) by {
        assert(entry_kept(ops, s, plan, stack[p]));
    }
    assert forall|id: int| 0 <= id < t.labels.len() && (#[trigger] t.labels[id]) is None implies exists|
        p: int,
    |
        0 <= p < stack.len() && (#[trigger] stack[p]).2 == id by {
        assert(s.labels[id] is None);
    }
    assert(stack_kept(ops, t, stack, plan2));
    lemma_links_grow(s, plan, t.code, plan2);
    if displacements_fit(ops) {
        assert forall|m: int| 0 <= m < t.jumps.len() implies jump_links(
            t.code,
            plan2,
            #[trigger] t.jumps[m],
        ) by {
            if m < s.jumps.len() {
                assert(jump_links(t.code, plan2, s.jumps[m]));
            }
        }
    }
    if all_link(t.code, plan2, t.jumps) {
        assert forall|m: int| 0 <= m < s.jumps.len() implies jump_links(
            t.code,
            plan2,
            #[trigger] s.jumps[m],
        ) by {
            assert(jump_links(t.code, plan2, t.jumps[m]));
        }
    }
    assert(fits_kept(ops, after, t, plan2));
}

/// The stack of open loops as plain values.
spec fn stack_view(stack: Seq<(usize, DynamicLabel, DynamicLabel)>) -> Seq<(int, int, int)> {
    stack.map_values(
        |e: (usize, DynamicLabel, DynamicLabel)| (e.0 as int, label_id(e.1), label_id(e.2)),
    )
}

/// The operand limit that `op` breaks, if it breaks one.
fn limit_check(op: ByteCode, pc: usize) -> (r: Option<JitError>)
    ensures
        r == limit_fault(op, pc),
{
    match op {
        ByteCode::DataIncr(n) => if n > 255 {
            Some(JitError::CellDeltaOverflow(pc))
        } else {
            None
        },
        ByteCode::DataDecr(n) => if n > 255 {
            Some(JitError::CellDeltaOverflow(pc))
        } else {
            None
        },
        ByteCode::DataPointerIncr(n) => if n > 0x7fff_ffff {
            Some(JitError::PointerDeltaOverflow(pc))
        } else {
            None
        },
        ByteCode::DataPointerDecr(n) => if n > 0x7fff_ffff {
            Some(JitError::PointerDeltaOverflow(pc))
        } else {
            None
        },
        ByteCode::MoveInStepUntilZero(Change::Incr(n)) => if n > 0x7fff_ffff {
            Some(JitError::PointerDeltaOverflow(pc))
        } else {
            None
        },
        ByteCode::MoveInStepUntilZero(Change::Decr(n)) => if n > 0x7fff_ffff {
            Some(JitError::PointerDeltaOverflow(pc))
        } else {
            None
        },
        _ => None,
    }
}

/// `add r13, n` or `sub r13, n`.
fn cursor_code(e: &mut CodeEmitter, up: bool, n: usize)
    requires
        n <= 0x7fff_ffff,
    ensures
        final(e)@ == old(e)@ + if up {
            add_cursor(n as u32)
        } else {
            sub_cursor(n as u32)
        },
{
    if up {
        e.emit_bytes(&[0x49, 0x81, 0xC5]);
    } else {
        e.emit_bytes(&[0x49, 0x81, 0xED]);
    }
    e.emit_uint32(n as u32);
    assert(e@ =~= old(e)@ + if up {
        add_cursor(n as u32)
    } else {
        sub_cursor(n as u32)
    });
}

/// The machine code of an opcode that neither jumps nor scans.
fn plain_code(op: ByteCode) -> (e: CodeEmitter)
    requires
        !(op is JZ),
        !(op is JNZ),
        !(op is MoveInStepUntilZero),
        limit_fault(op, 0) is None,
    ensures
        e@ == op_code(op, 0),
{
    let mut e = CodeEmitter::new();
    match op {
        ByteCode::DataPointerIncr(n) => {
            cursor_code(&mut e, true, n);
        },
        ByteCode::DataPointerDecr(n) => {
            cursor_code(&mut e, false, n);
        },
        ByteCode::DataIncr(n) => {
            e.emit_bytes(&[0x41, 0x80, 0x45, 0x00]);
            e.emit_byte(n as u8);
        },
        ByteCode::DataDecr(n) => {
            e.emit_bytes(&[0x41, 0x80, 0x6D, 0x00]);
            e.emit_byte(n as u8);
        },
        ByteCode::Write => {
            e.emit_bytes(
                &[
                    0x48, 0xC7, 0xC0, 0x01, 0x00, 0x00, 0x00,
                    0x48, 0xC7, 0xC7, 0x01, 0x00, 0x00, 0x00,
                    0x4C, 0x89, 0xEE,
                    0x48, 0xC7, 0xC2, 0x01, 0x00, 0x00, 0x00,
                    0x0F, 0x05,
                ],
            );
        },
        ByteCode::Read => {
            e.emit_bytes(
                &[
                    0x48, 0xC7, 0xC0, 0x00, 0x00, 0x00, 0x00,
                    0x48, 0xC7, 0xC7, 0x00, 0x00, 0x00, 0x00,
                    0x4C, 0x89, 0xEE,
                    0x48, 0xC7, 0xC2, 0x01, 0x00, 0x00, 0x00,
                    0x0F, 0x05,
                ],
            );
        },
        ByteCode::SETZERO => {
            e.emit_bytes(&[0x41, 0xC6, 0x45, 0x00, 0x00]);
        },
        _ => {},
    }
    assert(e@ =~= op_code(op, 0));
    e
}

/// The engine. It holds no state of its own.
pub struct BytecodeJit {}

impl BytecodeJit {
    /// Emits the machine code of a program that works on the tape at address
    /// `tape`: a function without parameters that runs the program and
    /// returns.
    ///
    /// Succeeds exactly on the programs in which every operand is within its
    /// limit, the brackets are balanced and every jump fits a 32-bit
    /// displacement. Otherwise the error is that of the first opcode at fault;
    /// where none is, `UnbalancedBrackets` with the first `JZ` that is never
    /// closed; else `DisplacementOverflow`.
    pub fn compile(prog: &ByteCodeProgram, tape: u64) -> (r: Result<Vec<u8>, JitError>)
        ensures
            match r {
                Ok(code) => emittable(prog.instructions@) && code@ == native_code(
                    prog.instructions@,
                    tape,
                ),
                Err(e) => emit_error(prog.instructions@, e),
            },
    {
        let n: usize = prog.instructions.len();
        let ghost ops = prog.instructions@;
        let mut unit = asm_new();
        let mut stack: Vec<(usize, DynamicLabel, DynamicLabel)> = Vec::new();
        let ghost mut plan: Seq<Option<int>> = Seq::empty();
        let mut head = CodeEmitter::new();
        head.emit_bytes(&[0x49, 0xBD]);
        head.emit_uint64(tape);
        asm_emit(&mut unit, head.code());
        proof {
            crate::brackets::lemma_pending_start(kinds(ops));
            assert(loop_sites(stack_view(stack@)) =~= Seq::<int>::empty());
            assert(asm_code(unit) =~= load_tape(tape));
        }
        let mut pc: usize = 0;
        while pc < n
            invariant
                n == prog.instructions.len(),
                ops == prog.instructions@,
                pc <= n,
                emit_inv(ops, tape, pc as int, assembly(unit), stack_view(stack@), plan),
            decreases n - pc,
        {
            let op = prog.instructions[pc];
            let ghost s = assembly(unit);
            let ghost sv = stack_view(stack@);
            let ghost len = s.code.len() as int;
            let ghost l = s.labels.len() as int;
            match limit_check(op, pc) {
                Some(e) => {
                    assert(native_fault(ops, pc as int) == Some(e));
                    return Err(e);
                },
                None => {},
            }
            match op {
                ByteCode::JZ => {
                    let open = asm_new_label(&mut unit);
                    let close = asm_new_label(&mut unit);
                    let mut e = CodeEmitter::new();
                    e.emit_bytes(
                        &[0x41, 0x80, 0x7D, 0x00, 0x00, 0x0F, 0x84, 0x00, 0x00, 0x00, 0x00],
                    );
                    asm_emit(&mut unit, e.code());
                    asm_jump_to(&mut unit, close);
                    asm_place_label(&mut unit, open);
                    stack.push((pc, open, close));
                    proof {
                        let plan2 = plan.push(Some(code_start(ops, pc + 1))).push(
                            Some(code_start(ops, partner(kinds(ops), pc as int) + 1)),
                        );
                        assert(e@ =~= jump_if_zero() + blank_field());
                        assert(stack_view(stack@) =~= sv.push((pc as int, l, l + 1)));
                        lemma_emit_open(
                            ops,
                            tape,
                            pc as int,
                            s,
                            sv,
                            plan,
                            assembly(unit),
                            stack_view(stack@),
                            plan2,
                            len,
                            l,
                        );
                        plan = plan2;
                    }
                },
                ByteCode::JNZ => {
                    match stack.pop() {
                        None => {
                            proof {
                                assert(kinds(ops)[pc as int] == Bracket::Closer);
                                crate::brackets::lemma_pending_stray(
                                    kinds(ops),
                                    pc as int,
                                    loop_sites(sv),
                                );
                                assert(native_fault(ops, pc as int) == Some(
                                    JitError::UnbalancedBrackets(pc),
                                ));
                            }
                            return Err(JitError::UnbalancedBrackets(pc));
                        },
                        Some((_, open, close)) => {
                            let mut e = CodeEmitter::new();
                            e.emit_bytes(
                                &[0x41, 0x80, 0x7D, 0x00, 0x00, 0x0F, 0x85, 0x00, 0x00, 0x00, 0x00],
                            );
                            asm_emit(&mut unit, e.code());
                            asm_jump_to(&mut unit, open);
                            proof {
                                assert(sv.last() == sv[sv.len() - 1]);
                                assert(entry_kept(ops, s, plan, sv.last()));
                            }
                            asm_place_label(&mut unit, close);
                            proof {
                                assert(e@ =~= jump_if_not_zero() + blank_field());
                                assert(stack_view(stack@) =~= sv.drop_last());
                                lemma_emit_close(
                                    ops,
                                    tape,
                                    pc as int,
                                    s,
                                    sv,
                                    plan,
                                    assembly(unit),
                                    len,
                                );
                            }
                        },
                    }
                },
                ByteCode::MoveInStepUntilZero(c) => {
                    let start = asm_new_label(&mut unit);
                    let end = asm_new_label(&mut unit);
                    asm_place_label(&mut unit, start);
                    let mut e = CodeEmitter::new();
                    e.emit_bytes(
                        &[0x41, 0x80, 0x7D, 0x00, 0x00, 0x0F, 0x84, 0x00, 0x00, 0x00, 0x00],
                    );
                    asm_emit(&mut unit, e.code());
                    asm_jump_to(&mut unit, end);
                    let mut back = CodeEmitter::new();
                    match c {
                        Change::Incr(x) => cursor_code(&mut back, true, x),
                        Change::Decr(x) => cursor_code(&mut back, false, x),
                    }
                    back.emit_bytes(&[0xE9, 0x00, 0x00, 0x00, 0x00]);
                    asm_emit(&mut unit, back.code());
                    asm_jump_to(&mut unit, start);
                    asm_place_label(&mut unit, end);
                    proof {
                        let plan2 = plan.push(Some(len)).push(Some(len + 23));
                        assert(e@ =~= jump_if_zero() + blank_field());
                        assert(back@ =~= scan_back(c) + blank_field());
                        lemma_emit_scan(
                            ops,
                            tape,
                            pc as int,
                            s,
                            sv,
                            plan,
                            assembly(unit),
                            plan2,
                            c,
                            len,
                            l,
                        );
                        plan = plan2;
                    }
                },
                _ => {
                    let e = plain_code(op);
                    asm_emit(&mut unit, e.code());
                    proof {
                        lemma_emit_plain(ops, tape, pc as int, s, sv, plan, assembly(unit));
                    }
                },
            }
            pc += 1;
        }
        let ghost s = assembly(unit);
        if stack.len() > 0 {
            let open_pc: usize = stack[0].0;
            proof {
                crate::brackets::lemma_pending_leftover(
                    kinds(ops),
                    loop_sites(stack_view(stack@)),
                );
                assert(loop_sites(stack_view(stack@))[0] == open_pc);
            }
            return Err(JitError::UnbalancedBrackets(open_pc));
        }
        let mut tail = CodeEmitter::new();
        tail.emit_byte(0xC3);
        asm_emit(&mut unit, tail.code());
        proof {
            crate::brackets::lemma_pending_done(kinds(ops), loop_sites(stack_view(stack@)));
            assert(tail@ =~= ret());
            assert(asm_labels(unit) =~= plan);
            lemma_links_grow(s, plan, asm_code(unit), plan);
        }
        match asm_finalize(unit) {
            Ok(code) => Ok(code),
            Err(_) => Err(JitError::DisplacementOverflow),
        }
    }
}

} // verus!
