//! Fatal conditions that the front end and the code generators report.

use vstd::prelude::*;

verus! {

/// Why a program was refused or an execution stopped abnormally.
#[derive(Clone, Copy, Debug, PartialEq, Eq, Structural)]
pub enum JitError {
    /// A bracket without a partner; carries the index of the first such bracket.
    UnbalancedBrackets(usize),
    /// A cell delta above 255 reached a code generator; carries the index of the opcode.
    CellDeltaOverflow(usize),
    /// A cursor delta that no 32-bit immediate can hold reached the native emitter;
    /// carries the index of the opcode.
    PointerDeltaOverflow(usize),
    /// A jump displacement does not fit in a signed 32-bit field.
    DisplacementOverflow,
}

} // verus!
