//! The x86-64 encodings that the native emitters share. The register that
//! holds the address of the current cell is `r13`.

use vstd::prelude::*;
use crate::jit_utils::le64;

verus! {

/// `movabs r13, tape`: loads the address of the tape.
pub open spec fn load_tape(tape: u64) -> Seq<u8> {
    seq![0x49u8, 0xBDu8] + le64(tape)
}

/// `cmp byte [r13], 0`.
pub open spec fn test_cell() -> Seq<u8> {
    seq![0x41u8, 0x80u8, 0x7Du8, 0x00u8, 0x00u8]
}

/// `cmp byte [r13], 0` and the two opcode bytes of `jz rel32`.
pub open spec fn jump_if_zero() -> Seq<u8> {
    test_cell() + seq![0x0Fu8, 0x84u8]
}

/// `cmp byte [r13], 0` and the two opcode bytes of `jnz rel32`.
pub open spec fn jump_if_not_zero() -> Seq<u8> {
    test_cell() + seq![0x0Fu8, 0x85u8]
}

/// A displacement field that is still to be filled in.
pub open spec fn blank_field() -> Seq<u8> {
    seq![0x00u8, 0x00u8, 0x00u8, 0x00u8]
}

/// `add byte [r13], n`.
pub open spec fn add_cell(n: u8) -> Seq<u8> {
    seq![0x41u8, 0x80u8, 0x45u8, 0x00u8, n]
}

/// `sub byte [r13], n`.
pub open spec fn sub_cell(n: u8) -> Seq<u8> {
    seq![0x41u8, 0x80u8, 0x6Du8, 0x00u8, n]
}

/// `mov byte [r13], 0`.
pub open spec fn zero_cell() -> Seq<u8> {
    seq![0x41u8, 0xC6u8, 0x45u8, 0x00u8, 0x00u8]
}

/// A system call on the current cell, one byte long: `mov rax, nr; mov rdi,
/// fd; mov rsi, r13; mov rdx, 1; syscall`.
pub open spec fn syscall_on_cell(nr: u8, fd: u8) -> Seq<u8> {
    seq![
        0x48u8, 0xC7u8, 0xC0u8, nr, 0x00u8, 0x00u8, 0x00u8,
        0x48u8, 0xC7u8, 0xC7u8, fd, 0x00u8, 0x00u8, 0x00u8,
        0x4Cu8, 0x89u8, 0xEEu8,
        0x48u8, 0xC7u8, 0xC2u8, 0x01u8, 0x00u8, 0x00u8, 0x00u8,
        0x0Fu8, 0x05u8,
    ]
}

/// `write(1, r13, 1)`.
pub open spec fn write_cell() -> Seq<u8> {
    syscall_on_cell(1, 1)
}

/// `read(0, r13, 1)`.
pub open spec fn read_cell() -> Seq<u8> {
    syscall_on_cell(0, 0)
}

/// `ret`.
pub open spec fn ret() -> Seq<u8> {
    seq![0xC3u8]
}

} // verus!
