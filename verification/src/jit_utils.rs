//! Tools of the native emitters: a growing code buffer with little-endian
//! writers and in-place patching, and the displacement of a relative jump.

use vstd::prelude::*;

verus! {

/// The four bytes of `v`, least significant first.
pub open spec fn le32(v: u32) -> Seq<u8> {
    seq![
        (v & 0xff) as u8,
        ((v >> 8) & 0xff) as u8,
        ((v >> 16) & 0xff) as u8,
        ((v >> 24) & 0xff) as u8,
    ]
}

/// The eight bytes of `v`, least significant first.
pub open spec fn le64(v: u64) -> Seq<u8> {
    le32((v & 0xffffffff) as u32) + le32(((v >> 32) & 0xffffffff) as u32)
}

/// `code` with the four bytes from `offset` on replaced by those of `v`.
pub open spec fn patch32(code: Seq<u8>, offset: int, v: u32) -> Seq<u8> {
    code.subrange(0, offset) + le32(v) + code.subrange(offset + 4, code.len() as int)
}

/// The displacement `d` has a two's-complement form in 32 bits.
pub open spec fn fits_rel32(d: int) -> bool {
    -0x8000_0000 <= d <= 0x7fff_ffff
}

/// The two's-complement form of the displacement `d` in 32 bits.
pub open spec fn wrap32(d: int) -> u32 {
    if d >= 0 {
        d as u32
    } else {
        (d + 0x1_0000_0000) as u32
    }
}

/// Patching keeps the length.
pub proof fn lemma_patch32_len(code: Seq<u8>, offset: int, v: u32)
    requires
        0 <= offset,
        offset + 4 <= code.len(),
    ensures
        patch32(code, offset, v).len() == code.len(),
{
}

/// Patching the last four bytes replaces them.
pub proof fn lemma_patch32_tail(code: Seq<u8>, field: Seq<u8>, v: u32)
    requires
        field.len() == 4,
    ensures
        patch32(code + field, code.len() as int, v) == code + le32(v),
{
    assert(patch32(code + field, code.len() as int, v) =~= code + le32(v));
}

/// Patching inside a buffer commutes with appending to it.
pub proof fn lemma_patch32_append(code: Seq<u8>, more: Seq<u8>, offset: int, v: u32)
    requires
        0 <= offset,
        offset + 4 <= code.len(),
    ensures
        patch32(code + more, offset, v) == patch32(code, offset, v) + more,
{
    assert(patch32(code + more, offset, v) =~= patch32(code, offset, v) + more);
}

/// A buffer of machine code under construction.
pub struct CodeEmitter {
    _code: Vec<u8>,
}

impl View for CodeEmitter {
    type V = Seq<u8>;

    closed spec fn view(&self) -> Seq<u8> {
        self._code@
    }
}

impl CodeEmitter {
    /// An empty buffer.
    pub fn new() -> (e: Self)
        ensures
            e@ == Seq::<u8>::empty(),
    {
        CodeEmitter { _code: Vec::new() }
    }

    /// Appends one byte.
    pub fn emit_byte(&mut self, v: u8)
        ensures
            final(self)@ == old(self)@.push(v),
    {
        self._code.push(v);
    }

    /// Appends the given bytes in order.
    pub fn emit_bytes(&mut self, bytes: &[u8])
        ensures
            final(self)@ == old(self)@ + bytes@,
    {
        let n: usize = bytes.len();
        let mut i: usize = 0;
        while i < n
            invariant
                n == bytes@.len(),
                i <= n,
                self._code@ == old(self)._code@ + bytes@.subrange(0, i as int),
            decreases n - i,
        {
            self._code.push(bytes[i]);
            i += 1;
            assert(self._code@ =~= old(self)._code@ + bytes@.subrange(0, i as int));
        }
        assert(bytes@.subrange(0, n as int) =~= bytes@);
    }

    /// Appends `v` in little-endian order.
    pub fn emit_uint32(&mut self, v: u32)
        ensures
            final(self)@ == old(self)@ + le32(v),
    {
        self.emit_byte((v & 0xff) as u8);
        self.emit_byte(((v >> 8) & 0xff) as u8);
        self.emit_byte(((v >> 16) & 0xff) as u8);
        self.emit_byte(((v >> 24) & 0xff) as u8);
        assert(self@ =~= old(self)@ + le32(v));
    }

    /// Appends `v` in little-endian order.
    pub fn emit_uint64(&mut self, v: u64)
        ensures
            final(self)@ == old(self)@ + le64(v),
    {
        self.emit_uint32((v & 0xffffffff) as u32);
        self.emit_uint32(((v >> 32) & 0xffffffff) as u32);
        assert(self@ =~= old(self)@ + le64(v));
    }

    /// Overwrites the byte at `offset`.
    pub fn replace_byte_at_offset(&mut self, offset: usize, v: u8)
        requires
            offset < old(self)@.len(),
        ensures
            final(self)@ == old(self)@.update(offset as int, v),
    {
        self._code.set(offset, v);
    }

    /// Overwrites the four bytes from `offset` on with `v` in little-endian
    /// order.
    pub fn replace_uint32_at_offset(&mut self, offset: usize, v: u32)
        requires
            offset + 4 <= old(self)@.len(),
        ensures
            final(self)@ == patch32(old(self)@, offset as int, v),
    {
        let len: usize = self._code.len();
        assert(offset + 4 <= len);
        self.replace_byte_at_offset(offset, (v & 0xff) as u8);
        self.replace_byte_at_offset(offset + 1, ((v >> 8) & 0xff) as u8);
        self.replace_byte_at_offset(offset + 2, ((v >> 16) & 0xff) as u8);
        self.replace_byte_at_offset(offset + 3, ((v >> 24) & 0xff) as u8);
        assert(self@ =~= patch32(old(self)@, offset as int, v));
    }

    /// Number of bytes emitted so far.
    pub fn size(&self) -> (n: usize)
        ensures
            n == self@.len(),
    {
        self._code.len()
    }

    /// The bytes emitted so far.
    pub fn code(&self) -> (c: &Vec<u8>)
        ensures
            c@ == self@,
    {
        &self._code
    }
}

/// Whether a jump whose instruction ends at `jump_from` reaches `jump_to` with
/// a 32-bit displacement.
pub fn relative_32bit_offset_fits(jump_from: usize, jump_to: usize) -> (b: bool)
    ensures
        b == fits_rel32(jump_to - jump_from),
{
    if jump_to >= jump_from {
        jump_to - jump_from <= 0x7fff_ffff
    } else {
        jump_from - jump_to <= 0x8000_0000
    }
}

/// The displacement field of a 32-bit relative jump whose instruction ends at
/// byte offset `jump_from` and whose target is byte offset `jump_to`.
pub fn compute_relative_32bit_offset(jump_from: usize, jump_to: usize) -> (r: u32)
    requires
        fits_rel32(jump_to - jump_from),
    ensures
        r == wrap32(jump_to - jump_from),
{
    if jump_to >= jump_from {
        let diff: usize = jump_to - jump_from;
        diff as u32
    } else {
        let diff: usize = jump_from - jump_to;
        let low: u32 = diff as u32;
        assert(!low == 0xffff_ffffu32 - low) by (bit_vector);
        !low + 1
    }
}

} // verus!
