//! The x86-64 targets: the register-offset (SIB) memory encoders the
//! instruction selector fuses addressing into, and the static ELF executable
//! the Linux target wraps its code in.
use crate::arm64::{le16, le32, le64, put_u16, put_u32, put_u64};
use crate::codegen::Codegen;
use vstd::prelude::*;

verus! {

/// Compiles a program to a freestanding static ELF for `x86_64-unknown-linux`.
pub struct X64Linux {
    pub out_path: String,
}

impl X64Linux {
    pub fn new(out_path: String) -> (r: X64Linux)
        ensures
            r.out_path@ == out_path@,
    {
        X64Linux { out_path }
    }
}

impl Codegen for X64Linux {
    fn name(&self) -> (r: &'static str)
        ensures
            r@ == "x86_64-unknown-linux"@,
    {
        "x86_64-unknown-linux"
    }
}

/// Compiles a program to a PE executable for `x86_64-pc-windows` (not yet
/// implemented: its backend reports an error).
pub struct X64Windows {
    pub out_path: String,
}

impl X64Windows {
    pub fn new(out_path: String) -> (r: X64Windows)
        ensures
            r.out_path@ == out_path@,
    {
        X64Windows { out_path }
    }
}

impl Codegen for X64Windows {
    fn name(&self) -> (r: &'static str)
        ensures
            r@ == "x86_64-pc-windows"@,
    {
        "x86_64-pc-windows"
    }
}

/// An x86-64 instruction stream.
pub struct Asm {
    pub code: Vec<u8>,
}

/// The SIB byte for `[rcx + rsi * 2^scale_log2]`.
pub open spec fn sib_rcx_rsi(scale_log2: u32) -> u8 {
    ((scale_log2 << 6u32) | (6u32 << 3u32) | 1u32) as u8
}

/// `rax` (or `eax`) loaded from `[rcx + rsi * 2^s]`, `size` bytes wide, sign-
/// or zero-extended: MOV, MOVSXD, MOVZX/MOVSX; a 4-byte zero-extending load
/// writes `eax`, which clears the upper half.
pub open spec fn load_sib_bytes(size: u32, signed: bool, s: u32) -> Seq<u8> {
    let b = sib_rcx_rsi(s);
    if size == 8 {
        seq![0x48u8, 0x8B, 0x04, b]
    } else if size == 4 {
        if signed {
            seq![0x48u8, 0x63, 0x04, b]
        } else {
            seq![0x8Bu8, 0x04, b]
        }
    } else if size == 2 {
        seq![0x48u8, 0x0F, if signed { 0xBFu8 } else { 0xB7u8 }, 0x04, b]
    } else {
        seq![0x48u8, 0x0F, if signed { 0xBEu8 } else { 0xB6u8 }, 0x04, b]
    }
}

/// `[rcx + rsi * 2^s]` stored from `rax`, `eax`, `ax` or `al`.
pub open spec fn store_sib_bytes(size: u32, s: u32) -> Seq<u8> {
    let b = sib_rcx_rsi(s);
    if size == 8 {
        seq![0x48u8, 0x89, 0x04, b]
    } else if size == 4 {
        seq![0x89u8, 0x04, b]
    } else if size == 2 {
        seq![0x66u8, 0x89, 0x04, b]
    } else {
        seq![0x88u8, 0x04, b]
    }
}

impl Asm {
    pub fn new() -> (r: Asm)
        ensures
            r.code@.len() == 0,
    {
        Asm { code: Vec::new() }
    }

    /// Appends raw bytes.
    pub fn emit(&mut self, bytes: &[u8])
        ensures
            final(self).code@ == old(self).code@ + bytes@,
    {
        let mut i: usize = 0;
        while i < bytes.len()
            invariant
                i <= bytes.len(),
                self.code@ == old(self).code@ + bytes@.take(i as int),
            decreases bytes.len() - i,
        {
            self.code.push(bytes[i]);
            proof {
                assert(bytes@.take(i as int + 1) =~= bytes@.take(i as int).push(bytes@[i as int]));
                assert(self.code@ =~= old(self).code@ + bytes@.take(i as int + 1));
            }
            i += 1;
        }
        proof {
            assert(bytes@.take(bytes.len() as int) =~= bytes@);
        }
    }

    fn sib(scale_log2: u32) -> (b: u8)
        requires
            scale_log2 < 4,
        ensures
            b == sib_rcx_rsi(scale_log2),
    {
        assert(((scale_log2 << 6u32) | (6u32 << 3u32) | 1u32) < 256) by (bit_vector)
            requires
                scale_log2 < 4,
        ;
        ((scale_log2 << 6) | (6 << 3) | 1) as u8
    }

    /// `rax = [rcx + rsi * 2^scale_log2]`, `size` (1, 2, 4 or 8) bytes wide.
    pub fn load_sib(&mut self, size: u32, signed: bool, scale_log2: u32)
        requires
            size == 1 || size == 2 || size == 4 || size == 8,
            scale_log2 < 4,
        ensures
            final(self).code@ == old(self).code@ + load_sib_bytes(size, signed, scale_log2),
    {
        let b = Self::sib(scale_log2);
        if size == 8 {
            self.emit(&[0x48, 0x8B, 0x04, b]);
        } else if size == 4 {
            if signed {
                self.emit(&[0x48, 0x63, 0x04, b]);
            } else {
                self.emit(&[0x8B, 0x04, b]);
            }
        } else if size == 2 {
            let op: u8 = if signed {
                0xBF
            } else {
                0xB7
            };
            self.emit(&[0x48, 0x0F, op, 0x04, b]);
        } else {
            let op: u8 = if signed {
                0xBE
            } else {
                0xB6
            };
            self.emit(&[0x48, 0x0F, op, 0x04, b]);
        }
        proof {
            assert(self.code@ =~= old(self).code@ + load_sib_bytes(size, signed, scale_log2));
        }
    }

    /// `[rcx + rsi * 2^scale_log2] = rax`, `size` (1, 2, 4 or 8) bytes wide.
    pub fn store_sib(&mut self, size: u32, scale_log2: u32)
        requires
            size == 1 || size == 2 || size == 4 || size == 8,
            scale_log2 < 4,
        ensures
            final(self).code@ == old(self).code@ + store_sib_bytes(size, scale_log2),
    {
        let b = Self::sib(scale_log2);
        if size == 8 {
            self.emit(&[0x48, 0x89, 0x04, b]);
        } else if size == 4 {
            self.emit(&[0x89, 0x04, b]);
        } else if size == 2 {
            self.emit(&[0x66, 0x89, 0x04, b]);
        } else {
            self.emit(&[0x88, 0x04, b]);
        }
        proof {
            assert(self.code@ =~= old(self).code@ + store_sib_bytes(size, scale_log2));
        }
    }

    /// `movsd xmm0, [rcx + rsi * 2^scale_log2]`.
    pub fn movsd_load_sib(&mut self, scale_log2: u32)
        requires
            scale_log2 < 4,
        ensures
            final(self).code@ == old(self).code@ + seq![0xF2u8, 0x0F, 0x10, 0x04, sib_rcx_rsi(scale_log2)],
    {
        let b = Self::sib(scale_log2);
        self.emit(&[0xF2, 0x0F, 0x10, 0x04, b]);
        proof {
            assert(self.code@ =~= old(self).code@ + seq![0xF2u8, 0x0F, 0x10, 0x04, sib_rcx_rsi(scale_log2)]);
        }
    }

    /// `movsd [rcx + rsi * 2^scale_log2], xmm0`.
    pub fn movsd_store_sib(&mut self, scale_log2: u32)
        requires
            scale_log2 < 4,
        ensures
            final(self).code@ == old(self).code@ + seq![0xF2u8, 0x0F, 0x11, 0x04, sib_rcx_rsi(scale_log2)],
    {
        let b = Self::sib(scale_log2);
        self.emit(&[0xF2, 0x0F, 0x11, 0x04, b]);
        proof {
            assert(self.code@ =~= old(self).code@ + seq![0xF2u8, 0x0F, 0x11, 0x04, sib_rcx_rsi(scale_log2)]);
        }
    }
}

// ---- the ELF executable ----

/// Where the image is loaded.
pub const VADDR: u64 = 0x40_0000;
/// The ELF header's size.
pub const EHSIZE: u64 = 64;
/// One program header's size.
pub const PHENTSIZE: u64 = 56;

/// The ELF64 header of a static x86-64 executable with one program header,
/// entered at `entry`.
pub open spec fn elf_header(entry: u64) -> Seq<u8> {
    seq![0x7Fu8, 0x45, 0x4C, 0x46, 2, 1, 1, 0] + seq![0u8, 0, 0, 0, 0, 0, 0, 0] + le16(2) + le16(0x3E) + le32(1)
        + le64(entry) + le64(EHSIZE) + le64(0) + le32(0) + le16(EHSIZE as u16) + le16(PHENTSIZE as u16) + le16(1)
        + le16(0) + le16(0) + le16(0)
}

/// The one PT_LOAD program header: read/write/execute, the whole file at
/// `VADDR`, with `memsz - filesz` zero bytes (the BSS) after it.
pub open spec fn elf_phdr(filesz: u64, memsz: u64) -> Seq<u8> {
    le32(1) + le32(7) + le64(0) + le64(VADDR) + le64(VADDR) + le64(filesz) + le64(memsz) + le64(0x1000)
}

/// A minimal static ELF64 executable: the header, one PT_LOAD covering the
/// whole file plus `bss` zero-filled bytes, then `code`, entered at its first byte.
pub fn write_elf(code: &[u8], bss: u64) -> (out: Vec<u8>)
    requires
        EHSIZE + PHENTSIZE + code.len() + bss <= u64::MAX,
    ensures
        out@ == elf_header((VADDR + EHSIZE + PHENTSIZE) as u64) + elf_phdr(
            (EHSIZE + PHENTSIZE + code.len()) as u64,
            (EHSIZE + PHENTSIZE + code.len() + bss) as u64,
        ) + code@,
{
    let entry = VADDR + EHSIZE + PHENTSIZE;
    let filesz = EHSIZE + PHENTSIZE + code.len() as u64;
    let memsz = filesz + bss;
    let mut out: Vec<u8> = Vec::new();
    let mut a = Asm { code: out };
    a.emit(&[0x7F, 0x45, 0x4C, 0x46, 2, 1, 1, 0]);
    a.emit(&[0, 0, 0, 0, 0, 0, 0, 0]);
    let mut out = a.code;
    put_u16(&mut out, 2);
    put_u16(&mut out, 0x3E);
    put_u32(&mut out, 1);
    put_u64(&mut out, entry);
    put_u64(&mut out, EHSIZE);
    put_u64(&mut out, 0);
    put_u32(&mut out, 0);
    put_u16(&mut out, EHSIZE as u16);
    put_u16(&mut out, PHENTSIZE as u16);
    put_u16(&mut out, 1);
    put_u16(&mut out, 0);
    put_u16(&mut out, 0);
    put_u16(&mut out, 0);
    let ghost header = out@;
    proof {
        assert(header =~= elf_header(entry));
    }
    put_u32(&mut out, 1);
    put_u32(&mut out, 7);
    put_u64(&mut out, 0);
    put_u64(&mut out, VADDR);
    put_u64(&mut out, VADDR);
    put_u64(&mut out, filesz);
    put_u64(&mut out, memsz);
    put_u64(&mut out, 0x1000);
    proof {
        assert(out@ =~= header + elf_phdr(filesz, memsz));
    }
    let mut a = Asm { code: out };
    a.emit(code);
    a.code
}

} // verus!
