//! The AArch64 instruction encoder with label back-patching, and the Mach-O
//! relocatable-object writer the Darwin backend wraps its code in.
use crate::codegen::{Codegen, CodegenError};
use crate::text::{owned, str_eq};
use vstd::prelude::*;
use vstd::string::StringSliceAdditionalSpecFns;

verus! {

/// The frame pointer, x29.
pub const FP: u32 = 29;
/// The link register, x30.
pub const LR: u32 = 30;
/// The stack pointer, register 31 in address positions.
pub const SP: u32 = 31;
/// The zero register, register 31 in data positions.
pub const XZR: u32 = 31;

/// The backend for Apple-silicon macOS: it writes a Mach-O object and links it.
pub struct Arm64 {
    pub out_path: String,
}

impl Arm64 {
    pub fn new(out_path: String) -> (r: Arm64)
        ensures
            r.out_path@ == out_path@,
    {
        Arm64 { out_path }
    }
}

/// The `aarch64-apple-darwin` backend: a Mach-O relocatable object linked with
/// the system `cc`.
pub struct Arm64Darwin {
    pub out_path: String,
}

impl Arm64Darwin {
    pub fn new(out_path: String) -> (r: Arm64Darwin)
        ensures
            r.out_path@ == out_path@,
    {
        Arm64Darwin { out_path }
    }
}

impl Codegen for Arm64Darwin {
    fn name(&self) -> (r: &'static str)
        ensures
            r@ == "aarch64-apple-darwin"@,
    {
        "aarch64-apple-darwin"
    }
}

/// How a branch or address word is completed once its label is placed.
#[derive(Clone, Copy, Debug, PartialEq, Eq, Structural)]
pub enum Fixup {
    /// A 26-bit word offset (B, BL).
    B26,
    /// A 19-bit word offset in bits 5..24 (B.cond, CBZ, CBNZ).
    B19,
    /// ADR of an in-text label: a 21-bit byte offset split into immlo/immhi.
    Adr,
    /// A jump-table data word: the byte distance from the table's base label.
    TableRel(usize),
}

/// The symbol a relocation refers to: an undefined external (a libc function)
/// or an already-final symbol index (a global).
#[derive(Clone, Copy, Debug)]
pub enum SymRef {
    Extern(&'static str),
    Sym(u32),
}

/// The Mach-O relocation a word needs.
#[derive(Clone, Copy, Debug, PartialEq, Eq, Structural)]
pub enum RelKind {
    Branch26,
    Page21,
    PageOff12,
}

/// Finished machine code: the `__text` bytes (code, then the string pool) and
/// the `(byte offset, symbol, kind)` relocations the linker resolves.
pub struct CodeImage {
    pub text: Vec<u8>,
    pub relocs: Vec<(u32, SymRef, RelKind)>,
}

/// An instruction stream under construction. Labels name word positions;
/// `fixups` are words to complete from a label's position, `adr_fixups` ADRs of
/// a pooled string, `relocs` words the linker completes.
pub struct Asm {
    pub words: Vec<u32>,
    pub label_pos: Vec<Option<usize>>,
    pub fixups: Vec<(usize, usize, Fixup)>,
    pub strings: Vec<Vec<u8>>,
    pub adr_fixups: Vec<(usize, usize)>,
    pub relocs: Vec<(usize, SymRef, RelKind)>,
}

/// `new` is `old` with one more word `w` and nothing else changed.
pub open spec fn pushed(old: Asm, new: Asm, w: u32) -> bool {
    &&& new.words@ == old.words@.push(w)
    &&& new.label_pos@ == old.label_pos@
    &&& new.fixups@ == old.fixups@
    &&& new.strings@ == old.strings@
    &&& new.adr_fixups@ == old.adr_fixups@
    &&& new.relocs@ == old.relocs@
}

/// `new` is `old` with the words `ws` appended and nothing else changed.
pub open spec fn appended(old: Asm, new: Asm, ws: Seq<u32>) -> bool {
    &&& new.words@ == old.words@ + ws
    &&& new.label_pos@ == old.label_pos@
    &&& new.fixups@ == old.fixups@
    &&& new.strings@ == old.strings@
    &&& new.adr_fixups@ == old.adr_fixups@
    &&& new.relocs@ == old.relocs@
}

/// Three-register data-processing form: `Rm` in bits 16.., `Rn` in 5.., `Rd` in 0...
pub open spec fn enc_rrr(base: u32, rd: u32, rn: u32, rm: u32) -> u32 {
    base | (rm << 16u32) | (rn << 5u32) | rd
}

/// Four-register form (multiply-add): `Ra` in bits 10...
pub open spec fn enc_rrrr(base: u32, rd: u32, rn: u32, rm: u32, ra: u32) -> u32 {
    base | (rm << 16u32) | (ra << 10u32) | (rn << 5u32) | rd
}

/// Two-register form: `Rn` in bits 5.., `Rd` in 0...
pub open spec fn enc_rr(base: u32, rd: u32, rn: u32) -> u32 {
    base | (rn << 5u32) | rd
}

/// A 12-bit unsigned immediate in bits 10.. (ADD/SUB immediate, LDR/STR offsets).
pub open spec fn enc_imm12(base: u32, rd: u32, rn: u32, imm: u32) -> u32 {
    base | ((imm & 0xFFFu32) << 10u32) | (rn << 5u32) | rd
}

/// Bitfield move: `immr` in bits 16.., `imms` in 10...
pub open spec fn enc_bitfield(base: u32, rd: u32, rn: u32, immr: u32, imms: u32) -> u32 {
    base | (immr << 16u32) | (imms << 10u32) | (rn << 5u32) | rd
}

/// The load opcode for an access of `size` bytes (8 bytes for any other size).
pub open spec fn load_opcode(size: u32, signed: bool) -> u32 {
    if size == 8 {
        0xF940_0000
    } else if size == 4 {
        if signed { 0xB980_0000 } else { 0xB940_0000 }
    } else if size == 2 {
        if signed { 0x7980_0000 } else { 0x7940_0000 }
    } else if size == 1 {
        if signed { 0x3980_0000 } else { 0x3940_0000 }
    } else {
        0xF940_0000
    }
}

/// The store opcode for an access of `size` bytes (8 bytes for any other size).
pub open spec fn store_opcode(size: u32) -> u32 {
    if size == 4 {
        0xB900_0000
    } else if size == 2 {
        0x7900_0000
    } else if size == 1 {
        0x3900_0000
    } else {
        0xF900_0000
    }
}

/// One word `w` and one fixup `f` added.
pub open spec fn pushed_fixup(old: Asm, new: Asm, w: u32, f: (usize, usize, Fixup)) -> bool {
    &&& new.words@ == old.words@.push(w)
    &&& new.fixups@ == old.fixups@.push(f)
    &&& new.label_pos@ == old.label_pos@
    &&& new.strings@ == old.strings@
    &&& new.adr_fixups@ == old.adr_fixups@
    &&& new.relocs@ == old.relocs@
}

/// One word `w` and one relocation `r` added.
pub open spec fn pushed_reloc(old: Asm, new: Asm, w: u32, r: (usize, SymRef, RelKind)) -> bool {
    &&& new.words@ == old.words@.push(w)
    &&& new.relocs@ == old.relocs@.push(r)
    &&& new.label_pos@ == old.label_pos@
    &&& new.fixups@ == old.fixups@
    &&& new.strings@ == old.strings@
    &&& new.adr_fixups@ == old.adr_fixups@
}

/// A `bl` to the external symbol `name`, with its BRANCH26 relocation, added.
pub open spec fn pushed_extern_call(old: Asm, new: Asm, name: Seq<char>) -> bool {
    &&& new.words@ == old.words@.push(0x9400_0000)
    &&& new.relocs@.len() == old.relocs@.len() + 1
    &&& new.relocs@.drop_last() == old.relocs@
    &&& new.relocs@.last().0 == old.words.len()
    &&& new.relocs@.last().1 matches SymRef::Extern(s) && s@ == name
    &&& new.relocs@.last().2 == RelKind::Branch26
    &&& new.label_pos@ == old.label_pos@
    &&& new.fixups@ == old.fixups@
    &&& new.strings@ == old.strings@
    &&& new.adr_fixups@ == old.adr_fixups@
}

/// Halfword `hw` (0..4) of `v`.
pub open spec fn halfword(v: u64, hw: u32) -> u32 {
    ((v >> ((16 * hw) as u32)) & 0xFFFFu64) as u32
}

/// MOVZ Xd, #(low halfword of `v`).
pub open spec fn movz_word(rd: u32, v: u64) -> u32 {
    0xD280_0000u32 | (((v as u32) & 0xFFFFu32) << 5u32) | rd
}

/// MOVK Xd, #(halfword `hw`), LSL #(16 * hw) when that halfword is not zero;
/// nothing otherwise.
pub open spec fn movk_words(rd: u32, v: u64, hw: u32) -> Seq<u32> {
    if halfword(v, hw) != 0 {
        seq![0xF280_0000u32 | (hw << 21u32) | (halfword(v, hw) << 5u32) | rd]
    } else {
        seq![]
    }
}

/// The words that load the 64-bit `value` into `rd`.
pub open spec fn load_imm_words(rd: u32, value: i64) -> Seq<u32> {
    let v = value as u64;
    seq![movz_word(rd, v)] + movk_words(rd, v, 1) + movk_words(rd, v, 2) + movk_words(rd, v, 3)
}

/// The destination register field (bits 4:0) of an instruction word.
pub open spec fn word_rd(w: u32) -> u32 {
    w & 31u32
}

/// What one 64-bit move-wide word does to its destination register, read
/// from the word's fields as the architecture decodes them: bits 31:23 pick
/// MOVZ (`0b1_10_100101`) or MOVK (`0b1_11_100101`), bits 22:21 the
/// halfword, bits 20:5 the immediate. MOVZ zeroes the register and sets that
/// halfword; MOVK replaces that halfword and keeps the others; any other word
/// leaves the register as it was.
pub open spec fn mov_wide_exec(x: u64, w: u32) -> u64 {
    let hw = (w >> 21u32) & 3u32;
    let sh = (16 * hw) as u64;
    let imm = ((w >> 5u32) & 0xFFFFu32) as u64;
    if w >> 23u32 == 0x1A5u32 {
        imm << sh
    } else if w >> 23u32 == 0x1E5u32 {
        (x & !(0xFFFFu64 << sh)) | (imm << sh)
    } else {
        x
    }
}

/// The register after running the words `ws` in order, starting from `x`.
pub open spec fn run_mov_wide(x: u64, ws: Seq<u32>) -> u64
    decreases ws.len(),
{
    if ws.len() == 0 {
        x
    } else {
        mov_wide_exec(run_mov_wide(x, ws.drop_last()), ws.last())
    }
}

/// The MOVZ word and the chain of optional MOVKs, run on any start value,
/// leave exactly `v`; each word names `rd` and is a move-wide word.
proof fn lemma_mov_wide_chain(x: u64, v: u64, rd: u32)
    by (bit_vector)
    requires
        rd < 32,
    ensures
        ({
            let x1 = mov_wide_exec(x, movz_word(rd, v));
            let x2 = if halfword(v, 1) != 0 {
                mov_wide_exec(x1, 0xF280_0000u32 | (1u32 << 21u32) | (halfword(v, 1) << 5u32) | rd)
            } else {
                x1
            };
            let x3 = if halfword(v, 2) != 0 {
                mov_wide_exec(x2, 0xF280_0000u32 | (2u32 << 21u32) | (halfword(v, 2) << 5u32) | rd)
            } else {
                x2
            };
            let x4 = if halfword(v, 3) != 0 {
                mov_wide_exec(x3, 0xF280_0000u32 | (3u32 << 21u32) | (halfword(v, 3) << 5u32) | rd)
            } else {
                x3
            };
            x4 == v
        }),
        word_rd(movz_word(rd, v)) == rd,
        word_rd(0xF280_0000u32 | (1u32 << 21u32) | (halfword(v, 1) << 5u32) | rd) == rd,
        word_rd(0xF280_0000u32 | (2u32 << 21u32) | (halfword(v, 2) << 5u32) | rd) == rd,
        word_rd(0xF280_0000u32 | (3u32 << 21u32) | (halfword(v, 3) << 5u32) | rd) == rd,
{
}

/// Loading a constant: running the words of `load_imm_words(rd, value)` from
/// any register contents leaves the register holding `value` as a 64-bit
/// pattern, and every word writes register `rd`.
pub proof fn lemma_load_imm_sets_register(rd: u32, value: i64, x: u64)
    requires
        rd < 32,
    ensures
        run_mov_wide(x, load_imm_words(rd, value)) == value as u64,
        forall|i: int| 0 <= i < load_imm_words(rd, value).len()
            ==> word_rd(#[trigger] load_imm_words(rd, value)[i]) == rd,
{
    let v = value as u64;
    lemma_mov_wide_chain(x, v, rd);
    let s0 = seq![movz_word(rd, v)];
    let s1 = s0 + movk_words(rd, v, 1);
    let s2 = s1 + movk_words(rd, v, 2);
    let s3 = s2 + movk_words(rd, v, 3);
    assert(s0.drop_last() =~= Seq::<u32>::empty());
    assert(run_mov_wide(x, Seq::<u32>::empty()) == x);
    assert(run_mov_wide(x, s0) == mov_wide_exec(x, movz_word(rd, v)));
    if halfword(v, 1) != 0 {
        assert(s1.drop_last() =~= s0);
        assert(run_mov_wide(x, s1) == mov_wide_exec(run_mov_wide(x, s0), s1.last()));
    } else {
        assert(s1 =~= s0);
    }
    if halfword(v, 2) != 0 {
        assert(s2.drop_last() =~= s1);
        assert(run_mov_wide(x, s2) == mov_wide_exec(run_mov_wide(x, s1), s2.last()));
    } else {
        assert(s2 =~= s1);
    }
    if halfword(v, 3) != 0 {
        assert(s3.drop_last() =~= s2);
        assert(run_mov_wide(x, s3) == mov_wide_exec(run_mov_wide(x, s2), s3.last()));
    } else {
        assert(s3 =~= s2);
    }
    assert(s3 == load_imm_words(rd, value));
}

impl Asm {
    pub fn new() -> (r: Asm)
        ensures
            r.words@.len() == 0,
            r.label_pos@.len() == 0,
            r.fixups@.len() == 0,
            r.strings@.len() == 0,
            r.adr_fixups@.len() == 0,
            r.relocs@.len() == 0,
    {
        Asm {
            words: Vec::new(),
            label_pos: Vec::new(),
            fixups: Vec::new(),
            strings: Vec::new(),
            adr_fixups: Vec::new(),
            relocs: Vec::new(),
        }
    }

    pub fn emit(&mut self, word: u32)
        ensures
            pushed(*old(self), *final(self), word),
    {
        self.words.push(word);
    }

    /// A fresh, not yet placed label.
    pub fn new_label(&mut self) -> (id: usize)
        requires
            old(self).label_pos.len() < usize::MAX,
        ensures
            id == old(self).label_pos.len(),
            final(self).label_pos@ == old(self).label_pos@.push(None),
            final(self).words@ == old(self).words@,
            final(self).fixups@ == old(self).fixups@,
            final(self).strings@ == old(self).strings@,
            final(self).adr_fixups@ == old(self).adr_fixups@,
            final(self).relocs@ == old(self).relocs@,
    {
        self.label_pos.push(None);
        self.label_pos.len() - 1
    }

    /// Places label `id` at the next word.
    pub fn place(&mut self, id: usize)
        requires
            id < old(self).label_pos.len(),
        ensures
            final(self).label_pos@ == old(self).label_pos@.update(id as int, Some(old(self).words.len())),
            final(self).words@ == old(self).words@,
            final(self).fixups@ == old(self).fixups@,
            final(self).strings@ == old(self).strings@,
            final(self).adr_fixups@ == old(self).adr_fixups@,
            final(self).relocs@ == old(self).relocs@,
    {
        let n = self.words.len();
        self.label_pos.set(id, Some(n));
    }

    /// The byte offset of a placed label; an error if it was never placed.
    pub fn label_byte(&self, id: usize) -> (r: Result<u64, CodegenError>)
        requires
            id < self.label_pos.len(),
        ensures
            match self.label_pos@[id as int] {
                Some(w) => r == Ok::<u64, CodegenError>(((w * 4) % 0x1_0000_0000_0000_0000) as u64),
                None => r matches Err(e) && e.message@ == "internal: unplaced function label"@ && e.pos
                    is None,
            },
    {
        match self.label_pos[id] {
            Some(w) => Ok((w as u64).wrapping_mul(4)),
            None => Err(CodegenError::new(owned("internal: unplaced function label"), None)),
        }
    }

    /// ADD Xd, Xn, Xm.
    pub fn add(&mut self, rd: u32, rn: u32, rm: u32)
        ensures
            pushed(*old(self), *final(self), enc_rrr(0x8B00_0000, rd, rn, rm)),
    {
        self.emit(0x8B00_0000 | (rm << 16) | (rn << 5) | rd);
    }

    /// SUB Xd, Xn, Xm.
    pub fn sub(&mut self, rd: u32, rn: u32, rm: u32)
        ensures
            pushed(*old(self), *final(self), enc_rrr(0xCB00_0000, rd, rn, rm)),
    {
        self.emit(0xCB00_0000 | (rm << 16) | (rn << 5) | rd);
    }

    /// SDIV Xd, Xn, Xm.
    pub fn sdiv(&mut self, rd: u32, rn: u32, rm: u32)
        ensures
            pushed(*old(self), *final(self), enc_rrr(0x9AC0_0C00, rd, rn, rm)),
    {
        self.emit(0x9AC0_0C00 | (rm << 16) | (rn << 5) | rd);
    }

    /// UDIV Xd, Xn, Xm.
    pub fn udiv(&mut self, rd: u32, rn: u32, rm: u32)
        ensures
            pushed(*old(self), *final(self), enc_rrr(0x9AC0_0800, rd, rn, rm)),
    {
        self.emit(0x9AC0_0800 | (rm << 16) | (rn << 5) | rd);
    }

    /// AND Xd, Xn, Xm.
    pub fn and(&mut self, rd: u32, rn: u32, rm: u32)
        ensures
            pushed(*old(self), *final(self), enc_rrr(0x8A00_0000, rd, rn, rm)),
    {
        self.emit(0x8A00_0000 | (rm << 16) | (rn << 5) | rd);
    }

    /// ORR Xd, Xn, Xm.
    pub fn orr(&mut self, rd: u32, rn: u32, rm: u32)
        ensures
            pushed(*old(self), *final(self), enc_rrr(0xAA00_0000, rd, rn, rm)),
    {
        self.emit(0xAA00_0000 | (rm << 16) | (rn << 5) | rd);
    }

    /// EOR Xd, Xn, Xm.
    pub fn eor(&mut self, rd: u32, rn: u32, rm: u32)
        ensures
            pushed(*old(self), *final(self), enc_rrr(0xCA00_0000, rd, rn, rm)),
    {
        self.emit(0xCA00_0000 | (rm << 16) | (rn << 5) | rd);
    }

    /// LSLV Xd, Xn, Xm: shift left by a register.
    pub fn lslv(&mut self, rd: u32, rn: u32, rm: u32)
        ensures
            pushed(*old(self), *final(self), enc_rrr(0x9AC0_2000, rd, rn, rm)),
    {
        self.emit(0x9AC0_2000 | (rm << 16) | (rn << 5) | rd);
    }

    /// LSRV Xd, Xn, Xm: logical shift right by a register.
    pub fn lsrv(&mut self, rd: u32, rn: u32, rm: u32)
        ensures
            pushed(*old(self), *final(self), enc_rrr(0x9AC0_2400, rd, rn, rm)),
    {
        self.emit(0x9AC0_2400 | (rm << 16) | (rn << 5) | rd);
    }

    /// ASRV Xd, Xn, Xm: arithmetic (sign-preserving) shift right by a register.
    pub fn asrv(&mut self, rd: u32, rn: u32, rm: u32)
        ensures
            pushed(*old(self), *final(self), enc_rrr(0x9AC0_2800, rd, rn, rm)),
    {
        self.emit(0x9AC0_2800 | (rm << 16) | (rn << 5) | rd);
    }

    /// FADD Dd, Dn, Dm.
    pub fn fadd(&mut self, rd: u32, rn: u32, rm: u32)
        ensures
            pushed(*old(self), *final(self), enc_rrr(0x1E60_2800, rd, rn, rm)),
    {
        self.emit(0x1E60_2800 | (rm << 16) | (rn << 5) | rd);
    }

    /// FSUB Dd, Dn, Dm.
    pub fn fsub(&mut self, rd: u32, rn: u32, rm: u32)
        ensures
            pushed(*old(self), *final(self), enc_rrr(0x1E60_3800, rd, rn, rm)),
    {
        self.emit(0x1E60_3800 | (rm << 16) | (rn << 5) | rd);
    }

    /// FMUL Dd, Dn, Dm.
    pub fn fmul(&mut self, rd: u32, rn: u32, rm: u32)
        ensures
            pushed(*old(self), *final(self), enc_rrr(0x1E60_0800, rd, rn, rm)),
    {
        self.emit(0x1E60_0800 | (rm << 16) | (rn << 5) | rd);
    }

    /// FDIV Dd, Dn, Dm.
    pub fn fdiv(&mut self, rd: u32, rn: u32, rm: u32)
        ensures
            pushed(*old(self), *final(self), enc_rrr(0x1E60_1800, rd, rn, rm)),
    {
        self.emit(0x1E60_1800 | (rm << 16) | (rn << 5) | rd);
    }

    /// SXTW Xd, Wn: sign-extend a 32-bit word to 64 bits.
    pub fn sxtw(&mut self, rd: u32, rn: u32)
        ensures
            pushed(*old(self), *final(self), enc_rr(0x9340_7C00, rd, rn)),
    {
        self.emit(0x9340_7C00 | (rn << 5) | rd);
    }

    /// FMOV Xd, Dn: the raw 64 bits of a double into a general register.
    pub fn fmov_to_gpr(&mut self, rd: u32, rn: u32)
        ensures
            pushed(*old(self), *final(self), enc_rr(0x9E66_0000, rd, rn)),
    {
        self.emit(0x9E66_0000 | (rn << 5) | rd);
    }

    /// FMOV Dd, Xn: raw 64 bits from a general register into a double register.
    pub fn fmov_from_gpr(&mut self, rd: u32, rn: u32)
        ensures
            pushed(*old(self), *final(self), enc_rr(0x9E67_0000, rd, rn)),
    {
        self.emit(0x9E67_0000 | (rn << 5) | rd);
    }

    /// FMOV Dd, Dn: copy one double register to another.
    pub fn fmov_reg(&mut self, rd: u32, rn: u32)
        ensures
            pushed(*old(self), *final(self), enc_rr(0x1E60_4000, rd, rn)),
    {
        self.emit(0x1E60_4000 | (rn << 5) | rd);
    }

    /// FNEG Dd, Dn.
    pub fn fneg(&mut self, rd: u32, rn: u32)
        ensures
            pushed(*old(self), *final(self), enc_rr(0x1E61_4000, rd, rn)),
    {
        self.emit(0x1E61_4000 | (rn << 5) | rd);
    }

    /// SCVTF Dd, Xn: signed 64-bit integer to double.
    pub fn scvtf(&mut self, rd: u32, rn: u32)
        ensures
            pushed(*old(self), *final(self), enc_rr(0x9E62_0000, rd, rn)),
    {
        self.emit(0x9E62_0000 | (rn << 5) | rd);
    }

    /// FCVTZS Xd, Dn: double to signed 64-bit integer, toward zero.
    pub fn fcvtzs(&mut self, rd: u32, rn: u32)
        ensures
            pushed(*old(self), *final(self), enc_rr(0x9E78_0000, rd, rn)),
    {
        self.emit(0x9E78_0000 | (rn << 5) | rd);
    }

    /// FCVTZU Xd, Dn: double to unsigned 64-bit integer, toward zero, saturating.
    pub fn fcvtzu(&mut self, rd: u32, rn: u32)
        ensures
            pushed(*old(self), *final(self), enc_rr(0x9E79_0000, rd, rn)),
    {
        self.emit(0x9E79_0000 | (rn << 5) | rd);
    }

    /// MUL Xd, Xn, Xm (MADD with the zero register as addend).
    pub fn mul(&mut self, rd: u32, rn: u32, rm: u32)
        ensures
            pushed(*old(self), *final(self), enc_rrrr(0x9B00_0000, rd, rn, rm, XZR)),
    {
        self.emit(0x9B00_0000 | (rm << 16) | (XZR << 10) | (rn << 5) | rd);
    }

    /// MSUB Xd, Xn, Xm, Xa: `Xa - Xn * Xm`.
    pub fn msub(&mut self, rd: u32, rn: u32, rm: u32, ra: u32)
        ensures
            pushed(*old(self), *final(self), enc_rrrr(0x9B00_8000, rd, rn, rm, ra)),
    {
        self.emit(0x9B00_8000 | (rm << 16) | (ra << 10) | (rn << 5) | rd);
    }

    /// MADD Xd, Xn, Xm, Xa: `Xa + Xn * Xm`.
    pub fn madd(&mut self, rd: u32, rn: u32, rm: u32, ra: u32)
        ensures
            pushed(*old(self), *final(self), enc_rrrr(0x9B00_0000, rd, rn, rm, ra)),
    {
        self.emit(0x9B00_0000 | (rm << 16) | (ra << 10) | (rn << 5) | rd);
    }

    /// NEG Xd, Xm: SUB from the zero register.
    pub fn neg(&mut self, rd: u32, rm: u32)
        ensures
            pushed(*old(self), *final(self), enc_rrr(0xCB00_0000, rd, XZR, rm)),
    {
        self.sub(rd, XZR, rm);
    }

    /// MVN Xd, Xm: ORN from the zero register.
    pub fn mvn(&mut self, rd: u32, rm: u32)
        ensures
            pushed(*old(self), *final(self), enc_rrr(0xAA20_0000, rd, XZR, rm)),
    {
        self.emit(0xAA20_0000 | (rm << 16) | (XZR << 5) | rd);
    }

    /// MOV Xd, Xm: ORR with the zero register.
    pub fn mov_reg(&mut self, rd: u32, rm: u32)
        ensures
            pushed(*old(self), *final(self), enc_rrr(0xAA00_0000, rd, XZR, rm)),
    {
        self.orr(rd, XZR, rm);
    }

    /// SBFM Xd, Xn, #immr, #imms (sign-extending casts).
    pub fn sbfm(&mut self, rd: u32, rn: u32, immr: u32, imms: u32)
        ensures
            pushed(*old(self), *final(self), enc_bitfield(0x9340_0000, rd, rn, immr, imms)),
    {
        self.emit(0x9340_0000 | (immr << 16) | (imms << 10) | (rn << 5) | rd);
    }

    /// UBFM Xd, Xn, #immr, #imms (zero-extending casts).
    pub fn ubfm(&mut self, rd: u32, rn: u32, immr: u32, imms: u32)
        ensures
            pushed(*old(self), *final(self), enc_bitfield(0xD340_0000, rd, rn, immr, imms)),
    {
        self.emit(0xD340_0000 | (immr << 16) | (imms << 10) | (rn << 5) | rd);
    }

    /// FCMP Dn, Dm: sets the flags for an ordered comparison.
    pub fn fcmp(&mut self, dn: u32, dm: u32)
        ensures
            pushed(*old(self), *final(self), enc_rrr(0x1E60_2000, 0, dn, dm)),
    {
        self.emit(0x1E60_2000 | (dm << 16) | (dn << 5));
        proof {
            assert(0x1E60_2000u32 | (dm << 16u32) | (dn << 5u32) == 0x1E60_2000u32 | (dm << 16u32) | (dn
                << 5u32) | 0u32) by (bit_vector);
        }
    }

    /// FCMP Dn, #0.0.
    pub fn fcmp_zero(&mut self, dn: u32)
        ensures
            pushed(*old(self), *final(self), enc_rr(0x1E60_2008, 0, dn)),
    {
        self.emit(0x1E60_2008 | (dn << 5));
        proof {
            assert(0x1E60_2008u32 | (dn << 5u32) == 0x1E60_2008u32 | (dn << 5u32) | 0u32) by (bit_vector);
        }
    }

    /// ADD Xd, Xn, #imm (the low 12 bits of `imm`).
    pub fn add_imm(&mut self, rd: u32, rn: u32, imm: u32)
        ensures
            pushed(*old(self), *final(self), enc_imm12(0x9100_0000, rd, rn, imm)),
    {
        self.emit(0x9100_0000 | ((imm & 0xFFF) << 10) | (rn << 5) | rd);
    }

    /// SUB Xd, Xn, #imm (the low 12 bits of `imm`).
    pub fn sub_imm(&mut self, rd: u32, rn: u32, imm: u32)
        ensures
            pushed(*old(self), *final(self), enc_imm12(0xD100_0000, rd, rn, imm)),
    {
        self.emit(0xD100_0000 | ((imm & 0xFFF) << 10) | (rn << 5) | rd);
    }

    pub fn add_sp_imm(&mut self, imm: u32)
        ensures
            pushed(*old(self), *final(self), enc_imm12(0x9100_0000, SP, SP, imm)),
    {
        self.add_imm(SP, SP, imm);
    }

    pub fn sub_sp_imm(&mut self, imm: u32)
        ensures
            pushed(*old(self), *final(self), enc_imm12(0xD100_0000, SP, SP, imm)),
    {
        self.sub_imm(SP, SP, imm);
    }

    /// `stp x29, x30, [sp, #-16]!`: the prologue's frame-record push.
    pub fn stp_pre_fp_lr(&mut self)
        ensures
            pushed(*old(self), *final(self), 0xA9BF_7BFD),
    {
        let imm7: u32 = (-2i32 as u32) & 0x7F;
        let w = 0xA980_0000 | (imm7 << 15) | (LR << 10) | (SP << 5) | FP;
        assert(w == 0xA9BF_7BFDu32) by (bit_vector)
            requires
                imm7 == (-2i32 as u32) & 0x7Fu32,
                w == 0xA980_0000u32 | (imm7 << 15u32) | (30u32 << 10u32) | (31u32 << 5u32) | 29u32,
        ;
        self.emit(w);
    }

    /// `ldp x29, x30, [sp], #16`: the epilogue's frame-record pop.
    pub fn ldp_post_fp_lr(&mut self)
        ensures
            pushed(*old(self), *final(self), 0xA8C1_7BFD),
    {
        let w = 0xA8C0_0000u32 | (2u32 << 15) | (LR << 10) | (SP << 5) | FP;
        assert(w == 0xA8C1_7BFDu32) by (bit_vector)
            requires
                w == 0xA8C0_0000u32 | (2u32 << 15u32) | (30u32 << 10u32) | (31u32 << 5u32) | 29u32,
        ;
        self.emit(w);
    }

    /// `mov x29, sp`.
    pub fn mov_fp_sp(&mut self)
        ensures
            pushed(*old(self), *final(self), enc_imm12(0x9100_0000, FP, SP, 0)),
    {
        self.add_imm(FP, SP, 0);
    }

    /// `mov sp, x29`.
    pub fn mov_sp_fp(&mut self)
        ensures
            pushed(*old(self), *final(self), enc_imm12(0x9100_0000, SP, FP, 0)),
    {
        self.add_imm(SP, FP, 0);
    }

    /// `sub sp, sp, #0`, to be patched with the frame size; returns its index.
    pub fn emit_sub_sp_placeholder(&mut self) -> (idx: usize)
        ensures
            idx == old(self).words.len(),
            pushed(*old(self), *final(self), 0xD100_03FF),
    {
        let idx = self.words.len();
        let w = 0xD100_0000u32 | (SP << 5) | SP;
        assert(w == 0xD100_03FFu32) by (bit_vector)
            requires
                w == 0xD100_0000u32 | (31u32 << 5u32) | 31u32,
        ;
        self.emit(w);
        idx
    }

    /// Fills the frame size into the placeholder at `idx`.
    pub fn patch_sub_sp(&mut self, idx: usize, imm: u32)
        requires
            idx < old(self).words.len(),
        ensures
            final(self).words@ == old(self).words@.update(
                idx as int,
                old(self).words@[idx as int] | ((imm & 0xFFFu32) << 10u32),
            ),
            final(self).label_pos@ == old(self).label_pos@,
            final(self).fixups@ == old(self).fixups@,
            final(self).strings@ == old(self).strings@,
            final(self).adr_fixups@ == old(self).adr_fixups@,
            final(self).relocs@ == old(self).relocs@,
    {
        let w = self.words[idx] | ((imm & 0xFFF) << 10);
        self.words.set(idx, w);
    }

    /// LDR/LDRS* (unsigned offset) of `size` bytes, sign-extending when `signed`.
    pub fn load_mem_off(&mut self, dst: u32, base: u32, byte_off: u32, size: u32, signed: bool)
        requires
            size != 0,
        ensures
            pushed(*old(self), *final(self), enc_imm12(load_opcode(size, signed), dst, base, byte_off / size)),
    {
        let op: u32 = if size == 8 {
            0xF940_0000
        } else if size == 4 && signed {
            0xB980_0000
        } else if size == 4 {
            0xB940_0000
        } else if size == 2 && signed {
            0x7980_0000
        } else if size == 2 {
            0x7940_0000
        } else if size == 1 && signed {
            0x3980_0000
        } else if size == 1 {
            0x3940_0000
        } else {
            0xF940_0000
        };
        let imm12 = (byte_off / size) & 0xFFF;
        self.emit(op | (imm12 << 10) | (base << 5) | dst);
    }

    /// STR/STRH/STRB (unsigned offset) of `size` bytes.
    pub fn store_mem_off(&mut self, val: u32, base: u32, byte_off: u32, size: u32)
        requires
            size != 0,
        ensures
            pushed(*old(self), *final(self), enc_imm12(store_opcode(size), val, base, byte_off / size)),
    {
        let op: u32 = if size == 8 {
            0xF900_0000
        } else if size == 4 {
            0xB900_0000
        } else if size == 2 {
            0x7900_0000
        } else if size == 1 {
            0x3900_0000
        } else {
            0xF900_0000
        };
        let imm12 = (byte_off / size) & 0xFFF;
        self.emit(op | (imm12 << 10) | (base << 5) | val);
    }

    /// Load from `[addr]`.
    pub fn load_mem(&mut self, dst: u32, addr: u32, size: u32, signed: bool)
        requires
            size != 0,
        ensures
            pushed(*old(self), *final(self), enc_imm12(load_opcode(size, signed), dst, addr, 0)),
    {
        self.load_mem_off(dst, addr, 0, size, signed);
    }

    /// Store to `[addr]`.
    pub fn store_mem(&mut self, val: u32, addr: u32, size: u32)
        requires
            size != 0,
        ensures
            pushed(*old(self), *final(self), enc_imm12(store_opcode(size), val, addr, 0)),
    {
        self.store_mem_off(val, addr, 0, size);
    }

    /// STR rt, [sp, #off].
    pub fn str_sp(&mut self, rt: u32, off: u32)
        ensures
            pushed(*old(self), *final(self), 0xF900_0000u32 | ((off / 8) << 10u32) | (SP << 5u32) | rt),
    {
        self.emit(0xF900_0000 | ((off / 8) << 10) | (SP << 5) | rt);
    }

    /// `str reg, [sp, #-16]!`.
    pub fn push(&mut self, reg: u32)
        ensures
            pushed(*old(self), *final(self), 0xF81F_0FE0u32 | reg),
    {
        let imm9: u32 = (-16i32 as u32) & 0x1FF;
        let w = 0xF800_0C00u32 | (imm9 << 12) | (SP << 5);
        assert(w == 0xF81F_0FE0u32) by (bit_vector)
            requires
                imm9 == (-16i32 as u32) & 0x1FFu32,
                w == 0xF800_0C00u32 | (imm9 << 12u32) | (31u32 << 5u32),
        ;
        self.emit(w | reg);
    }

    /// `ldr reg, [sp], #16`.
    pub fn pop(&mut self, reg: u32)
        ensures
            pushed(*old(self), *final(self), 0xF841_07E0u32 | reg),
    {
        let imm9: u32 = 16u32 & 0x1FF;
        let w = 0xF840_0400u32 | (imm9 << 12) | (SP << 5);
        assert(w == 0xF841_07E0u32) by (bit_vector)
            requires
                imm9 == 16u32 & 0x1FFu32,
                w == 0xF840_0400u32 | (imm9 << 12u32) | (31u32 << 5u32),
        ;
        self.emit(w | reg);
    }

    /// CMP Xn, Xm (SUBS into the zero register).
    pub fn cmp_reg(&mut self, rn: u32, rm: u32)
        ensures
            pushed(*old(self), *final(self), enc_rrr(0xEB00_0000, XZR, rn, rm)),
    {
        self.emit(0xEB00_0000 | (rm << 16) | (rn << 5) | XZR);
    }

    /// CMP Xn, #0.
    pub fn cmp_imm0(&mut self, rn: u32)
        ensures
            pushed(*old(self), *final(self), enc_rr(0xF100_0000, XZR, rn)),
    {
        self.emit(0xF100_0000 | (rn << 5) | XZR);
    }

    /// CSET Xd, cond (CSINC Xd, XZR, XZR, !cond).
    pub fn cset(&mut self, rd: u32, cond: u32)
        ensures
            pushed(
                *old(self),
                *final(self),
                0x9A80_0400u32 | (XZR << 16u32) | ((cond ^ 1u32) << 12u32) | (XZR << 5u32) | rd,
            ),
    {
        let inv = cond ^ 1;
        self.emit(0x9A80_0400 | (XZR << 16) | (inv << 12) | (XZR << 5) | rd);
    }

    pub fn ret(&mut self)
        ensures
            pushed(*old(self), *final(self), 0xD65F_03C0),
    {
        self.emit(0xD65F_03C0);
    }

    /// B label.
    pub fn b(&mut self, label: usize)
        ensures
            pushed_fixup(*old(self), *final(self), 0x1400_0000, (old(self).words.len(), label, Fixup::B26)),
    {
        self.fixups.push((self.words.len(), label, Fixup::B26));
        self.emit(0x1400_0000);
    }

    /// BL label.
    pub fn bl(&mut self, label: usize)
        ensures
            pushed_fixup(*old(self), *final(self), 0x9400_0000, (old(self).words.len(), label, Fixup::B26)),
    {
        self.fixups.push((self.words.len(), label, Fixup::B26));
        self.emit(0x9400_0000);
    }

    /// BLR Xn: call the address in `rn`.
    pub fn blr(&mut self, rn: u32)
        ensures
            pushed(*old(self), *final(self), 0xD63F_0000u32 | (rn << 5u32)),
    {
        self.emit(0xD63F_0000 | (rn << 5));
    }

    /// BR Xn: jump to the address in `rn` (into a branch table).
    pub fn br(&mut self, rn: u32)
        ensures
            pushed(*old(self), *final(self), 0xD61F_0000u32 | (rn << 5u32)),
    {
        self.emit(0xD61F_0000 | (rn << 5));
    }

    /// LDRSW Xt, [Xn, Xm, LSL #2]: a sign-extended jump-table entry.
    pub fn ldrsw_reg(&mut self, rt: u32, base: u32, index: u32)
        ensures
            pushed(*old(self), *final(self), enc_rrr(0xB8A0_7800, rt, base, index)),
    {
        self.emit(0xB8A0_7800 | (index << 16) | (base << 5) | rt);
    }

    /// A jump-table data word: the byte distance from `base` to `target`, filled
    /// in by `finish`.
    pub fn table_word(&mut self, base: usize, target: usize)
        ensures
            pushed_fixup(*old(self), *final(self), 0, (old(self).words.len(), target, Fixup::TableRel(base))),
    {
        self.fixups.push((self.words.len(), target, Fixup::TableRel(base)));
        self.emit(0);
    }

    /// ADR rd, label: the address of an in-text label.
    pub fn adr_label(&mut self, rd: u32, label: usize)
        ensures
            pushed_fixup(*old(self), *final(self), 0x1000_0000u32 | rd, (old(self).words.len(), label, Fixup::Adr)),
    {
        self.fixups.push((self.words.len(), label, Fixup::Adr));
        self.emit(0x1000_0000 | rd);
    }

    /// `bl sym` to an undefined external symbol, completed by the linker.
    pub fn bl_extern(&mut self, sym: &'static str)
        ensures
            pushed_extern_call(*old(self), *final(self), sym@),
    {
        self.relocs.push((self.words.len(), SymRef::Extern(sym), RelKind::Branch26));
        self.emit(0x9400_0000);
        proof {
            assert(self.relocs@.drop_last() =~= old(self).relocs@);
        }
    }

    /// `bl _printf`.
    pub fn bl_printf(&mut self)
        ensures
            pushed_extern_call(*old(self), *final(self), "_printf"@),
    {
        self.bl_extern("_printf");
    }

    /// ADR rd, string `sidx` of the pool.
    pub fn adr(&mut self, rd: u32, sidx: usize)
        ensures
            final(self).words@ == old(self).words@.push(0x1000_0000u32 | rd),
            final(self).adr_fixups@ == old(self).adr_fixups@.push((old(self).words.len(), sidx)),
            final(self).label_pos@ == old(self).label_pos@,
            final(self).fixups@ == old(self).fixups@,
            final(self).strings@ == old(self).strings@,
            final(self).relocs@ == old(self).relocs@,
    {
        self.adr_fixups.push((self.words.len(), sidx));
        self.emit(0x1000_0000 | rd);
    }

    /// ADRP rd, sym@PAGE.
    pub fn adrp_global(&mut self, rd: u32, sym: u32)
        ensures
            pushed_reloc(*old(self), *final(self), 0x9000_0000u32 | rd, (old(self).words.len(), SymRef::Sym(sym), RelKind::Page21)),
    {
        self.relocs.push((self.words.len(), SymRef::Sym(sym), RelKind::Page21));
        self.emit(0x9000_0000 | rd);
    }

    /// ADD rd, rn, sym@PAGEOFF.
    pub fn add_global(&mut self, rd: u32, rn: u32, sym: u32)
        ensures
            pushed_reloc(*old(self), *final(self), enc_rr(0x9100_0000, rd, rn), (old(self).words.len(), SymRef::Sym(sym), RelKind::PageOff12)),
    {
        self.relocs.push((self.words.len(), SymRef::Sym(sym), RelKind::PageOff12));
        self.emit(0x9100_0000 | (rn << 5) | rd);
    }

    /// B.cond label.
    pub fn b_cond(&mut self, cond: u32, label: usize)
        ensures
            pushed_fixup(*old(self), *final(self), 0x5400_0000u32 | cond, (old(self).words.len(), label, Fixup::B19)),
    {
        self.fixups.push((self.words.len(), label, Fixup::B19));
        self.emit(0x5400_0000 | cond);
    }

    /// CBZ Xt, label.
    pub fn cbz(&mut self, rt: u32, label: usize)
        ensures
            pushed_fixup(*old(self), *final(self), 0xB400_0000u32 | rt, (old(self).words.len(), label, Fixup::B19)),
    {
        self.fixups.push((self.words.len(), label, Fixup::B19));
        self.emit(0xB400_0000 | rt);
    }

    /// CBNZ Xt, label.
    pub fn cbnz(&mut self, rt: u32, label: usize)
        ensures
            pushed_fixup(*old(self), *final(self), 0xB500_0000u32 | rt, (old(self).words.len(), label, Fixup::B19)),
    {
        self.fixups.push((self.words.len(), label, Fixup::B19));
        self.emit(0xB500_0000 | rt);
    }

    /// MOVZ then one MOVK per further non-zero halfword: `rd = value`.
    pub fn load_imm(&mut self, rd: u32, value: i64)
        ensures
            appended(*old(self), *final(self), load_imm_words(rd, value)),
    {
        let v = value as u64;
        self.emit(0xD280_0000 | (((v as u32) & 0xFFFF) << 5) | rd);
        self.movk_nonzero(rd, v, 1);
        self.movk_nonzero(rd, v, 2);
        self.movk_nonzero(rd, v, 3);
        proof {
            assert(self.words@ =~= old(self).words@ + load_imm_words(rd, value));
        }
    }

    /// MOVK rd, #halfword, LSL #(16 * hw), when that halfword of `v` is not zero.
    fn movk_nonzero(&mut self, rd: u32, v: u64, hw: u32)
        requires
            1 <= hw <= 3,
        ensures
            appended(*old(self), *final(self), movk_words(rd, v, hw)),
    {
        let half = ((v >> (16 * hw)) & 0xFFFF) as u32;
        if half != 0 {
            self.emit(0xF280_0000 | (hw << 21) | (half << 5) | rd);
        }
        proof {
            assert(self.words@ =~= old(self).words@ + movk_words(rd, v, hw));
        }
    }

    /// The pool index of the NUL-terminated bytes of `s`, adding them to the
    /// pool unless an equal entry is already there.
    pub fn intern_string(&mut self, s: &str) -> (r: usize)
        requires
            old(self).strings.len() < usize::MAX,
        ensures
            r < final(self).strings.len(),
            final(self).strings@[r as int]@ == s.spec_bytes().push(0),
            forall|j: int| 0 <= j < r ==> (#[trigger] final(self).strings@[j])@ != s.spec_bytes().push(0),
            r < old(self).strings.len() ==> final(self).strings@ == old(self).strings@,
            r == old(self).strings.len() ==> final(self).strings@.drop_last() == old(self).strings@,
            final(self).words@ == old(self).words@,
            final(self).label_pos@ == old(self).label_pos@,
            final(self).fixups@ == old(self).fixups@,
            final(self).adr_fixups@ == old(self).adr_fixups@,
            final(self).relocs@ == old(self).relocs@,
    {
        let src = s.as_bytes();
        let mut bytes: Vec<u8> = Vec::new();
        let mut k: usize = 0;
        while k < src.len()
            invariant
                k <= src.len(),
                src@ == s.spec_bytes(),
                bytes@ == src@.take(k as int),
            decreases src.len() - k,
        {
            bytes.push(src[k]);
            k += 1;
            proof {
                assert(bytes@ =~= src@.take(k as int));
            }
        }
        bytes.push(0);
        proof {
            assert(src@.take(src.len() as int) =~= src@);
        }
        let mut i: usize = 0;
        while i < self.strings.len()
            invariant
                i <= self.strings.len(),
                bytes@ == s.spec_bytes().push(0),
                self.strings@ == old(self).strings@,
                self.words@ == old(self).words@,
                self.label_pos@ == old(self).label_pos@,
                self.fixups@ == old(self).fixups@,
                self.adr_fixups@ == old(self).adr_fixups@,
                self.relocs@ == old(self).relocs@,
                forall|j: int| 0 <= j < i ==> (#[trigger] self.strings@[j])@ != bytes@,
            decreases self.strings.len() - i,
        {
            if bytes_eq(&self.strings[i], &bytes) {
                return i;
            }
            i += 1;
        }
        let n = self.strings.len();
        self.strings.push(bytes);
        proof {
            assert(self.strings@.drop_last() =~= old(self).strings@);
        }
        n
    }
}

/// Whether two byte strings are equal.
pub fn bytes_eq(a: &Vec<u8>, b: &Vec<u8>) -> (r: bool)
    ensures
        r == (a@ == b@),
{
    if a.len() != b.len() {
        return false;
    }
    let mut i: usize = 0;
    while i < a.len()
        invariant
            i <= a.len(),
            a.len() == b.len(),
            forall|k: int| 0 <= k < i ==> a@[k] == b@[k],
        decreases a.len() - i,
    {
        if a[i] != b[i] {
            proof {
                assert(a@[i as int] != b@[i as int]);
            }
            return false;
        }
        i += 1;
    }
    proof {
        assert(a@ =~= b@);
    }
    true
}


// ---- completing the image ----

/// Why `finish` could not complete the code.
#[derive(Clone, Copy, Debug, PartialEq, Eq, Structural)]
pub enum FinishFault {
    UnplacedCode,
    AdrTooFar,
    UnplacedTable,
    StringTooFar,
}

pub open spec fn fault_message(f: FinishFault) -> Seq<char> {
    match f {
        FinishFault::UnplacedCode => "internal: unplaced code label"@,
        FinishFault::AdrTooFar => "function too far for ADR (>1MB)"@,
        FinishFault::UnplacedTable => "internal: unplaced table label"@,
        FinishFault::StringTooFar => "string too far for ADR (>1MB)"@,
    }
}

fn fault_error(f: FinishFault) -> (e: CodegenError)
    ensures
        e.message@ == fault_message(f),
        e.pos is None,
{
    let msg = match f {
        FinishFault::UnplacedCode => owned("internal: unplaced code label"),
        FinishFault::AdrTooFar => owned("function too far for ADR (>1MB)"),
        FinishFault::UnplacedTable => owned("internal: unplaced table label"),
        FinishFault::StringTooFar => owned("string too far for ADR (>1MB)"),
    };
    CodegenError::new(msg, None)
}

/// ADR reaches byte offsets in `[-1 MiB, 1 MiB)`.
pub open spec fn adr_in_range(imm: int) -> bool {
    -0x10_0000 <= imm < 0x10_0000
}

/// The ADR immediate for byte offset `imm`: its low 2 bits in bits 29..31, the
/// next 19 in bits 5..24.
pub open spec fn adr_bits(imm: int) -> u32 {
    (((imm as u32) & 3u32) << 29u32) | ((((imm as u32) >> 2u32) & 0x7FFFFu32) << 5u32)
}

/// One label fixup applied to the words `ws`.
pub open spec fn apply_fixup(ws: Seq<u32>, lp: Seq<Option<usize>>, f: (usize, usize, Fixup)) -> Result<
    Seq<u32>,
    FinishFault,
> {
    let at = f.0 as int;
    match lp[f.1 as int] {
        None => Err(FinishFault::UnplacedCode),
        Some(target) => {
            let off = target - at;
            match f.2 {
                Fixup::B26 => Ok(ws.update(at, ws[at] | ((off as u32) & 0x03FF_FFFFu32))),
                Fixup::B19 => Ok(ws.update(at, ws[at] | (((off as u32) & 0x7FFFFu32) << 5u32))),
                Fixup::Adr => if adr_in_range(off * 4) {
                    Ok(ws.update(at, ws[at] | adr_bits(off * 4)))
                } else {
                    Err(FinishFault::AdrTooFar)
                },
                Fixup::TableRel(base) => match lp[base as int] {
                    None => Err(FinishFault::UnplacedTable),
                    Some(bp) => Ok(ws.update(at, ((target - bp) * 4) as u32)),
                },
            }
        },
    }
}

/// The label fixups applied in order; the first failure wins.
pub open spec fn apply_fixups(ws: Seq<u32>, lp: Seq<Option<usize>>, fx: Seq<(usize, usize, Fixup)>) -> Result<
    Seq<u32>,
    FinishFault,
>
    decreases fx.len(),
{
    if fx.len() == 0 {
        Ok(ws)
    } else {
        match apply_fixups(ws, lp, fx.drop_last()) {
            Err(e) => Err(e),
            Ok(w2) => apply_fixup(w2, lp, fx.last()),
        }
    }
}

/// The total length of a list of byte strings.
pub open spec fn total_len(ss: Seq<Vec<u8>>) -> int
    decreases ss.len(),
{
    if ss.len() == 0 {
        0
    } else {
        total_len(ss.drop_last()) + ss.last().len()
    }
}

/// The byte strings one after another.
pub open spec fn flatten(ss: Seq<Vec<u8>>) -> Seq<u8>
    decreases ss.len(),
{
    if ss.len() == 0 {
        seq![]
    } else {
        flatten(ss.drop_last()) + ss.last()@
    }
}

/// The string-pool ADR fixups applied in order: string `i` lies at byte
/// `code_bytes + total_len(strings[..i])` of the text.
pub open spec fn apply_adr_fixups(ws: Seq<u32>, ss: Seq<Vec<u8>>, code_bytes: int, afx: Seq<(usize, usize)>) -> Result<
    Seq<u32>,
    FinishFault,
>
    decreases afx.len(),
{
    if afx.len() == 0 {
        Ok(ws)
    } else {
        match apply_adr_fixups(ws, ss, code_bytes, afx.drop_last()) {
            Err(e) => Err(e),
            Ok(w2) => {
                let (at, sidx) = afx.last();
                let imm = code_bytes + total_len(ss.take(sidx as int)) - at * 4;
                if adr_in_range(imm) {
                    Ok(w2.update(at as int, w2[at as int] | adr_bits(imm)))
                } else {
                    Err(FinishFault::StringTooFar)
                }
            },
        }
    }
}

/// A word as its four little-endian bytes.
pub open spec fn le32(w: u32) -> Seq<u8> {
    seq![(w & 0xFF) as u8, ((w >> 8u32) & 0xFF) as u8, ((w >> 16u32) & 0xFF) as u8, ((w >> 24u32) & 0xFF) as u8]
}

/// The words as little-endian bytes.
pub open spec fn words_bytes(ws: Seq<u32>) -> Seq<u8>
    decreases ws.len(),
{
    if ws.len() == 0 {
        seq![]
    } else {
        words_bytes(ws.drop_last()) + le32(ws.last())
    }
}

impl Asm {
    /// Every fixup and relocation names an existing word, label and string, and
    /// every placed label is a word position.
    pub open spec fn wf(&self) -> bool {
        let n = self.words.len();
        &&& forall|i: int|
            0 <= i < self.fixups.len() ==> {
                let f = #[trigger] self.fixups@[i];
                &&& f.0 < n
                &&& f.1 < self.label_pos.len()
                &&& (f.2 matches Fixup::TableRel(b) ==> b < self.label_pos.len())
            }
        &&& forall|i: int| 0 <= i < self.label_pos.len() ==> (#[trigger] self.label_pos@[i] matches Some(w) ==> w <= n)
        &&& forall|i: int|
            0 <= i < self.adr_fixups.len() ==> (#[trigger] self.adr_fixups@[i]).0 < n && self.adr_fixups@[i].1
                < self.strings.len()
        &&& forall|i: int| 0 <= i < self.relocs.len() ==> (#[trigger] self.relocs@[i]).0 < n
    }

    /// The code and string pool fit the address arithmetic.
    pub open spec fn fits(&self) -> bool {
        &&& self.words.len() * 4 + total_len(self.strings@) <= usize::MAX
        &&& self.words.len() * 4 + total_len(self.strings@) <= i64::MAX
    }

    /// Completes every fixup and lays out the text: the code words, then the
    /// string pool.
    pub fn finish(self) -> (r: Result<CodeImage, CodegenError>)
        requires
            self.wf(),
            self.fits(),
        ensures
            match apply_fixups(self.words@, self.label_pos@, self.fixups@) {
                Err(f) => r matches Err(e) && e.message@ == fault_message(f) && e.pos is None,
                Ok(ws) => match apply_adr_fixups(ws, self.strings@, self.words.len() * 4, self.adr_fixups@) {
                    Err(f) => r matches Err(e) && e.message@ == fault_message(f) && e.pos is None,
                    Ok(ws2) => r matches Ok(img) && img.text@ == words_bytes(ws2) + flatten(self.strings@)
                        && img.relocs@ == self.relocs@.map_values(
                        |x: (usize, SymRef, RelKind)| (((x.0 * 4) as u32), x.1, x.2),
                    ),
                },
            },
    {
        let Asm { mut words, label_pos, fixups, strings, adr_fixups, relocs } = self;
        proof {
            lemma_total_len_nonneg(strings@);
        }
        match apply_label_fixups(&mut words, &label_pos, &fixups) {
            Err(f) => {
                return Err(fault_error(f));
            },
            Ok(()) => {},
        }
        let code_bytes = words.len() * 4;
        match apply_string_fixups(&mut words, &strings, code_bytes, &adr_fixups) {
            Err(f) => {
                return Err(fault_error(f));
            },
            Ok(()) => {},
        }
        let mut text: Vec<u8> = Vec::new();
        let mut i: usize = 0;
        while i < words.len()
            invariant
                i <= words.len(),
                text@ == words_bytes(words@.take(i as int)),
            decreases words.len() - i,
        {
            let w = words[i];
            text.push((w & 0xFF) as u8);
            text.push(((w >> 8) & 0xFF) as u8);
            text.push(((w >> 16) & 0xFF) as u8);
            text.push(((w >> 24) & 0xFF) as u8);
            proof {
                assert(words@.take(i as int + 1).drop_last() =~= words@.take(i as int));
                assert(text@ =~= words_bytes(words@.take(i as int + 1)));
            }
            i += 1;
        }
        proof {
            assert(words@.take(words.len() as int) =~= words@);
        }
        let ghost code_text = text@;
        let mut si: usize = 0;
        while si < strings.len()
            invariant
                si <= strings.len(),
                text@ == code_text + flatten(strings@.take(si as int)),
            decreases strings.len() - si,
        {
            let s = &strings[si];
            let mut k: usize = 0;
            while k < s.len()
                invariant
                    k <= s.len(),
                    text@ == code_text + flatten(strings@.take(si as int)) + s@.take(k as int),
                decreases s.len() - k,
            {
                text.push(s[k]);
                proof {
                    assert(s@.take(k as int + 1) =~= s@.take(k as int).push(s@[k as int]));
                    assert(text@ =~= code_text + flatten(strings@.take(si as int)) + s@.take(k as int + 1));
                }
                k += 1;
            }
            proof {
                assert(s@.take(s.len() as int) =~= s@);
                assert(strings@.take(si as int + 1).drop_last() =~= strings@.take(si as int));
                assert(text@ =~= code_text + flatten(strings@.take(si as int + 1)));
            }
            si += 1;
        }
        proof {
            assert(strings@.take(strings.len() as int) =~= strings@);
        }
        let mut out_relocs: Vec<(u32, SymRef, RelKind)> = Vec::new();
        let mut ri: usize = 0;
        while ri < relocs.len()
            invariant
                ri <= relocs.len(),
                words.len() * 4 <= usize::MAX,
                forall|j: int| 0 <= j < relocs.len() ==> (#[trigger] relocs@[j]).0 < words.len(),
                out_relocs@ == relocs@.take(ri as int).map_values(
                    |x: (usize, SymRef, RelKind)| (((x.0 * 4) as u32), x.1, x.2),
                ),
            decreases relocs.len() - ri,
        {
            let (w, sym, kind) = relocs[ri];
            out_relocs.push(((w * 4) as u32, sym, kind));
            proof {
                assert(out_relocs@ =~= relocs@.take(ri as int + 1).map_values(
                    |x: (usize, SymRef, RelKind)| (((x.0 * 4) as u32), x.1, x.2),
                ));
            }
            ri += 1;
        }
        proof {
            assert(relocs@.take(relocs.len() as int) =~= relocs@);
        }
        Ok(CodeImage { text, relocs: out_relocs })
    }
}

proof fn lemma_total_len_nonneg(ss: Seq<Vec<u8>>)
    ensures
        0 <= total_len(ss),
    decreases ss.len(),
{
    if ss.len() > 0 {
        lemma_total_len_nonneg(ss.drop_last());
    }
}

proof fn lemma_total_len_take(ss: Seq<Vec<u8>>, i: int)
    requires
        0 <= i <= ss.len(),
    ensures
        total_len(ss.take(i)) <= total_len(ss),
        0 <= total_len(ss.take(i)),
    decreases ss.len() - i,
{
    lemma_total_len_nonneg(ss.take(i));
    if i < ss.len() {
        assert(ss.take(i + 1).drop_last() =~= ss.take(i));
        lemma_total_len_take(ss, i + 1);
    } else {
        assert(ss.take(i) =~= ss);
    }
}

/// Once a prefix of the fixups fails, every longer prefix fails the same way.
proof fn lemma_fixups_err_sticky(ws: Seq<u32>, lp: Seq<Option<usize>>, fx: Seq<(usize, usize, Fixup)>, i: int)
    requires
        0 <= i <= fx.len(),
        apply_fixups(ws, lp, fx.take(i)) is Err,
    ensures
        apply_fixups(ws, lp, fx) == apply_fixups(ws, lp, fx.take(i)),
    decreases fx.len() - i,
{
    if i < fx.len() {
        assert(fx.take(i + 1).drop_last() =~= fx.take(i));
        lemma_fixups_err_sticky(ws, lp, fx, i + 1);
    } else {
        assert(fx.take(i) =~= fx);
    }
}

proof fn lemma_adr_err_sticky(ws: Seq<u32>, ss: Seq<Vec<u8>>, cb: int, afx: Seq<(usize, usize)>, i: int)
    requires
        0 <= i <= afx.len(),
        apply_adr_fixups(ws, ss, cb, afx.take(i)) is Err,
    ensures
        apply_adr_fixups(ws, ss, cb, afx) == apply_adr_fixups(ws, ss, cb, afx.take(i)),
    decreases afx.len() - i,
{
    if i < afx.len() {
        assert(afx.take(i + 1).drop_last() =~= afx.take(i));
        lemma_adr_err_sticky(ws, ss, cb, afx, i + 1);
    } else {
        assert(afx.take(i) =~= afx);
    }
}

/// The label fixups, in order, applied to `words` in place.
fn apply_label_fixups(words: &mut Vec<u32>, label_pos: &Vec<Option<usize>>, fixups: &Vec<(usize, usize, Fixup)>) -> (r:
    Result<(), FinishFault>)
    requires
        old(words).len() * 4 <= i64::MAX,
        forall|i: int|
            0 <= i < fixups.len() ==> {
                let f = #[trigger] fixups@[i];
                &&& f.0 < old(words).len()
                &&& f.1 < label_pos.len()
                &&& (f.2 matches Fixup::TableRel(b) ==> b < label_pos.len())
            },
        forall|i: int| 0 <= i < label_pos.len() ==> (#[trigger] label_pos@[i] matches Some(w) ==> w <= old(words).len()),
    ensures
        final(words).len() == old(words).len(),
        match apply_fixups(old(words)@, label_pos@, fixups@) {
            Ok(ws) => r is Ok && final(words)@ == ws,
            Err(f) => r == Err::<(), FinishFault>(f),
        },
{
    let ghost w0 = words@;
    let n = words.len();
    let mut i: usize = 0;
    while i < fixups.len()
        invariant
            i <= fixups.len(),
            words.len() == n,
            n * 4 <= i64::MAX,
            forall|k: int|
                0 <= k < fixups.len() ==> {
                    let f = #[trigger] fixups@[k];
                    &&& f.0 < n
                    &&& f.1 < label_pos.len()
                    &&& (f.2 matches Fixup::TableRel(b) ==> b < label_pos.len())
                },
            forall|k: int| 0 <= k < label_pos.len() ==> (#[trigger] label_pos@[k] matches Some(w) ==> w <= n),
            w0 == old(words)@,
            n == old(words).len(),
            apply_fixups(w0, label_pos@, fixups@.take(i as int)) == Ok::<Seq<u32>, FinishFault>(words@),
        decreases fixups.len() - i,
    {
        let (at, id, kind) = fixups[i];
        proof {
            assert(fixups@.take(i as int + 1).drop_last() =~= fixups@.take(i as int));
            assert(fixups@.take(i as int + 1).last() == fixups@[i as int]);
        }
        let target = match label_pos[id] {
            Some(t) => t,
            None => {
                proof {
                    lemma_fixups_err_sticky(w0, label_pos@, fixups@, i as int + 1);
                }
                return Err(FinishFault::UnplacedCode);
            },
        };
        let off: i64 = target as i64 - at as i64;
        match kind {
            Fixup::B26 => {
                let w = words[at] | ((off as u32) & 0x03FF_FFFF);
                words.set(at, w);
            },
            Fixup::B19 => {
                let w = words[at] | (((off as u32) & 0x7_FFFF) << 5);
                words.set(at, w);
            },
            Fixup::Adr => {
                let imm: i64 = off * 4;
                if imm < -0x10_0000 || imm >= 0x10_0000 {
                    proof {
                        lemma_fixups_err_sticky(w0, label_pos@, fixups@, i as int + 1);
                    }
                    return Err(FinishFault::AdrTooFar);
                }
                let immlo = (imm as u32) & 0x3;
                let immhi = ((imm as u32) >> 2) & 0x7_FFFF;
                let w = words[at] | ((immlo << 29) | (immhi << 5));
                words.set(at, w);
            },
            Fixup::TableRel(base) => {
                let base_pos = match label_pos[base] {
                    Some(b) => b,
                    None => {
                        proof {
                            lemma_fixups_err_sticky(w0, label_pos@, fixups@, i as int + 1);
                        }
                        return Err(FinishFault::UnplacedTable);
                    },
                };
                let off_bytes: i64 = (target as i64 - base_pos as i64) * 4;
                words.set(at, off_bytes as u32);
            },
        }
        i += 1;
    }
    proof {
        assert(fixups@.take(fixups.len() as int) =~= fixups@);
    }
    Ok(())
}

/// The string-pool ADR fixups, in order, applied to `words` in place.
fn apply_string_fixups(words: &mut Vec<u32>, strings: &Vec<Vec<u8>>, code_bytes: usize, adr_fixups: &Vec<(usize, usize)>) -> (r:
    Result<(), FinishFault>)
    requires
        code_bytes == old(words).len() * 4,
        code_bytes + total_len(strings@) <= usize::MAX,
        code_bytes + total_len(strings@) <= i64::MAX,
        forall|i: int|
            0 <= i < adr_fixups.len() ==> (#[trigger] adr_fixups@[i]).0 < old(words).len() && adr_fixups@[i].1
                < strings.len(),
    ensures
        final(words).len() == old(words).len(),
        match apply_adr_fixups(old(words)@, strings@, code_bytes as int, adr_fixups@) {
            Ok(ws) => r is Ok && final(words)@ == ws,
            Err(f) => r == Err::<(), FinishFault>(f),
        },
{
    let ghost w0 = words@;
    let n = words.len();
    let mut str_offsets: Vec<usize> = Vec::new();
    let mut cursor = code_bytes;
    let mut si: usize = 0;
    while si < strings.len()
        invariant
            si <= strings.len(),
            code_bytes + total_len(strings@) <= usize::MAX,
            str_offsets.len() == si,
            cursor == code_bytes + total_len(strings@.take(si as int)),
            forall|k: int| 0 <= k < si ==> #[trigger] str_offsets@[k] == code_bytes + total_len(strings@.take(k)),
        decreases strings.len() - si,
    {
        proof {
            assert(strings@.take(si as int + 1).drop_last() =~= strings@.take(si as int));
            lemma_total_len_take(strings@, si as int + 1);
        }
        str_offsets.push(cursor);
        cursor = cursor + strings[si].len();
        si += 1;
    }
    let mut i: usize = 0;
    while i < adr_fixups.len()
        invariant
            i <= adr_fixups.len(),
            words.len() == n,
            code_bytes == n * 4,
            code_bytes + total_len(strings@) <= i64::MAX,
            str_offsets.len() == strings.len(),
            forall|k: int|
                0 <= k < strings.len() ==> #[trigger] str_offsets@[k] == code_bytes + total_len(strings@.take(k)),
            forall|k: int|
                0 <= k < adr_fixups.len() ==> (#[trigger] adr_fixups@[k]).0 < n && adr_fixups@[k].1 < strings.len(),
            w0 == old(words)@,
            n == old(words).len(),
            apply_adr_fixups(w0, strings@, code_bytes as int, adr_fixups@.take(i as int)) == Ok::<
                Seq<u32>,
                FinishFault,
            >(words@),
        decreases adr_fixups.len() - i,
    {
        let (at, sidx) = adr_fixups[i];
        proof {
            assert(adr_fixups@.take(i as int + 1).drop_last() =~= adr_fixups@.take(i as int));
            assert(adr_fixups@.take(i as int + 1).last() == adr_fixups@[i as int]);
            lemma_total_len_take(strings@, sidx as int);
        }
        let imm: i64 = str_offsets[sidx] as i64 - (at * 4) as i64;
        if imm < -0x10_0000 || imm >= 0x10_0000 {
            proof {
                lemma_adr_err_sticky(w0, strings@, code_bytes as int, adr_fixups@, i as int + 1);
            }
            return Err(FinishFault::StringTooFar);
        }
        let immlo = (imm as u32) & 0x3;
        let immhi = ((imm as u32) >> 2) & 0x7_FFFF;
        let w = words[at] | ((immlo << 29) | (immhi << 5));
        words.set(at, w);
        i += 1;
    }
    proof {
        assert(adr_fixups@.take(adr_fixups.len() as int) =~= adr_fixups@);
    }
    Ok(())
}


// ---- the Mach-O relocatable object (arm64) ----

pub const RELOC_BRANCH26: u32 = 2;
pub const RELOC_PAGE21: u32 = 3;
pub const RELOC_PAGEOFF12: u32 = 4;

/// A halfword as its two little-endian bytes.
pub open spec fn le16(v: u16) -> Seq<u8> {
    seq![(v & 0xFF) as u8, ((v >> 8u16) & 0xFF) as u8]
}

/// A doubleword as its eight little-endian bytes.
pub open spec fn le64(v: u64) -> Seq<u8> {
    le32((v & 0xFFFF_FFFF) as u32) + le32((v >> 32u64) as u32)
}

/// `n` zero bytes.
pub open spec fn zeros(n: int) -> Seq<u8> {
    Seq::new(n as nat, |i: int| 0u8)
}

/// A 16-byte name field: the first 16 bytes of `name`, zero-padded.
pub open spec fn name16(name: Seq<u8>) -> Seq<u8> {
    let n = if name.len() < 16 { name.len() as int } else { 16 };
    name.take(n) + zeros(16 - n)
}

/// `n` rounded up to a multiple of 8.
pub open spec fn round8(n: int) -> int {
    ((n + 7) / 8) * 8
}

pub fn align8(n: usize) -> (r: usize)
    requires
        n + 7 <= usize::MAX,
    ensures
        r == round8(n as int),
{
    let m = n + 7;
    let r = m & !7usize;
    assert(m & !7usize == (m / 8) * 8) by (bit_vector);
    r
}

pub fn align16(n: u32) -> (r: u32)
    requires
        n + 15 <= u32::MAX,
    ensures
        r == ((n + 15) / 16) * 16,
{
    let m = n + 15;
    assert(m & !15u32 == (m / 16) * 16) by (bit_vector);
    m & !15u32
}

pub fn put_u16(b: &mut Vec<u8>, v: u16)
    ensures
        final(b)@ == old(b)@ + le16(v),
{
    b.push((v & 0xFF) as u8);
    b.push(((v >> 8) & 0xFF) as u8);
    proof {
        assert(b@ =~= old(b)@ + le16(v));
    }
}

pub fn put_u32(b: &mut Vec<u8>, v: u32)
    ensures
        final(b)@ == old(b)@ + le32(v),
{
    b.push((v & 0xFF) as u8);
    b.push(((v >> 8) & 0xFF) as u8);
    b.push(((v >> 16) & 0xFF) as u8);
    b.push(((v >> 24) & 0xFF) as u8);
    proof {
        assert(b@ =~= old(b)@ + le32(v));
    }
}

pub fn put_u64(b: &mut Vec<u8>, v: u64)
    ensures
        final(b)@ == old(b)@ + le64(v),
{
    put_u32(b, (v & 0xFFFF_FFFF) as u32);
    put_u32(b, (v >> 32) as u32);
    proof {
        assert(b@ =~= old(b)@ + le64(v));
    }
}

/// Appends `name` as a 16-byte, zero-padded field (truncated past 16 bytes).
pub fn put_name16(b: &mut Vec<u8>, name: &str)
    ensures
        final(b)@ == old(b)@ + name16(name.spec_bytes()),
{
    let bytes = name.as_bytes();
    let n = if bytes.len() < 16 {
        bytes.len()
    } else {
        16
    };
    let mut i: usize = 0;
    while i < 16
        invariant
            i <= 16,
            n <= 16,
            n <= bytes@.len(),
            bytes@ == name.spec_bytes(),
            n == (if bytes@.len() < 16 { bytes@.len() as int } else { 16 }),
            b@ == old(b)@ + (bytes@.take(n as int) + zeros(16 - n)).take(i as int),
        decreases 16 - i,
    {
        let ghost before = b@;
        if i < n {
            b.push(bytes[i]);
        } else {
            b.push(0);
        }
        proof {
            let full = bytes@.take(n as int) + zeros(16 - n);
            assert(full.take(i as int + 1) =~= full.take(i as int).push(full[i as int]));
            assert(b@ =~= old(b)@ + full.take(i as int + 1));
        }
        i += 1;
    }
    proof {
        let full = bytes@.take(n as int) + zeros(16 - n);
        assert(full.take(16) =~= full);
    }
}

/// Appends zero bytes until `b` holds `len` bytes.
fn pad_to(b: &mut Vec<u8>, len: usize)
    requires
        old(b).len() <= len,
    ensures
        final(b)@ == old(b)@ + zeros(len - old(b).len()),
{
    while b.len() < len
        invariant
            old(b).len() <= b.len() <= len,
            b@ == old(b)@ + zeros(b.len() - old(b).len()),
        decreases len - b.len(),
    {
        b.push(0);
        proof {
            assert(b@ =~= old(b)@ + zeros(b.len() - old(b).len()));
        }
    }
}

/// The Mach-O header: 64-bit arm64 object with four load commands.
pub open spec fn macho_header(sizeofcmds: u32) -> Seq<u8> {
    le32(0xFEED_FACF) + le32(0x0100_000C) + le32(0) + le32(1) + le32(4) + le32(sizeofcmds) + le32(0) + le32(0)
}

/// LC_SEGMENT_64 with its one `__TEXT,__text` section.
pub open spec fn segment_cmd(text_len: u64, code_off: u64, reloc_off: u32, nreloc: u32) -> Seq<u8> {
    le32(0x19) + le32(152) + name16("".spec_bytes()) + le64(0) + le64(text_len) + le64(code_off) + le64(text_len)
        + le32(7) + le32(7) + le32(1) + le32(0) + name16("__text".spec_bytes()) + name16(
        "__TEXT".spec_bytes(),
    ) + le64(0) + le64(text_len) + le32(code_off as u32) + le32(2) + le32(reloc_off) + le32(nreloc) + le32(
        0x0000_0400,
    ) + le32(0) + le32(0) + le32(0)
}

/// LC_SYMTAB.
pub open spec fn symtab_cmd(sym_off: u32, nsyms: u32, str_off: u32, strsize: u32) -> Seq<u8> {
    le32(0x02) + le32(24) + le32(sym_off) + le32(nsyms) + le32(str_off) + le32(strsize)
}

/// LC_DYSYMTAB: the defined symbols are external definitions, the rest undefined.
pub open spec fn dysymtab_cmd(ndefined: u32, nundef: u32) -> Seq<u8> {
    le32(0x0B) + le32(80) + le32(0) + le32(0) + le32(0) + le32(ndefined) + le32(ndefined) + le32(nundef) + zero_words(12)
}

/// LC_BUILD_VERSION: macOS 11.0, no tools.
pub open spec fn build_cmd() -> Seq<u8> {
    le32(0x32) + le32(24) + le32(1) + le32(0x000B_0000) + le32(0x000B_0000) + le32(0)
}

/// A relocation entry: address, then symbol index, pc-relative bit, length 2,
/// extern bit and type.
pub open spec fn reloc_entry(r: (u32, u32, u32, bool)) -> Seq<u8> {
    let (addr, sym, rtype, pcrel) = r;
    le32(addr) + le32(
        (sym & 0x00FF_FFFFu32) | ((if pcrel { 1u32 } else { 0u32 }) << 24u32) | (2u32 << 25u32) | (1u32
            << 27u32) | (rtype << 28u32),
    )
}

pub open spec fn reloc_entries(rs: Seq<(u32, u32, u32, bool)>) -> Seq<u8>
    decreases rs.len(),
{
    if rs.len() == 0 {
        seq![]
    } else {
        reloc_entries(rs.drop_last()) + reloc_entry(rs.last())
    }
}

/// An `nlist_64` symbol entry.
pub open spec fn nlist(strx: u32, n_type: u8, n_sect: u8, n_desc: u16, value: u64) -> Seq<u8> {
    le32(strx) + seq![n_type, n_sect] + le16(n_desc) + le64(value)
}

/// The bytes of every name, each followed by a NUL.
pub open spec fn names_z(ns: Seq<Seq<u8>>) -> Seq<u8>
    decreases ns.len(),
{
    if ns.len() == 0 {
        seq![]
    } else {
        names_z(ns.drop_last()) + ns.last() + seq![0u8]
    }
}

/// The string table: a leading NUL, then each name NUL-terminated.
pub open spec fn strtab(ns: Seq<Seq<u8>>) -> Seq<u8> {
    seq![0u8] + names_z(ns)
}

/// The string-table index of name `i`.
pub open spec fn strx(ns: Seq<Seq<u8>>, i: int) -> u32 {
    (1 + names_z(ns.take(i)).len()) as u32
}

pub open spec fn defined_names(d: Seq<(String, u64)>) -> Seq<Seq<u8>> {
    d.map_values(|x: (String, u64)| vstd::utf8::encode_utf8(x.0@))
}

pub open spec fn common_names(c: Seq<(String, u64, u32)>) -> Seq<Seq<u8>> {
    c.map_values(|x: (String, u64, u32)| vstd::utf8::encode_utf8(x.0@))
}

pub open spec fn extern_names(e: Seq<&str>) -> Seq<Seq<u8>> {
    e.map_values(|x: &str| x.spec_bytes())
}

/// All symbol names in table order: defined, common, external.
pub open spec fn all_names(d: Seq<(String, u64)>, c: Seq<(String, u64, u32)>, e: Seq<&str>) -> Seq<Seq<u8>> {
    defined_names(d) + common_names(c) + extern_names(e)
}

/// The pieces one after another.
pub open spec fn concat_all(parts: Seq<Seq<u8>>) -> Seq<u8>
    decreases parts.len(),
{
    if parts.len() == 0 {
        seq![]
    } else {
        concat_all(parts.drop_last()) + parts.last()
    }
}

/// `k` zero words.
pub open spec fn zero_words(k: nat) -> Seq<u8>
    decreases k,
{
    if k == 0 {
        seq![]
    } else {
        zero_words((k - 1) as nat) + le32(0)
    }
}

/// The symbol entries: defined (in section 1), common (undefined, with a size
/// and an alignment), external (undefined).
pub open spec fn symbol_entries(ns: Seq<Seq<u8>>, d: Seq<(String, u64)>, c: Seq<(String, u64, u32)>, e: Seq<&str>) -> Seq<
    u8,
> {
    concat_all(Seq::new(d.len(), |i: int| nlist(strx(ns, i), 0x0F, 1, 0, d[i].1))) + concat_all(
        Seq::new(
            c.len(),
            |i: int| nlist(strx(ns, d.len() + i), 0x01, 0, ((c[i].2 & 0xFu32) << 8u32) as u16, c[i].1),
        ),
    ) + concat_all(Seq::new(e.len(), |i: int| nlist(strx(ns, d.len() + c.len() + i), 0x01, 0, 0, 0)))
}

/// The layout offsets of the object: code, relocations, symbols, strings.
pub open spec fn macho_reloc_off(text_len: int) -> int {
    round8(312 + text_len)
}

pub open spec fn macho_sym_off(text_len: int, nreloc: int) -> int {
    round8(macho_reloc_off(text_len) + nreloc * 8)
}

pub open spec fn macho_str_off(text_len: int, nreloc: int, nsyms: int) -> int {
    macho_sym_off(text_len, nreloc) + nsyms * 16
}

/// The whole object: header, load commands, text, relocations, symbols, strings.
pub open spec fn macho_bytes(
    text: Seq<u8>,
    d: Seq<(String, u64)>,
    c: Seq<(String, u64, u32)>,
    e: Seq<&str>,
    rs: Seq<(u32, u32, u32, bool)>,
) -> Seq<u8> {
    let ns = all_names(d, c, e);
    let nsyms = d.len() + c.len() + e.len();
    let ro = macho_reloc_off(text.len() as int);
    let so = macho_sym_off(text.len() as int, rs.len() as int);
    macho_header(280) + segment_cmd(text.len() as u64, 312, ro as u32, rs.len() as u32) + symtab_cmd(
        so as u32,
        nsyms as u32,
        macho_str_off(text.len() as int, rs.len() as int, nsyms as int) as u32,
        strtab(ns).len() as u32,
    ) + dysymtab_cmd(d.len() as u32, (c.len() + e.len()) as u32) + build_cmd() + text + zeros(
        ro - (312 + text.len()),
    ) + reloc_entries(rs) + zeros(so - (ro + rs.len() * 8)) + symbol_entries(ns, d, c, e) + strtab(ns)
}

/// Appends the NUL-terminated `bytes` to the string table; returns where they start.
fn append_name(tab: &mut Vec<u8>, bytes: &[u8]) -> (at: u32)
    requires
        old(tab).len() + bytes.len() + 1 <= usize::MAX,
    ensures
        at == old(tab).len() as u32,
        final(tab)@ == old(tab)@ + bytes@ + seq![0u8],
{
    let at = tab.len() as u32;
    let mut i: usize = 0;
    while i < bytes.len()
        invariant
            i <= bytes.len(),
            tab@ == old(tab)@ + bytes@.take(i as int),
        decreases bytes.len() - i,
    {
        tab.push(bytes[i]);
        proof {
            assert(bytes@.take(i as int + 1) =~= bytes@.take(i as int).push(bytes@[i as int]));
            assert(tab@ =~= old(tab)@ + bytes@.take(i as int + 1));
        }
        i += 1;
    }
    tab.push(0);
    proof {
        assert(bytes@.take(bytes.len() as int) =~= bytes@);
        assert(tab@ =~= old(tab)@ + bytes@ + seq![0u8]);
    }
    at
}

/// Appends one `nlist_64` entry.
fn put_nlist(b: &mut Vec<u8>, strx: u32, n_type: u8, n_sect: u8, n_desc: u16, value: u64)
    ensures
        final(b)@ == old(b)@ + nlist(strx, n_type, n_sect, n_desc, value),
{
    put_u32(b, strx);
    b.push(n_type);
    b.push(n_sect);
    put_u16(b, n_desc);
    put_u64(b, value);
    proof {
        assert(b@ =~= old(b)@ + nlist(strx, n_type, n_sect, n_desc, value));
    }
}

/// Builds the string table and the index of each name in it.
fn build_strtab(d: &[(String, u64)], c: &[(String, u64, u32)], e: &[&str]) -> (r: (Vec<u8>, Vec<u32>))
    requires
        d.len() + c.len() + e.len() <= u32::MAX,
        1 + names_z(all_names(d@, c@, e@)).len() <= usize::MAX,
    ensures
        r.0@ == strtab(all_names(d@, c@, e@)),
        r.1.len() == d.len() + c.len() + e.len(),
        forall|i: int| 0 <= i < r.1.len() ==> #[trigger] r.1@[i] == strx(all_names(d@, c@, e@), i),
{
    let ghost ns = all_names(d@, c@, e@);
    let mut tab: Vec<u8> = Vec::new();
    tab.push(0);
    let mut xs: Vec<u32> = Vec::new();
    let mut k: usize = 0;
    proof {
        assert(tab@ =~= strtab(ns.take(0)));
    }
    // Defined names, then common, then external: the symbol-table order.
    while k < d.len() + c.len() + e.len()
        invariant
            k <= d.len() + c.len() + e.len(),
            d.len() + c.len() + e.len() <= u32::MAX,
            ns == all_names(d@, c@, e@),
            ns.len() == d.len() + c.len() + e.len(),
            1 + names_z(ns).len() <= usize::MAX,
            tab@ == strtab(ns.take(k as int)),
            xs.len() == k,
            forall|i: int| 0 <= i < k ==> #[trigger] xs@[i] == strx(ns, i),
        decreases d.len() + c.len() + e.len() - k,
    {
        proof {
            lemma_names_z_prefix(ns, k as int + 1);
            assert(ns.take(k as int + 1).drop_last() =~= ns.take(k as int));
            assert(ns.take(k as int + 1).take(k as int) =~= ns.take(k as int));
        }
        let at;
        if k < d.len() {
            let name = d[k].0.as_str();
            proof {
                assert(ns[k as int] == name.spec_bytes());
            }
            at = append_name(&mut tab, name.as_bytes());
        } else if k < d.len() + c.len() {
            let name = c[k - d.len()].0.as_str();
            proof {
                assert(ns[k as int] == name.spec_bytes());
            }
            at = append_name(&mut tab, name.as_bytes());
        } else {
            let name = e[k - d.len() - c.len()];
            proof {
                assert(ns[k as int] == name.spec_bytes());
            }
            at = append_name(&mut tab, name.as_bytes());
        }
        xs.push(at);
        proof {
            assert(tab@ =~= strtab(ns.take(k as int + 1)));
            assert(xs@[k as int] == strx(ns, k as int));
        }
        k += 1;
    }
    proof {
        assert(ns.take(ns.len() as int) =~= ns);
    }
    (tab, xs)
}

/// A prefix's names are no longer than all of them.
proof fn lemma_names_z_prefix(ns: Seq<Seq<u8>>, i: int)
    requires
        0 <= i <= ns.len(),
    ensures
        names_z(ns.take(i)).len() <= names_z(ns).len(),
    decreases ns.len() - i,
{
    if i < ns.len() {
        assert(ns.take(i + 1).drop_last() =~= ns.take(i));
        lemma_names_z_prefix(ns, i + 1);
    } else {
        assert(ns.take(i) =~= ns);
    }
}

proof fn lemma_round8(n: int)
    requires
        0 <= n,
    ensures
        n <= round8(n) < n + 8,
{
    assert(n <= ((n + 7) / 8) * 8 < n + 8) by (nonlinear_arith)
        requires
            0 <= n,
    ;
}

/// The segment command's fixed part, up to its section header.
pub open spec fn segment_head(text_len: u64, code_off: u64) -> Seq<u8> {
    le32(0x19) + le32(152) + name16("".spec_bytes()) + le64(0) + le64(text_len) + le64(code_off) + le64(text_len)
        + le32(7) + le32(7) + le32(1) + le32(0)
}

/// The `__TEXT,__text` section header.
pub open spec fn text_section(text_len: u64, code_off: u64, reloc_off: u32, nreloc: u32) -> Seq<u8> {
    name16("__text".spec_bytes()) + name16("__TEXT".spec_bytes()) + le64(0) + le64(text_len) + le32(
        code_off as u32,
    ) + le32(2) + le32(reloc_off) + le32(nreloc) + le32(0x0000_0400) + le32(0) + le32(0) + le32(0)
}

fn put_segment_head(b: &mut Vec<u8>, text_len: usize)
    ensures
        final(b)@ == old(b)@ + segment_head(text_len as u64, 312),
{
    put_u32(b, 0x19);
    put_u32(b, 152);
    put_name16(b, "");
    let ghost m1 = b@;
    put_u64(b, 0);
    put_u64(b, text_len as u64);
    put_u64(b, 312);
    put_u64(b, text_len as u64);
    let ghost m2 = b@;
    put_u32(b, 7);
    put_u32(b, 7);
    put_u32(b, 1);
    put_u32(b, 0);
    proof {
        assert(m1 =~= old(b)@ + (le32(0x19) + le32(152) + name16("".spec_bytes())));
        assert(m2 =~= m1 + (le64(0) + le64(text_len as u64) + le64(312) + le64(text_len as u64)));
        assert(b@ =~= m2 + (le32(7) + le32(7) + le32(1) + le32(0)));
        assert(b@ =~= old(b)@ + segment_head(text_len as u64, 312));
    }
}

fn put_text_section(b: &mut Vec<u8>, text_len: usize, reloc_off: usize, nreloc: usize)
    ensures
        final(b)@ == old(b)@ + text_section(text_len as u64, 312, reloc_off as u32, nreloc as u32),
{
    put_name16(b, "__text");
    put_name16(b, "__TEXT");
    put_u64(b, 0);
    put_u64(b, text_len as u64);
    let ghost m1 = b@;
    put_u32(b, 312);
    put_u32(b, 2);
    put_u32(b, reloc_off as u32);
    put_u32(b, nreloc as u32);
    let ghost m2 = b@;
    put_u32(b, 0x0000_0400);
    put_u32(b, 0);
    put_u32(b, 0);
    put_u32(b, 0);
    proof {
        assert(m1 =~= old(b)@ + (name16("__text".spec_bytes()) + name16("__TEXT".spec_bytes()) + le64(0)
            + le64(text_len as u64)));
        assert(m2 =~= m1 + (le32(312) + le32(2) + le32(reloc_off as u32) + le32(nreloc as u32)));
        assert(b@ =~= m2 + (le32(0x0000_0400) + le32(0) + le32(0) + le32(0)));
        assert(b@ =~= old(b)@ + text_section(text_len as u64, 312, reloc_off as u32, nreloc as u32));
    }
}

fn put_segment_cmd(b: &mut Vec<u8>, text_len: usize, reloc_off: usize, nreloc: usize)
    ensures
        final(b)@ == old(b)@ + segment_cmd(text_len as u64, 312, reloc_off as u32, nreloc as u32),
{
    put_segment_head(b, text_len);
    put_text_section(b, text_len, reloc_off, nreloc);
    proof {
        assert(segment_cmd(text_len as u64, 312, reloc_off as u32, nreloc as u32) =~= segment_head(
            text_len as u64,
            312,
        ) + text_section(text_len as u64, 312, reloc_off as u32, nreloc as u32));
        assert(b@ =~= old(b)@ + segment_cmd(text_len as u64, 312, reloc_off as u32, nreloc as u32));
    }
}

fn put_symtab_cmds(b: &mut Vec<u8>, sym_off: u32, nsyms: u32, str_off: u32, strsize: u32, ndefined: u32, nundef: u32)
    ensures
        final(b)@ == old(b)@ + symtab_cmd(sym_off, nsyms, str_off, strsize) + dysymtab_cmd(ndefined, nundef)
            + build_cmd(),
{
    put_u32(b, 0x02);
    put_u32(b, 24);
    put_u32(b, sym_off);
    put_u32(b, nsyms);
    put_u32(b, str_off);
    put_u32(b, strsize);
    let ghost mid = b@;
    proof {
        assert(mid =~= old(b)@ + symtab_cmd(sym_off, nsyms, str_off, strsize));
    }
    put_u32(b, 0x0B);
    put_u32(b, 80);
    put_u32(b, 0);
    put_u32(b, 0);
    let ghost q = b@;
    put_u32(b, 0);
    put_u32(b, ndefined);
    put_u32(b, ndefined);
    put_u32(b, nundef);
    let ghost before_zeros = b@;
    proof {
        assert(q =~= mid + (le32(0x0B) + le32(80) + le32(0) + le32(0)));
        assert(before_zeros =~= q + (le32(0) + le32(ndefined) + le32(ndefined) + le32(nundef)));
    }
    let mut k: usize = 0;
    while k < 12
        invariant
            k <= 12,
            b@ == before_zeros + zero_words(k as nat),
        decreases 12 - k,
    {
        put_u32(b, 0);
        k += 1;
        proof {
            assert(b@ =~= before_zeros + zero_words(k as nat));
        }
    }
    let ghost mid2 = b@;
    proof {
        assert(mid2 =~= mid + dysymtab_cmd(ndefined, nundef));
    }
    put_u32(b, 0x32);
    put_u32(b, 24);
    put_u32(b, 1);
    put_u32(b, 0x000B_0000);
    put_u32(b, 0x000B_0000);
    put_u32(b, 0);
    proof {
        assert(b@ =~= mid2 + build_cmd());
    }
}

/// Appends `bytes`.
fn put_bytes(b: &mut Vec<u8>, bytes: &[u8])
    ensures
        final(b)@ == old(b)@ + bytes@,
{
    let mut i: usize = 0;
    while i < bytes.len()
        invariant
            i <= bytes.len(),
            b@ == old(b)@ + bytes@.take(i as int),
        decreases bytes.len() - i,
    {
        b.push(bytes[i]);
        proof {
            assert(bytes@.take(i as int + 1) =~= bytes@.take(i as int).push(bytes@[i as int]));
            assert(b@ =~= old(b)@ + bytes@.take(i as int + 1));
        }
        i += 1;
    }
    proof {
        assert(bytes@.take(bytes.len() as int) =~= bytes@);
    }
}

fn put_relocs(b: &mut Vec<u8>, relocs: &[(u32, u32, u32, bool)])
    ensures
        final(b)@ == old(b)@ + reloc_entries(relocs@),
{
    let mut ri: usize = 0;
    while ri < relocs.len()
        invariant
            ri <= relocs.len(),
            b@ == old(b)@ + reloc_entries(relocs@.take(ri as int)),
        decreases relocs.len() - ri,
    {
        let (addr, sym, rtype, pcrel) = relocs[ri];
        put_u32(b, addr);
        let pc: u32 = if pcrel {
            1
        } else {
            0
        };
        let packed = (sym & 0x00FF_FFFF) | (pc << 24) | (2 << 25) | (1 << 27) | (rtype << 28);
        put_u32(b, packed);
        proof {
            assert(relocs@.take(ri as int + 1).drop_last() =~= relocs@.take(ri as int));
            assert(b@ =~= old(b)@ + reloc_entries(relocs@.take(ri as int + 1)));
        }
        ri += 1;
    }
    proof {
        assert(relocs@.take(relocs.len() as int) =~= relocs@);
    }
}

/// The symbol entries, given each name's string-table index.
fn put_symbols(b: &mut Vec<u8>, strxs: &Vec<u32>, d: &[(String, u64)], c: &[(String, u64, u32)], e: &[&str])
    requires
        strxs.len() == d.len() + c.len() + e.len(),
        forall|j: int| 0 <= j < strxs.len() ==> #[trigger] strxs@[j] == strx(all_names(d@, c@, e@), j),
    ensures
        final(b)@ == old(b)@ + symbol_entries(all_names(d@, c@, e@), d@, c@, e@),
{
    let ghost ns = all_names(d@, c@, e@);
    let ghost dsyms = Seq::new(d.len() as nat, |k: int| nlist(strx(ns, k), 0x0F, 1, 0, d@[k].1));
    let mut k: usize = 0;
    while k < d.len()
        invariant
            k <= d.len(),
            strxs.len() == d.len() + c.len() + e.len(),
            forall|j: int| 0 <= j < strxs.len() ==> #[trigger] strxs@[j] == strx(ns, j),
            dsyms == Seq::new(d.len() as nat, |k: int| nlist(strx(ns, k), 0x0F, 1, 0, d@[k].1)),
            b@ == old(b)@ + concat_all(dsyms.take(k as int)),
        decreases d.len() - k,
    {
        put_nlist(b, strxs[k], 0x0F, 1, 0, d[k].1);
        proof {
            assert(dsyms.take(k as int + 1).drop_last() =~= dsyms.take(k as int));
            assert(dsyms.take(k as int + 1).last() == dsyms[k as int]);
        }
        k += 1;
    }
    proof {
        assert(dsyms.take(d.len() as int) =~= dsyms);
    }
    let ghost after_d = b@;
    let ghost csyms = Seq::new(
        c.len() as nat,
        |k: int| nlist(strx(ns, d.len() + k), 0x01, 0, ((c@[k].2 & 0xFu32) << 8u32) as u16, c@[k].1),
    );
    let mut k: usize = 0;
    while k < c.len()
        invariant
            k <= c.len(),
            strxs.len() == d.len() + c.len() + e.len(),
            forall|j: int| 0 <= j < strxs.len() ==> #[trigger] strxs@[j] == strx(ns, j),
            csyms == Seq::new(
                c.len() as nat,
                |k: int| nlist(strx(ns, d.len() + k), 0x01, 0, ((c@[k].2 & 0xFu32) << 8u32) as u16, c@[k].1),
            ),
            b@ == after_d + concat_all(csyms.take(k as int)),
        decreases c.len() - k,
    {
        let size: u64 = c[k].1;
        let align_log2: u32 = c[k].2;
        put_nlist(b, strxs[d.len() + k], 0x01, 0, ((align_log2 & 0xF) << 8) as u16, size);
        proof {
            assert(csyms.take(k as int + 1).drop_last() =~= csyms.take(k as int));
            assert(csyms.take(k as int + 1).last() == csyms[k as int]);
        }
        k += 1;
    }
    proof {
        assert(csyms.take(c.len() as int) =~= csyms);
    }
    let ghost after_c = b@;
    let ghost esyms = Seq::new(e.len() as nat, |k: int| nlist(strx(ns, d.len() + c.len() + k), 0x01, 0, 0, 0));
    let mut k: usize = 0;
    while k < e.len()
        invariant
            k <= e.len(),
            strxs.len() == d.len() + c.len() + e.len(),
            forall|j: int| 0 <= j < strxs.len() ==> #[trigger] strxs@[j] == strx(ns, j),
            esyms == Seq::new(e.len() as nat, |k: int| nlist(strx(ns, d.len() + c.len() + k), 0x01, 0, 0, 0)),
            b@ == after_c + concat_all(esyms.take(k as int)),
        decreases e.len() - k,
    {
        put_nlist(b, strxs[d.len() + c.len() + k], 0x01, 0, 0, 0);
        proof {
            assert(esyms.take(k as int + 1).drop_last() =~= esyms.take(k as int));
            assert(esyms.take(k as int + 1).last() == esyms[k as int]);
        }
        k += 1;
    }
    proof {
        assert(esyms.take(e.len() as int) =~= esyms);
        assert(b@ =~= old(b)@ + symbol_entries(ns, d@, c@, e@));
    }
}

/// Builds the Mach-O relocatable object. Symbols are laid out as: defined
/// (`_main` and the functions, in `__text`), then the common globals, then the
/// undefined externals, matching the indices the relocations were built with.
/// Globals are common symbols (value = size), so the linker allocates them.
#[verifier::spinoff_prover]
#[verifier::rlimit(80)]
pub fn write_macho_object(
    text: &[u8],
    defined: &[(String, u64)],
    commons: &[(String, u64, u32)],
    externs: &[&str],
    relocs: &[(u32, u32, u32, bool)],
) -> (b: Vec<u8>)
    requires
        defined.len() + commons.len() + externs.len() <= u32::MAX,
        macho_str_off(text.len() as int, relocs.len() as int, (defined.len() + commons.len() + externs.len()) as int)
            + strtab(all_names(defined@, commons@, externs@)).len() <= usize::MAX,
    ensures
        b@ == macho_bytes(text@, defined@, commons@, externs@, relocs@),
{
    let ghost ns = all_names(defined@, commons@, externs@);
    proof {
        lemma_round8(312 + text.len());
        lemma_round8(macho_reloc_off(text.len() as int) + relocs.len() * 8);
    }
    let (strtab_v, strxs) = build_strtab(defined, commons, externs);
    let nsyms: u32 = defined.len() as u32 + commons.len() as u32 + externs.len() as u32;
    let nundef: u32 = commons.len() as u32 + externs.len() as u32;
    let code_off: usize = 312;
    let reloc_off = align8(code_off + text.len());
    let nreloc = relocs.len();
    let sym_off = align8(reloc_off + nreloc * 8);
    let str_off = sym_off + (nsyms as usize) * 16;

    let mut b: Vec<u8> = Vec::new();
    put_u32(&mut b, 0xFEED_FACF);
    put_u32(&mut b, 0x0100_000C);
    put_u32(&mut b, 0x0000_0000);
    put_u32(&mut b, 1);
    put_u32(&mut b, 4);
    put_u32(&mut b, 280);
    put_u32(&mut b, 0);
    put_u32(&mut b, 0);
    proof {
        assert(b@ =~= macho_header(280));
    }
    put_segment_cmd(&mut b, text.len(), reloc_off, nreloc);
    let ghost p1 = b@;
    put_symtab_cmds(
        &mut b,
        sym_off as u32,
        nsyms,
        str_off as u32,
        strtab_v.len() as u32,
        defined.len() as u32,
        nundef,
    );
    let ghost p2 = b@;
    proof {
        lemma_zero_words_len(12);
        assert(p1.len() == 184);
        assert(p2.len() == 312);
    }
    put_bytes(&mut b, text);
    let ghost p3 = b@;
    pad_to(&mut b, reloc_off);
    let ghost p4 = b@;
    put_relocs(&mut b, relocs);
    proof {
        lemma_reloc_entries_len(relocs@);
    }
    let ghost p5 = b@;
    pad_to(&mut b, sym_off);
    let ghost p6 = b@;
    put_symbols(&mut b, &strxs, defined, commons, externs);
    let ghost p7 = b@;
    put_bytes(&mut b, strtab_v.as_slice());
    proof {
        let ro = macho_reloc_off(text.len() as int);
        let so = macho_sym_off(text.len() as int, relocs.len() as int);
        assert(p7 == p6 + symbol_entries(ns, defined@, commons@, externs@));
        assert(p6 == p5 + zeros(so - (ro + relocs.len() * 8)));
        assert(p4 == p3 + zeros(ro - (312 + text.len())));
        assert(b@ == macho_bytes(text@, defined@, commons@, externs@, relocs@));
    }
    b
}

proof fn lemma_zero_words_len(k: nat)
    ensures
        zero_words(k).len() == 4 * k,
    decreases k,
{
    if k > 0 {
        lemma_zero_words_len((k - 1) as nat);
    }
}

proof fn lemma_reloc_entries_len(rs: Seq<(u32, u32, u32, bool)>)
    ensures
        reloc_entries(rs).len() == rs.len() * 8,
    decreases rs.len(),
{
    if rs.len() > 0 {
        lemma_reloc_entries_len(rs.drop_last());
    }
}


/// The external symbols the relocations name, each once, in first-reference order.
pub open spec fn extern_order(rs: Seq<(u32, SymRef, RelKind)>) -> Seq<Seq<char>>
    decreases rs.len(),
{
    if rs.len() == 0 {
        seq![]
    } else {
        let prev = extern_order(rs.drop_last());
        match rs.last().1 {
            SymRef::Extern(n) => if prev.contains(n@) {
                prev
            } else {
                prev.push(n@)
            },
            SymRef::Sym(_) => prev,
        }
    }
}

/// The Mach-O relocation type of a kind, and whether it is pc-relative.
pub open spec fn reloc_type(k: RelKind) -> (u32, bool) {
    match k {
        RelKind::Branch26 => (RELOC_BRANCH26, true),
        RelKind::Page21 => (RELOC_PAGE21, true),
        RelKind::PageOff12 => (RELOC_PAGEOFF12, false),
    }
}

/// A relocation with its symbol resolved: externals are numbered from
/// `extern_base` in `externs` order.
pub open spec fn resolved_reloc(r: (u32, SymRef, RelKind), externs: Seq<Seq<char>>, extern_base: u32) -> (
    u32,
    u32,
    u32,
    bool,
) {
    let s: u32 = match r.1 {
        SymRef::Extern(n) => (extern_base + externs.index_of(n@)) as u32,
        SymRef::Sym(i) => i,
    };
    (r.0, s, reloc_type(r.2).0, reloc_type(r.2).1)
}

proof fn lemma_extern_order_bound(rs: Seq<(u32, SymRef, RelKind)>)
    ensures
        extern_order(rs).len() <= rs.len(),
        extern_order(rs).no_duplicates(),
        forall|i: int| 0 <= i < rs.len() ==> (#[trigger] rs[i].1 matches SymRef::Extern(n) ==> extern_order(rs).contains(n@)),
    decreases rs.len(),
{
    if rs.len() > 0 {
        lemma_extern_order_bound(rs.drop_last());
        assert forall|i: int| 0 <= i < rs.len() implies (#[trigger] rs[i].1 matches SymRef::Extern(n) ==> extern_order(
            rs,
        ).contains(n@)) by {
            if i < rs.len() - 1 {
                assert(rs[i] == rs.drop_last()[i]);
                let prev = extern_order(rs.drop_last());
                if let SymRef::Extern(n) = rs[i].1 {
                    assert(prev.contains(n@));
                    let j = choose|j: int| 0 <= j < prev.len() && prev[j] == n@;
                    assert(extern_order(rs)[j] == n@);
                }
            } else {
                if let SymRef::Extern(n) = rs[i].1 {
                    let prev = extern_order(rs.drop_last());
                    if !prev.contains(n@) {
                        assert(extern_order(rs)[prev.len() as int] == n@);
                    }
                }
            }
        }
    }
}

/// The position of `name` among `names`, if it is there.
fn find_name(names: &Vec<&'static str>, name: &str) -> (r: Option<usize>)
    ensures
        match r {
            Some(i) => i < names.len() && names@[i as int]@ == name@ && forall|j: int|
                0 <= j < i ==> (#[trigger] names@[j])@ != name@,
            None => forall|j: int| 0 <= j < names.len() ==> (#[trigger] names@[j])@ != name@,
        },
{
    let mut i: usize = 0;
    while i < names.len()
        invariant
            i <= names.len(),
            forall|j: int| 0 <= j < i ==> (#[trigger] names@[j])@ != name@,
        decreases names.len() - i,
    {
        if str_eq(names[i], name) {
            return Some(i);
        }
        i += 1;
    }
    None
}

/// Resolves the image's relocations for the object writer: the external
/// symbols in first-reference order, and each relocation as (address, symbol
/// index, Mach-O type, pc-relative), externals numbered from `extern_base`.
pub fn resolve_relocs(relocs: &Vec<(u32, SymRef, RelKind)>, extern_base: u32) -> (r: (
    Vec<&'static str>,
    Vec<(u32, u32, u32, bool)>,
))
    requires
        extern_base + relocs.len() <= u32::MAX,
    ensures
        r.0@.map_values(|s: &'static str| s@) == extern_order(relocs@),
        r.1@ == relocs@.map_values(
            |x: (u32, SymRef, RelKind)| resolved_reloc(x, extern_order(relocs@), extern_base),
        ),
{
    let mut externs: Vec<&'static str> = Vec::new();
    let mut i: usize = 0;
    while i < relocs.len()
        invariant
            i <= relocs.len(),
            externs@.map_values(|s: &'static str| s@) == extern_order(relocs@.take(i as int)),
        decreases relocs.len() - i,
    {
        proof {
            assert(relocs@.take(i as int + 1).drop_last() =~= relocs@.take(i as int));
        }
        let ghost before = externs@;
        if let SymRef::Extern(name) = relocs[i].1 {
            match find_name(&externs, name) {
                Some(j) => {
                    proof {
                        assert(extern_order(relocs@.take(i as int)).contains(name@)) by {
                            assert(externs@.map_values(|s: &'static str| s@)[j as int] == name@);
                        }
                    }
                },
                None => {
                    proof {
                        assert(!extern_order(relocs@.take(i as int)).contains(name@)) by {
                            if extern_order(relocs@.take(i as int)).contains(name@) {
                                let k = choose|k: int|
                                    0 <= k < extern_order(relocs@.take(i as int)).len() && extern_order(
                                        relocs@.take(i as int),
                                    )[k] == name@;
                                assert(externs@[k]@ == name@);
                            }
                        }
                    }
                    externs.push(name);
                    proof {
                        assert(externs@.map_values(|s: &'static str| s@) =~= before.map_values(
                            |s: &'static str| s@,
                        ).push(name@));
                    }
                },
            }
        }
        i += 1;
    }
    proof {
        assert(relocs@.take(relocs.len() as int) =~= relocs@);
        lemma_extern_order_bound(relocs@);
    }
    let ghost order = extern_order(relocs@);
    let mut out: Vec<(u32, u32, u32, bool)> = Vec::new();
    let mut k: usize = 0;
    while k < relocs.len()
        invariant
            k <= relocs.len(),
            extern_base + relocs.len() <= u32::MAX,
            order == extern_order(relocs@),
            order.len() <= relocs.len(),
            order.no_duplicates(),
            forall|i: int| 0 <= i < relocs.len() ==> (#[trigger] relocs@[i].1 matches SymRef::Extern(n) ==> order.contains(n@)),
            externs@.map_values(|s: &'static str| s@) == order,
            out@ == relocs@.take(k as int).map_values(
                |x: (u32, SymRef, RelKind)| resolved_reloc(x, order, extern_base),
            ),
        decreases relocs.len() - k,
    {
        let (addr, sym, kind) = relocs[k];
        let s: u32 = match sym {
            SymRef::Extern(name) => {
                let pos = find_name(&externs, name);
                proof {
                    assert(order.contains(name@));
                    let w = choose|w: int| 0 <= w < order.len() && order[w] == name@;
                    assert(externs@[w]@ == name@);
                }
                let p = pos.unwrap();
                proof {
                    assert(order[p as int] == name@);
                    let q = order.index_of(name@);
                    assert(0 <= q < order.len() && order[q] == name@);
                    assert(q == p as int);
                }
                extern_base + p as u32
            },
            SymRef::Sym(i) => i,
        };
        let (ty, pcrel) = match kind {
            RelKind::Branch26 => (RELOC_BRANCH26, true),
            RelKind::Page21 => (RELOC_PAGE21, true),
            RelKind::PageOff12 => (RELOC_PAGEOFF12, false),
        };
        out.push((addr, s, ty, pcrel));
        proof {
            assert(out@ =~= relocs@.take(k as int + 1).map_values(
                |x: (u32, SymRef, RelKind)| resolved_reloc(x, order, extern_base),
            ));
        }
        k += 1;
    }
    proof {
        assert(relocs@.take(relocs.len() as int) =~= relocs@);
    }
    (externs, out)
}


// ---- logical (bitmask) immediates ----

/// `k` low bits set, for `k` in `1..=64`.
pub open spec fn ones(k: u32) -> u64 {
    if k >= 64 {
        0xFFFF_FFFF_FFFF_FFFFu64
    } else {
        ((1u64 << k) - 1) as u64
    }
}

/// The multiplier that copies an element of `e` bits across all 64 bits.
pub open spec fn rep_const(e: u32) -> u64 {
    if e == 2 {
        0x5555_5555_5555_5555u64
    } else if e == 4 {
        0x1111_1111_1111_1111u64
    } else if e == 8 {
        0x0101_0101_0101_0101u64
    } else if e == 16 {
        0x0001_0001_0001_0001u64
    } else if e == 32 {
        0x0000_0001_0000_0001u64
    } else {
        1u64
    }
}

/// The `e`-bit element `x` replicated across 64 bits.
pub open spec fn replicate(x: u64, e: u32) -> u64 {
    (x * rep_const(e)) as u64
}

/// `x` rotated right by `r` within an `e`-bit element.
pub open spec fn ror_e(x: u64, r: u32, e: u32) -> u64 {
    if r == 0 {
        x & ones(e)
    } else {
        ((x >> r) | (x << ((e - r) as u32))) & ones(e)
    }
}

/// The index of the highest set bit of a 7-bit value (0 for 0 or 1).
pub open spec fn hsb7(c: u32) -> u32 {
    if c >= 64 {
        6
    } else if c >= 32 {
        5
    } else if c >= 16 {
        4
    } else if c >= 8 {
        3
    } else if c >= 4 {
        2
    } else if c >= 2 {
        1
    } else {
        0
    }
}

/// The 64-bit value a logical-immediate encoding `N:immr:imms` stands for
/// (DecodeBitMasks): a run of `imms+1` ones rotated right by `immr` within an
/// element of 2, 4, …, 64 bits, replicated; `None` for the reserved encodings.
pub open spec fn decode_logical_imm(n: u32, immr: u32, imms: u32) -> Option<u64> {
    let combined = ((n & 1) << 6u32) | (!imms & 0x3Fu32);
    let len = hsb7(combined);
    if combined == 0 || len == 0 {
        None
    } else {
        let esize: u32 = 1u32 << len;
        let levels: u32 = (esize - 1) as u32;
        let s = imms & levels;
        let r = immr & levels;
        if s == levels {
            None
        } else {
            Some(replicate(ror_e(ones((s + 1) as u32), r, esize), esize))
        }
    }
}

/// The encoding fields for element size `2^li`, run length `s+1`, rotation `r`.
pub open spec fn logical_fields(li: u32, s: u32, r: u32) -> (u32, u32, u32) {
    let e: u32 = 1u32 << li;
    (if li == 6 { 1 } else { 0 }, r, ((!((e - 1) as u32) << 1u32) | s) & 0x3Fu32)
}

proof fn lemma_fields_decode(li: u32, s: u32, r: u32)
    requires
        1 <= li <= 6,
        s + 1 < (1u32 << li),
        r < (1u32 << li),
    ensures
        ({
            let (n, immr, imms) = logical_fields(li, s, r);
            let combined = ((n & 1) << 6u32) | (!imms & 0x3Fu32);
            let levels: u32 = ((1u32 << li) - 1) as u32;
            &&& combined != 0
            &&& hsb7(combined) == li
            &&& imms & levels == s
            &&& immr & levels == r
            &&& s != levels
        }),
{
    let (n, immr, imms) = logical_fields(li, s, r);
    let e: u32 = 1u32 << li;
    assert(e == 1u32 << li);
    if li == 1 {
        assert(e == 2) by (bit_vector)
            requires
                e == 1u32 << li,
                li == 1,
        ;
    } else if li == 2 {
        assert(e == 4) by (bit_vector)
            requires
                e == 1u32 << li,
                li == 2,
        ;
    } else if li == 3 {
        assert(e == 8) by (bit_vector)
            requires
                e == 1u32 << li,
                li == 3,
        ;
    } else if li == 4 {
        assert(e == 16) by (bit_vector)
            requires
                e == 1u32 << li,
                li == 4,
        ;
    } else if li == 5 {
        assert(e == 32) by (bit_vector)
            requires
                e == 1u32 << li,
                li == 5,
        ;
    } else {
        assert(e == 64) by (bit_vector)
            requires
                e == 1u32 << li,
                li == 6,
        ;
    }
    let combined = ((n & 1) << 6u32) | (!imms & 0x3Fu32);
    let levels: u32 = (e - 1) as u32;
    assert(combined != 0 && hsb7(combined) == li && imms & levels == s && immr & levels == r) by (bit_vector)
        requires
            1 <= li <= 6,
            e == 2 || e == 4 || e == 8 || e == 16 || e == 32 || e == 64,
            li == 1 ==> e == 2,
            li == 2 ==> e == 4,
            li == 3 ==> e == 8,
            li == 4 ==> e == 16,
            li == 5 ==> e == 32,
            li == 6 ==> e == 64,
            s + 1 < e,
            r < e,
            levels == e - 1,
            n == (if li == 6 { 1u32 } else { 0u32 }),
            immr == r,
            imms == ((!levels << 1u32) | s) & 0x3Fu32,
            combined == ((n & 1) << 6u32) | (!imms & 0x3Fu32),
    ;
}

/// The low `e` bits of a replicated element are the element.
proof fn lemma_replicate_low(y: u64, li: u32)
    requires
        1 <= li <= 6,
        y <= ones(1u32 << li),
    ensures
        replicate(y, 1u32 << li) & ones(1u32 << li) == y,
{
    let e: u32 = 1u32 << li;
    assert((1u64 << 2u32) - 1 == 3 && (1u64 << 4u32) - 1 == 0xF && (1u64 << 8u32) - 1 == 0xFF && (1u64 << 16u32) - 1
        == 0xFFFF && (1u64 << 32u32) - 1 == 0xFFFF_FFFF) by (bit_vector);
    if li == 1 {
        assert(e == 2) by (bit_vector) requires e == 1u32 << li, li == 1;
        assert(((y * 0x5555_5555_5555_5555u64) as u64) & 3u64 == y) by (bit_vector) requires y <= 3u64;
    } else if li == 2 {
        assert(e == 4) by (bit_vector) requires e == 1u32 << li, li == 2;
        assert(((y * 0x1111_1111_1111_1111u64) as u64) & 0xFu64 == y) by (bit_vector) requires y <= 0xFu64;
    } else if li == 3 {
        assert(e == 8) by (bit_vector) requires e == 1u32 << li, li == 3;
        assert(((y * 0x0101_0101_0101_0101u64) as u64) & 0xFFu64 == y) by (bit_vector) requires y <= 0xFFu64;
    } else if li == 4 {
        assert(e == 16) by (bit_vector) requires e == 1u32 << li, li == 4;
        assert(((y * 0x0001_0001_0001_0001u64) as u64) & 0xFFFFu64 == y) by (bit_vector) requires y <= 0xFFFFu64;
    } else if li == 5 {
        assert(e == 32) by (bit_vector) requires e == 1u32 << li, li == 5;
        assert(((y * 0x0000_0001_0000_0001u64) as u64) & 0xFFFF_FFFFu64 == y) by (bit_vector)
            requires
                y <= 0xFFFF_FFFFu64,
        ;
    } else {
        assert(e == 64) by (bit_vector) requires e == 1u32 << li, li == 6;
        assert(((y * 1u64) as u64) & 0xFFFF_FFFF_FFFF_FFFFu64 == y) by (bit_vector);
    }
}

fn ones_exec(k: u32) -> (m: u64)
    requires
        1 <= k <= 64,
    ensures
        m == ones(k),
{
    if k >= 64 {
        0xFFFF_FFFF_FFFF_FFFF
    } else {
        assert((1u64 << k) >= 1) by (bit_vector) requires k < 64;
        (1u64 << k) - 1
    }
}

fn rep_const_exec(e: u32) -> (k: u64)
    ensures
        k == rep_const(e),
{
    if e == 2 {
        0x5555_5555_5555_5555
    } else if e == 4 {
        0x1111_1111_1111_1111
    } else if e == 8 {
        0x0101_0101_0101_0101
    } else if e == 16 {
        0x0001_0001_0001_0001
    } else if e == 32 {
        0x0000_0001_0000_0001
    } else {
        1
    }
}

fn ror_exec(x: u64, r: u32, e: u32) -> (y: u64)
    requires
        2 <= e <= 64,
        r < e,
    ensures
        y == ror_e(x, r, e),
{
    let m = ones_exec(e);
    if r == 0 {
        x & m
    } else {
        ((x >> r) | (x << (e - r))) & m
    }
}

/// The `N:immr:imms` encoding of `v` as an AArch64 logical immediate (for
/// AND/ORR/EOR), or `None` when `v` has none (0, all ones, or not a rotated
/// run of ones replicated across 2-, 4-, …, 64-bit elements).
pub fn encode_logical_imm(v: u64) -> (r: Option<(u32, u32, u32)>)
    ensures
        match r {
            Some((n, immr, imms)) => decode_logical_imm(n, immr, imms) == Some(v) && n <= 1 && immr < 64 && imms < 64,
            None => forall|n: u32, immr: u32, imms: u32| decode_logical_imm(n, immr, imms) != Some(v),
        },
{
    let mut li: u32 = 1;
    while li <= 6
        invariant
            1 <= li <= 7,
            forall|lj: u32, s: u32, r: u32|
                1 <= lj < li && s + 1 < (1u32 << lj) && r < (1u32 << lj) ==> replicate(
                    #[trigger] ror_e(ones((s + 1) as u32), r, 1u32 << lj),
                    1u32 << lj,
                ) != v,
        decreases 7 - li,
    {
        let e: u32 = 1u32 << li;
        assert(2 <= e <= 64) by (bit_vector) requires e == 1u32 << li, 1 <= li <= 6;
        let m = ones_exec(e);
        let x = v & m;
        let k = rep_const_exec(e);
        let rep = x.wrapping_mul(k);
        proof {
            assert(vstd::wrapping::u64_specs::wrapping_mul(x, k) == (x * k) as u64) by (bit_vector);
        }
        if rep == v {
            let mut s: u32 = 0;
            while s + 1 < e
                invariant
                    2 <= e <= 64,
                    s < e,
                    e == 1u32 << li,
                    1 <= li <= 6,
                    m == ones(e),
                    x == v & m,
                    replicate(x, e) == v,
                    forall|ss: u32, r: u32| ss < s && r < e ==> #[trigger] ror_e(ones((ss + 1) as u32), r, e) != x,
                decreases e - s,
            {
                let run = ones_exec(s + 1);
                let mut rr: u32 = 0;
                while rr < e
                    invariant
                        2 <= e <= 64,
                        s + 1 < e,
                        e == 1u32 << li,
                        1 <= li <= 6,
                        m == ones(e),
                        x == v & m,
                        replicate(x, e) == v,
                        run == ones((s + 1) as u32),
                        forall|r: u32| r < rr ==> #[trigger] ror_e(ones((s + 1) as u32), r, e) != x,
                    decreases e - rr,
                {
                    if ror_exec(run, rr, e) == x {
                        proof {
                            lemma_fields_decode(li, s, rr);
                        }
                        let imms = ((!(e - 1) << 1) | s) & 0x3F;
                        let n: u32 = if li == 6 {
                            1
                        } else {
                            0
                        };
                        proof {
                            assert(imms < 64) by (bit_vector) requires imms == ((!((e - 1) as u32) << 1u32) | s) & 0x3Fu32;
                            assert(rr < 64);
                            assert(logical_fields(li, s, rr) == (n, rr, imms));
                            assert(ror_e(ones((s + 1) as u32), rr, e) == x);
                            assert(decode_logical_imm(n, rr, imms) == Some(replicate(x, e)));
                        }
                        return Some((n, rr, imms));
                    }
                    rr += 1;
                }
                s += 1;
            }
            proof {
                assert forall|ss: u32, r: u32| ss + 1 < e && r < e implies replicate(
                    #[trigger] ror_e(ones((ss + 1) as u32), r, e),
                    e,
                ) != v by {
                    let y = ror_e(ones((ss + 1) as u32), r, e);
                    assert(y <= ones(e)) by (bit_vector) requires y == ror_e(ones((ss + 1) as u32), r, e);
                    lemma_replicate_low(y, li);
                }
            }
        } else {
            proof {
                assert forall|ss: u32, r: u32| ss + 1 < e && r < e implies replicate(
                    #[trigger] ror_e(ones((ss + 1) as u32), r, e),
                    e,
                ) != v by {
                    let y = ror_e(ones((ss + 1) as u32), r, e);
                    assert(y <= ones(e)) by (bit_vector) requires y == ror_e(ones((ss + 1) as u32), r, e);
                    lemma_replicate_low(y, li);
                }
            }
        }
        li += 1;
    }
    proof {
        assert forall|n: u32, immr: u32, imms: u32| decode_logical_imm(n, immr, imms) != Some(v) by {
            let combined = ((n & 1) << 6u32) | (!imms & 0x3Fu32);
            let len = hsb7(combined);
            if combined != 0 && len != 0 {
                let esize: u32 = 1u32 << len;
                let levels: u32 = (esize - 1) as u32;
                let s = imms & levels;
                let r = immr & levels;
                assert(1 <= len <= 6);
                assert(2 <= esize <= 64) by (bit_vector)
                    requires
                        1 <= len <= 6,
                        esize == 1u32 << len,
                ;
                assert(s <= levels && r <= levels) by (bit_vector)
                    requires
                        s == imms & levels,
                        r == immr & levels,
                ;
                if s != levels {
                    assert(replicate(ror_e(ones((s + 1) as u32), r, 1u32 << len), 1u32 << len) != v);
                }
            }
        }
    }
    None
}

} // verus!
