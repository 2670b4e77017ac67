use solomon::arm64::encode_logical_imm;
use solomon::x86_64::Asm;

fn mask_bits(esize: u32) -> u64 {
    if esize >= 64 {
        u64::MAX
    } else {
        (1u64 << esize) - 1
    }
}

fn ror_esize(v: u64, r: u32, esize: u32) -> u64 {
    let v = v & mask_bits(esize);
    if r == 0 {
        v
    } else {
        ((v >> r) | (v << (esize - r))) & mask_bits(esize)
    }
}

/// The ARM ARM `DecodeBitMasks` for the 64-bit logical-immediate `wmask`, or `None` for the
/// reserved encodings.
fn decode_logical_imm(n: u32, immr: u32, imms: u32) -> Option<u64> {
    let combined = ((n & 1) << 6) | ((!imms) & 0x3f);
    if combined == 0 {
        return None;
    }
    let len = 31 - combined.leading_zeros();
    if len == 0 {
        return None;
    }
    let esize = 1u32 << len;
    let levels = esize - 1;
    let s = imms & levels;
    let r = immr & levels;
    if s == levels {
        return None;
    }
    let welem = (1u64 << (s + 1)) - 1;
    let elem = ror_esize(welem, r, esize);
    let mut v = 0u64;
    let mut shift = 0;
    while shift < 64 {
        v |= elem << shift;
        shift += esize;
    }
    Some(v)
}

#[test]
fn logical_imm_roundtrips_every_valid_encoding() {
    for n in 0..=1u32 {
        for imms in 0..64u32 {
            for immr in 0..64u32 {
                let Some(v) = decode_logical_imm(n, immr, imms) else {
                    continue;
                };
                let enc = encode_logical_imm(v).unwrap_or_else(|| panic!("encode failed for {v:#018x}"));
                let (n2, immr2, imms2) = enc;
                let v2 = decode_logical_imm(n2, immr2, imms2)
                    .unwrap_or_else(|| panic!("encoded a reserved triple for {v:#018x}"));
                assert_eq!(v, v2, "re-encode mismatch for {v:#018x}");
            }
        }
    }
}

#[test]
fn logical_imm_known_and_rejected() {
    assert_eq!(encode_logical_imm(0x7FFF_FFFF), Some((1, 0, 30)));
    assert_eq!(encode_logical_imm(1), Some((1, 0, 0)));
    assert_eq!(encode_logical_imm(3), Some((1, 0, 1)));
    // Not encodable: empty, full, and a value with two separate runs.
    assert_eq!(encode_logical_imm(0), None);
    assert_eq!(encode_logical_imm(u64::MAX), None);
    assert_eq!(encode_logical_imm(0x101), None);
}

#[test]
fn logical_imm_replicated_patterns() {
    // 0x5555... is a 2-bit element repeated; 0x00ff00ff... a 16-bit one.
    let v = 0x5555_5555_5555_5555u64;
    let (n, immr, imms) = encode_logical_imm(v).expect("encodable");
    assert_eq!(decode_logical_imm(n, immr, imms), Some(v));
    assert_eq!(n, 0);
    let w = 0x00ff_00ff_00ff_00ffu64;
    let (n, immr, imms) = encode_logical_imm(w).expect("encodable");
    assert_eq!(decode_logical_imm(n, immr, imms), Some(w));
    assert_eq!(encode_logical_imm(0x00ff_00ff_00ff_00feu64), None);
}

#[test]
fn sib_load_store_encodings() {
    // mov rax, [rcx + rsi*8]
    let mut a = Asm::new();
    a.load_sib(8, false, 3);
    assert_eq!(a.code, vec![0x48, 0x8B, 0x04, 0xF1]);

    // mov [rcx + rsi*8], rax
    let mut a = Asm::new();
    a.store_sib(8, 3);
    assert_eq!(a.code, vec![0x48, 0x89, 0x04, 0xF1]);

    // movzx rax, byte [rcx + rsi*1]
    let mut a = Asm::new();
    a.load_sib(1, false, 0);
    assert_eq!(a.code, vec![0x48, 0x0F, 0xB6, 0x04, 0x31]);

    // movsxd rax, dword [rcx + rsi*4]
    let mut a = Asm::new();
    a.load_sib(4, true, 2);
    assert_eq!(a.code, vec![0x48, 0x63, 0x04, 0xB1]);

    // mov eax, [rcx + rsi*4]  (zero-extends to rax; no REX.W)
    let mut a = Asm::new();
    a.load_sib(4, false, 2);
    assert_eq!(a.code, vec![0x8B, 0x04, 0xB1]);

    // movsd xmm0, [rcx + rsi*8]
    let mut a = Asm::new();
    a.movsd_load_sib(3);
    assert_eq!(a.code, vec![0xF2, 0x0F, 0x10, 0x04, 0xF1]);

    // movsd [rcx + rsi*8], xmm0
    let mut a = Asm::new();
    a.movsd_store_sib(3);
    assert_eq!(a.code, vec![0xF2, 0x0F, 0x11, 0x04, 0xF1]);
}
