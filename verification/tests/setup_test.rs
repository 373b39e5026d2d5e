use std::collections::HashMap;

use soullink_levelcap::memory::{LoggedMemory, MemoryError, ProcessMemory};
use soullink_levelcap::setup::{
    badge_sanity, scan_region, triangulate, SCAN_CHUNK,
    detect_offsets, is_oras_title_dir, SetupError, SetupWarning, MIN_SAVE_LEN, PARTY_TO_BADGE_OFFSET,
    SAV_BADGES_OFFSET, SAV_PARTY_OFFSET, SAV_PARTY_STRIDE,
};

/// A fake FCRAM: a byte vector at host address `base`.
struct Fcram {
    base: usize,
    bytes: Vec<u8>,
    writes: std::cell::RefCell<HashMap<usize, u8>>,
}

impl ProcessMemory for Fcram {
    fn read_bytes(&self, addr: usize, size: usize) -> Result<Vec<u8>, MemoryError> {
        if addr < self.base || addr >= self.base + self.bytes.len() {
            return Err(MemoryError::Access { message: "out of range".to_string() });
        }
        let start = addr - self.base;
        let end = (start + size).min(self.bytes.len());
        Ok(self.bytes[start..end].to_vec())
    }

    fn write_bytes(&self, addr: usize, data: &[u8]) -> Result<(), MemoryError> {
        let mut w = self.writes.borrow_mut();
        for (i, b) in data.iter().enumerate() {
            w.insert(addr + i, *b);
        }
        Ok(())
    }
}

fn save_with(ecs: &[u32], badges: u8) -> Vec<u8> {
    let mut sav = vec![0u8; MIN_SAVE_LEN];
    sav[SAV_BADGES_OFFSET] = badges;
    for (slot, ec) in ecs.iter().enumerate() {
        let off = SAV_PARTY_OFFSET + slot * SAV_PARTY_STRIDE;
        sav[off..off + 4].copy_from_slice(&ec.to_le_bytes());
    }
    sav
}

fn fcram(size: usize) -> Fcram {
    Fcram { base: 0x10_0000, bytes: vec![0u8; size], writes: Default::default() }
}

#[test]
fn triangulates_party_and_badges() {
    let mut mem = fcram(0x80_0000);
    let ecs = [0xFC64_5FE6u32, 0x73A2_6FC1, 0x3F76_F4BD];
    // A decoy copy of slot 0 alone, and the real party at 0x60_0000 with 484-byte stride.
    mem.bytes[0x1000..0x1004].copy_from_slice(&ecs[0].to_le_bytes());
    let party = 0x60_0000;
    for (i, ec) in ecs.iter().enumerate() {
        let at = party + i * 484;
        mem.bytes[at..at + 4].copy_from_slice(&ec.to_le_bytes());
    }
    mem.bytes[party - PARTY_TO_BADGE_OFFSET] = 0xFF;
    let sav = save_with(&ecs, 0x7F);
    let mut warnings = Vec::new();
    let o = detect_offsets(&sav, &mut LoggedMemory::new(&mem), mem.base, mem.bytes.len(), &mut warnings).unwrap();
    assert_eq!(o.party_base_3ds, 0x0800_0000 + party);
    assert_eq!(o.badge_offset_3ds, 0x0800_0000 + party - 0x2_94A8);
    assert!(warnings.is_empty());
}

#[test]
fn warns_about_fewer_badges_in_ram() {
    let mut mem = fcram(0x50_0000);
    let party = 0x40_0000;
    mem.bytes[party..party + 4].copy_from_slice(&0x1234_5678u32.to_le_bytes());
    mem.bytes[party - PARTY_TO_BADGE_OFFSET] = 0x01;
    let sav = save_with(&[0x1234_5678], 0x03);
    let mut warnings = Vec::new();
    let o = detect_offsets(&sav, &mut LoggedMemory::new(&mem), mem.base, mem.bytes.len(), &mut warnings).unwrap();
    assert_eq!(o.party_base_3ds, 0x0800_0000 + party);
    assert_eq!(warnings.len(), 1);
    assert!(matches!(warnings[0], SetupWarning::BadgeMismatch { ram: 1, save: 2 }));
    assert!(warnings[0].to_string().starts_with("[WARN] Badge-Sanity-Check: RAM=1 Orden, .sav=2 Orden."));
}

#[test]
fn single_pokemon_with_several_hits_takes_the_first() {
    let mut mem = fcram(0x50_0000);
    for at in [0x30_0000usize, 0x40_0000] {
        mem.bytes[at..at + 4].copy_from_slice(&0xAABB_CCDDu32.to_le_bytes());
    }
    let sav = save_with(&[0xAABB_CCDD], 0);
    let mut warnings = Vec::new();
    let o = detect_offsets(&sav, &mut LoggedMemory::new(&mem), mem.base, mem.bytes.len(), &mut warnings).unwrap();
    assert_eq!(o.party_base_3ds, 0x0830_0000);
    assert!(matches!(warnings[0], SetupWarning::SingleMonHits { hits: 2 }));
}

#[test]
fn several_triangulations_take_the_highest() {
    let mut mem = fcram(0x80_0000);
    let ecs = [0x0101_0101u32, 0x0202_0202];
    for party in [0x30_0000usize, 0x70_0000] {
        for (i, ec) in ecs.iter().enumerate() {
            let at = party + i * 484;
            mem.bytes[at..at + 4].copy_from_slice(&ec.to_le_bytes());
        }
    }
    let sav = save_with(&ecs, 0);
    let mut warnings = Vec::new();
    let o = detect_offsets(&sav, &mut LoggedMemory::new(&mem), mem.base, mem.bytes.len(), &mut warnings).unwrap();
    assert_eq!(o.party_base_3ds, 0x0870_0000);
    assert!(matches!(warnings[0], SetupWarning::SeveralTriangulations { candidates: 2, slots: 2 }));
}

#[test]
fn setup_errors() {
    let mem = fcram(0x10_0000);
    let mut w = Vec::new();
    let e = detect_offsets(&vec![0u8; 100], &mut LoggedMemory::new(&mem), mem.base, mem.bytes.len(), &mut w).unwrap_err();
    assert!(matches!(e, SetupError::SaveTooSmall { len: 100 }));
    assert_eq!(e.to_string(), "Save-File zu klein (100 bytes) — kein gueltiges ORAS-Save?");
    let e = detect_offsets(&save_with(&[], 0), &mut LoggedMemory::new(&mem), mem.base, mem.bytes.len(), &mut w).unwrap_err();
    assert!(matches!(e, SetupError::NoPartyInSave));
    let e = detect_offsets(&save_with(&[7], 0), &mut LoggedMemory::new(&mem), mem.base, mem.bytes.len(), &mut w).unwrap_err();
    assert!(matches!(e, SetupError::SlotZeroNotFound));
    let mut mem = fcram(0x10_0000);
    mem.bytes[0x100..0x104].copy_from_slice(&7u32.to_le_bytes());
    mem.bytes[0x200..0x204].copy_from_slice(&7u32.to_le_bytes());
    let e = detect_offsets(&save_with(&[7, 8], 0), &mut LoggedMemory::new(&mem), mem.base, mem.bytes.len(), &mut w)
        .unwrap_err();
    assert!(matches!(e, SetupError::NoTriangulation { slot0_hits: 2 }));
}

#[test]
fn oras_title_directories() {
    assert!(is_oras_title_dir("0011c500"));
    assert!(is_oras_title_dir("0011C400"));
    assert!(!is_oras_title_dir("0011b500"));
    assert!(!is_oras_title_dir("0011"));
}

#[test]
fn scan_finds_matches_at_the_end_of_the_region() {
    let mut mem = fcram(8);
    mem.bytes[4..8].copy_from_slice(&[1, 2, 3, 4]);
    assert_eq!(scan_region(&mut LoggedMemory::new(&mem), mem.base, 8, &[1, 2, 3, 4]), vec![4]);
    let mut whole = fcram(4);
    whole.bytes.copy_from_slice(&[9, 8, 7, 6]);
    assert_eq!(scan_region(&mut LoggedMemory::new(&whole), whole.base, 4, &[9, 8, 7, 6]), vec![0]);
}

#[test]
fn scan_finds_matches_across_a_short_last_chunk() {
    let mut mem = fcram(SCAN_CHUNK + 2);
    let at = SCAN_CHUNK - 2;
    mem.bytes[at..at + 4].copy_from_slice(&[5, 6, 7, 8]);
    mem.bytes[0..4].copy_from_slice(&[5, 6, 7, 8]);
    assert_eq!(scan_region(&mut LoggedMemory::new(&mem), mem.base, SCAN_CHUNK + 2, &[5, 6, 7, 8]), vec![0, at]);
}

#[test]
fn triangulation_narrows_and_picks() {
    let mut w = Vec::new();
    // slot 1 confirms 100 and 300, slot 2 only 300
    let r = triangulate(&vec![100, 200, 300], &vec![vec![584, 784], vec![1268]], 3, &mut w);
    assert!(matches!(r, Ok(300)));
    assert!(w.is_empty());
    let r = triangulate(&vec![100, 300], &vec![vec![584, 784]], 3, &mut w);
    assert!(matches!(r, Ok(300)));
    assert!(matches!(w[0], SetupWarning::SeveralTriangulations { candidates: 2, slots: 3 }));
    let r = triangulate(&vec![100], &vec![], 3, &mut w);
    assert!(matches!(r, Ok(100)));
    let r = triangulate(&vec![100, 200], &vec![vec![1]], 2, &mut w);
    assert!(matches!(r, Err(SetupError::NoTriangulation { slot0_hits: 2 })));
    let r = triangulate(&vec![], &vec![], 2, &mut w);
    assert!(matches!(r, Err(SetupError::SlotZeroNotFound)));
    let mut w = Vec::new();
    let r = triangulate(&vec![7, 9], &vec![], 1, &mut w);
    assert!(matches!(r, Ok(7)));
    assert!(matches!(w[0], SetupWarning::SingleMonHits { hits: 2 }));
}

#[test]
fn badge_sanity_warns_only_about_fewer_badges() {
    assert!(matches!(
        badge_sanity(&Ok(vec![0b0000_0011]), 3),
        Some(SetupWarning::BadgeMismatch { ram: 2, save: 3 })
    ));
    assert!(badge_sanity(&Ok(vec![0b0000_0111]), 3).is_none());
    assert!(badge_sanity(&Ok(vec![]), 3).is_none());
    assert!(badge_sanity(&Err(MemoryError::Access { message: "x".to_string() }), 3).is_none());
}

#[test]
fn party_too_close_to_fcram_start_is_an_error() {
    let mut mem = fcram(0x1000);
    mem.bytes[0x100..0x104].copy_from_slice(&0x1234_5678u32.to_le_bytes());
    let sav = save_with(&[0x1234_5678], 0);
    let mut w = Vec::new();
    let e = detect_offsets(&sav, &mut LoggedMemory::new(&mem), mem.base, mem.bytes.len(), &mut w)
        .unwrap_err();
    assert!(matches!(e, SetupError::BadgeBelowFcram { party_base_3ds: 0x0800_0100 }));
    assert_eq!(e.to_string(), "PARTY_BASE 0x08000100 - 0x294A8 unterlaeuft FCRAM");
}
