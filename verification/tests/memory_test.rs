use std::cell::RefCell;
use std::collections::HashMap;

use soullink_levelcap::caps::CapTable;
use soullink_levelcap::daemon::{freeze_exp, tick, TickError, TickEvent};
use soullink_levelcap::emulator::citra::FCRAM_3DS_BASE;
use soullink_levelcap::emulator::CitraProcess;
use soullink_levelcap::game::decrypt::{decrypt_slot, encrypt_slot, SLOT_CONCAT_LEN};
use soullink_levelcap::game::growth_rates::{min_exp_for_level, GrowthRate};
use soullink_levelcap::game::party::{PARTY_BASE_3DS, POKEMON_SIZE};
use soullink_levelcap::game::{read_badge_count, PartyPokemon, PARTY_SIZE};
use soullink_levelcap::memory::{write_count_result, LoggedMemory, MemoryError, ProcessMemory};

/// A sparse fake address space; unset bytes read as 0.
struct FakeMemory {
    bytes: RefCell<HashMap<usize, u8>>,
    fail_reads_at: Option<usize>,
    short_reads: bool,
}

impl FakeMemory {
    fn new() -> Self {
        FakeMemory { bytes: RefCell::new(HashMap::new()), fail_reads_at: None, short_reads: false }
    }

    fn put(&self, addr: usize, data: &[u8]) {
        let mut m = self.bytes.borrow_mut();
        for (i, b) in data.iter().enumerate() {
            m.insert(addr + i, *b);
        }
    }

    fn get(&self, addr: usize, len: usize) -> Vec<u8> {
        let m = self.bytes.borrow();
        (0..len).map(|i| *m.get(&(addr + i)).unwrap_or(&0)).collect()
    }
}

impl ProcessMemory for FakeMemory {
    fn read_bytes(&self, addr: usize, size: usize) -> Result<Vec<u8>, MemoryError> {
        if self.fail_reads_at == Some(addr) {
            return Err(MemoryError::Access { message: "refused".to_string() });
        }
        let n = if self.short_reads { size / 2 } else { size };
        Ok(self.get(addr, n))
    }

    fn write_bytes(&self, addr: usize, data: &[u8]) -> Result<(), MemoryError> {
        self.put(addr, data);
        Ok(())
    }
}

fn citra() -> CitraProcess {
    CitraProcess {
        pid: 42,
        fcram_base: 0x1000,
        badge_offset_3ds: 0x0F48_EE14,
        party_base_3ds: 0x0F51_82BC,
    }
}

fn host(c: &CitraProcess, addr_3ds: usize) -> usize {
    c.fcram_base + addr_3ds - FCRAM_3DS_BASE
}

fn plain_slot(pv: u32, species: u16, exp: u32) -> [u8; SLOT_CONCAT_LEN] {
    let mut p = [0u8; SLOT_CONCAT_LEN];
    p[0..4].copy_from_slice(&pv.to_le_bytes());
    p[8..10].copy_from_slice(&species.to_le_bytes());
    p[0x10..0x14].copy_from_slice(&exp.to_le_bytes());
    for (i, b) in p.iter_mut().enumerate().skip(0x14) {
        *b = (i as u8).wrapping_mul(7);
    }
    p
}

fn store_slot(mem: &FakeMemory, c: &CitraProcess, slot: u8, plain: &[u8; SLOT_CONCAT_LEN]) {
    let enc = encrypt_slot(plain);
    let base = host(c, PARTY_BASE_3DS + slot as usize * POKEMON_SIZE);
    mem.put(base, &enc[..232]);
    mem.put(base + 232, &enc[232..]);
}

fn load_plain(mem: &FakeMemory, c: &CitraProcess, slot: u8) -> [u8; SLOT_CONCAT_LEN] {
    let base = host(c, PARTY_BASE_3DS + slot as usize * POKEMON_SIZE);
    let mut enc = [0u8; SLOT_CONCAT_LEN];
    enc[..232].copy_from_slice(&mem.get(base, 232));
    enc[232..].copy_from_slice(&mem.get(base + 232, 22));
    decrypt_slot(&enc)
}

#[test]
fn badge_count_is_popcount_of_badge_byte() {
    let c = citra();
    let mem = FakeMemory::new();
    mem.put(host(&c, c.badge_offset_3ds), &[0b1010_0111]);
    assert_eq!(read_badge_count(&mut LoggedMemory::new(&mem), &c).unwrap(), 5);
    mem.put(host(&c, c.badge_offset_3ds), &[0xFF]);
    assert_eq!(read_badge_count(&mut LoggedMemory::new(&mem), &c).unwrap(), 8);
}

#[test]
fn typed_reads_check_their_length() {
    let mut mem = FakeMemory::new();
    mem.put(0x10, &[0x34, 0x12, 0x78, 0x56]);
    assert_eq!(mem.read_u16_le(0x10).unwrap(), 0x1234);
    assert_eq!(mem.read_u32_le(0x10).unwrap(), 0x5678_1234);
    mem.write_u32_le(0x20, 0xAABB_CCDD).unwrap();
    assert_eq!(mem.get(0x20, 4), vec![0xDD, 0xCC, 0xBB, 0xAA]);
    mem.short_reads = true;
    let e = mem.read_u32_le(0x10).unwrap_err();
    assert_eq!(e.to_string(), "partial read u32 @ 0x10 (got 2 bytes)");
    let e = mem.read_u8(0xab).unwrap_err();
    assert_eq!(e.to_string(), "partial read u8 @ 0xab (got 0 bytes)");
}

#[test]
fn read_decodes_an_encrypted_slot() {
    let c = citra();
    let mem = FakeMemory::new();
    store_slot(&mem, &c, 0, &plain_slot(0xFC64_5FE6, 631, 262_144));
    let p = PartyPokemon::read(&mut LoggedMemory::new(&mem), &c, 0).unwrap().unwrap();
    assert_eq!((p.slot, p.species, p.level, p.exp), (0, 631, 64, 262_144));
    store_slot(&mem, &c, 2, &plain_slot(0x3F76_F4BD, 604, 466_560));
    let p = PartyPokemon::read(&mut LoggedMemory::new(&mem), &c, 2).unwrap().unwrap();
    assert_eq!((p.slot, p.species, p.level, p.exp), (2, 604, 72, 466_560));
}

#[test]
fn read_skips_empty_and_implausible_slots() {
    let c = citra();
    let mem = FakeMemory::new();
    assert!(PartyPokemon::read(&mut LoggedMemory::new(&mem), &c, 1).unwrap().is_none());
    let mut bad_sanity = plain_slot(0x1234_5678, 252, 1000);
    bad_sanity[4] = 1;
    store_slot(&mem, &c, 1, &bad_sanity);
    assert!(PartyPokemon::read(&mut LoggedMemory::new(&mem), &c, 1).unwrap().is_none());
    store_slot(&mem, &c, 3, &plain_slot(0x1234_5678, 722, 1000));
    assert!(PartyPokemon::read(&mut LoggedMemory::new(&mem), &c, 3).unwrap().is_none());
    store_slot(&mem, &c, 4, &plain_slot(0x1234_5678, 0, 1000));
    assert!(PartyPokemon::read(&mut LoggedMemory::new(&mem), &c, 4).unwrap().is_none());
    store_slot(&mem, &c, 5, &plain_slot(0x1234_5678, 25, 1_640_001));
    assert!(PartyPokemon::read(&mut LoggedMemory::new(&mem), &c, 5).unwrap().is_none());
}

#[test]
fn short_read_is_an_error() {
    let c = citra();
    let mut mem = FakeMemory::new();
    store_slot(&mem, &c, 0, &plain_slot(0xFC64_5FE6, 631, 262_144));
    mem.short_reads = true;
    let e = PartyPokemon::read(&mut LoggedMemory::new(&mem), &c, 0).unwrap_err();
    assert_eq!(e.to_string(), "kurzer Read bei Slot 0: got 116 bytes statt 232");
}

#[test]
fn write_exp_then_read_gives_new_exp() {
    let c = citra();
    let mem = FakeMemory::new();
    let plain = plain_slot(0xFC64_5FE6, 631, 262_144);
    store_slot(&mem, &c, 0, &plain);
    let before_write = PartyPokemon::read(&mut LoggedMemory::new(&mem), &c, 0).unwrap().unwrap();
    before_write.write_exp(&mut LoggedMemory::new(&mem), &c, 262_144 + 12_345).unwrap();
    let after = PartyPokemon::read(&mut LoggedMemory::new(&mem), &c, 0).unwrap().unwrap();
    assert_eq!(after.species, before_write.species);
    assert_eq!(after.exp, 262_144 + 12_345);
    // Everything but the experience field is kept.
    let now = load_plain(&mem, &c, 0);
    for i in 0..SLOT_CONCAT_LEN {
        if !(0x10..0x14).contains(&i) {
            assert_eq!(now[i], plain[i], "byte {}", i);
        }
    }
    before_write.write_exp(&mut LoggedMemory::new(&mem), &c, before_write.exp).unwrap();
    let restored = PartyPokemon::read(&mut LoggedMemory::new(&mem), &c, 0).unwrap().unwrap();
    assert_eq!(restored.exp, before_write.exp);
}

#[test]
fn freeze_policy() {
    let p = PartyPokemon { slot: 0, species: 631, level: 64, exp: 262_144 + 500 };
    assert_eq!(freeze_exp(&p, 48), Some(262_144));
    assert_eq!(freeze_exp(&p, 64), Some(262_144));
    assert_eq!(freeze_exp(&p, 65), None);
    let q = PartyPokemon { exp: 262_144, ..p };
    assert_eq!(freeze_exp(&q, 48), None);
    assert_eq!(min_exp_for_level(64, GrowthRate::MediumFast), 262_144);
}

#[test]
fn tick_freezes_party_at_cap() {
    let c = citra();
    let mem = FakeMemory::new();
    mem.put(host(&c, c.badge_offset_3ds), &[0x07]);
    // Level 30 Medium Fast (27 000) with a bit more: frozen at 30, not 29.
    store_slot(&mem, &c, 0, &plain_slot(0x1111_1111, 631, 27_000 + 900));
    // Level 20 is below the cap.
    store_slot(&mem, &c, 1, &plain_slot(0x2222_2222, 631, 8_000 + 10));
    let caps = CapTable::parse("0=15\n1=19\n2=24\n3=29").unwrap();
    let mut last = None;
    let mut events = Vec::new();
    tick(&mut LoggedMemory::new(&mem), &c, &caps, &mut last, &mut events).unwrap();
    assert_eq!(last, Some(3));
    assert_eq!(events.len(), 2);
    assert!(matches!(events[0], TickEvent::BadgesChanged { badges: 3, cap: 29 }));
    assert!(matches!(
        events[1],
        TickEvent::Frozen { slot: 0, species: 631, level: 30, old_exp: 27_900, new_exp: 27_000 }
    ));
    assert_eq!(PartyPokemon::read(&mut LoggedMemory::new(&mem), &c, 0).unwrap().unwrap().exp, 27_000);
    assert_eq!(PartyPokemon::read(&mut LoggedMemory::new(&mem), &c, 1).unwrap().unwrap().exp, 8_010);
    // A second round reports nothing new.
    events.clear();
    tick(&mut LoggedMemory::new(&mem), &c, &caps, &mut last, &mut events).unwrap();
    assert!(events.is_empty());
}

#[test]
fn tick_fails_without_cap_or_memory() {
    let c = citra();
    let mut mem = FakeMemory::new();
    mem.put(host(&c, c.badge_offset_3ds), &[0x0F]);
    let caps = CapTable::parse("0=15").unwrap();
    let mut last = None;
    let mut events = Vec::new();
    match tick(&mut LoggedMemory::new(&mem), &c, &caps, &mut last, &mut events) {
        Err(TickError::Cap(e)) => assert!(e.to_string().contains("4 Orden")),
        other => panic!("unexpected {:?}", other),
    }
    mem.fail_reads_at = Some(host(&c, c.badge_offset_3ds));
    assert!(matches!(
        tick(&mut LoggedMemory::new(&mem), &c, &caps, &mut last, &mut events),
        Err(TickError::Memory(_))
    ));
    assert_eq!(PARTY_SIZE, 6);
}

#[test]
fn partial_writes_are_errors() {
    assert!(write_count_result("x: ", 4, 4).is_ok());
    let e = write_count_result("WriteProcessMemory partial: ", 2, 4).unwrap_err();
    assert_eq!(e.to_string(), "WriteProcessMemory partial: 2 von 4 bytes");
}
