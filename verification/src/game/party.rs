//! Party Pokémon: reading a slot and writing back its experience.
use vstd::prelude::*;

use crate::bytes::{
    lemma_u32_le_roundtrip, spec_u16_le, spec_u32_le, spec_u32_le_bytes, u16_from_le, u32_from_le,
    u32_to_le,
};
use crate::emulator::CitraProcess;
use crate::game::decrypt::{
    decrypt_slot, encrypt_slot, lemma_decrypt_inverts_encrypt, lemma_decrypt_keeps_header,
    spec_decrypt, spec_encrypt, SLOT_CONCAT_LEN,
};
use crate::game::growth_rates::{
    growth_rate_of, level_from_exp, spec_growth_rate_of, spec_level_from_exp,
};
use crate::memory::{write_access, LoggedMemory, MemAccess, MemoryError, ProcessMemory};

verus! {

/// Guest address of the party in the 260-byte save-block layout (ORAS v1.4).
pub const PARTY_BASE_3DS: usize = 0x0F49_E50C;

/// Distance between party slots in bytes.
pub const POKEMON_SIZE: usize = 260;

/// Number of party slots.
pub const PARTY_SIZE: u8 = 6;

/// Length of the encrypted blocks part of a slot.
pub const PKM_BLOCKS_LEN: usize = 232;

/// Offset of the stats part of a slot.
pub const STATS_START: usize = 232;

/// Length of the stats part of a slot.
pub const STATS_LEN: usize = 22;

/// Offset of the species (`u16`, little endian) in the plaintext.
pub const PLAIN_SPECIES: usize = 0x08;

/// Offset of the total experience (`u32`, little endian) in the plaintext.
pub const PLAIN_EXP: usize = 0x10;

/// Highest species number of generations 1 to 6.
pub const MAX_SPECIES: u16 = 721;

/// Experience above which every growth rate is beyond level 100.
pub const MAX_EXP: u32 = 1_640_000;

/// A Pokémon in the party.
#[derive(Debug, Clone, Copy)]
pub struct PartyPokemon {
    pub slot: u8,
    pub species: u16,
    pub level: u8,
    pub exp: u32,
}

/// Guest address of party slot `slot`.
pub open spec fn party_slot_addr(slot: u8) -> usize {
    (PARTY_BASE_3DS + slot as int * POKEMON_SIZE) as usize
}

/// Whether a slot's header marks a Pokémon: a non-zero personality value
/// and a zero sanity word.
pub open spec fn header_is_occupied(s: Seq<u8>) -> bool {
    spec_u32_le(s[0], s[1], s[2], s[3]) != 0 && spec_u16_le(s[4], s[5]) == 0
}

/// Species stored in a plaintext slot.
pub open spec fn plain_species(p: Seq<u8>) -> u16 {
    spec_u16_le(p[PLAIN_SPECIES as int], p[PLAIN_SPECIES + 1])
}

/// Total experience stored in a plaintext slot.
pub open spec fn plain_exp(p: Seq<u8>) -> u32 {
    spec_u32_le(p[PLAIN_EXP as int], p[PLAIN_EXP + 1], p[PLAIN_EXP + 2], p[PLAIN_EXP + 3])
}

/// The Pokémon that the encrypted concatenated slot `c` of party slot
/// `slot` holds: none for an empty or malformed header, a species outside
/// `1..=721` or more experience than any level needs; the level follows
/// from experience and growth rate.
pub open spec fn spec_party_pokemon(slot: u8, c: Seq<u8>) -> Option<PartyPokemon> {
    if !header_is_occupied(c) {
        None
    } else {
        let p = spec_decrypt(c);
        let species = plain_species(p);
        let exp = plain_exp(p);
        if species == 0 || species > MAX_SPECIES || exp > MAX_EXP {
            None
        } else {
            Some(
                PartyPokemon {
                    slot,
                    species,
                    level: spec_level_from_exp(exp, spec_growth_rate_of(species)),
                    exp,
                },
            )
        }
    }
}

/// Plaintext `p` with its experience field set to `exp`.
pub open spec fn with_exp(p: Seq<u8>, exp: u32) -> Seq<u8> {
    let b = spec_u32_le_bytes(exp);
    p.update(PLAIN_EXP as int, b[0]).update(PLAIN_EXP + 1, b[1]).update(PLAIN_EXP + 2, b[2]).update(
        PLAIN_EXP + 3,
        b[3],
    )
}

/// The encrypted concatenated slot `c` with its experience set to `exp`.
pub open spec fn spec_patch_exp(c: Seq<u8>, exp: u32) -> Seq<u8> {
    spec_encrypt(with_exp(spec_decrypt(c), exp))
}

/// Host address of party slot `slot`.
pub open spec fn slot_host_addr(citra: CitraProcess, slot: u8) -> usize {
    citra.spec_fcram_addr(party_slot_addr(slot)) as usize
}

/// What reading party slot `slot` gives, from what the raw reads of its
/// blocks part (`blocks`) and of its stats part (`stats`) delivered. The
/// stats part counts only when the blocks part is complete and its header
/// marks a Pokémon.
pub open spec fn slot_read_result(
    slot: u8,
    blocks: Result<Vec<u8>, MemoryError>,
    stats: Result<Vec<u8>, MemoryError>,
) -> Result<Option<PartyPokemon>, MemoryError> {
    match blocks {
        Err(e) => Err(e),
        Ok(b) => if b.len() != PKM_BLOCKS_LEN {
            Err(
                MemoryError::ShortSlotRead {
                    slot,
                    stats: false,
                    got: b.len(),
                    expected: PKM_BLOCKS_LEN,
                },
            )
        } else if !header_is_occupied(b@) {
            Ok(None)
        } else {
            match stats {
                Err(e) => Err(e),
                Ok(st) => if st.len() != STATS_LEN {
                    Err(
                        MemoryError::ShortSlotRead {
                            slot,
                            stats: true,
                            got: st.len(),
                            expected: STATS_LEN,
                        },
                    )
                } else {
                    Ok(spec_party_pokemon(slot, b@ + st@))
                },
            }
        },
    }
}

/// Whether the stats part of a slot is read after its blocks part delivered
/// `blocks`.
pub open spec fn slot_reads_stats(blocks: Result<Vec<u8>, MemoryError>) -> bool {
    blocks matches Ok(b) && b.len() == PKM_BLOCKS_LEN && header_is_occupied(b@)
}

/// The accesses of reading party slot `slot` when its blocks part read
/// delivered `blocks`: that read, then the read of the stats part where it
/// is made.
pub open spec fn slot_read_accesses(
    citra: CitraProcess,
    slot: u8,
    blocks: Result<Vec<u8>, MemoryError>,
) -> Seq<MemAccess> {
    let base = slot_host_addr(citra, slot);
    seq![MemAccess::Read { addr: base, size: PKM_BLOCKS_LEN }] + if slot_reads_stats(blocks) {
        seq![MemAccess::Read { addr: (base + STATS_START) as usize, size: STATS_LEN }]
    } else {
        Seq::<MemAccess>::empty()
    }
}

/// Whether reading party slot `slot` can give `r` while the access log goes
/// from `before` to `after`: the result and the accesses follow from some
/// outcome of reading the blocks part and, where it is read, some outcome of
/// reading the stats part; nothing is written.
pub open spec fn slot_read<M: ProcessMemory>(
    mem: &M,
    citra: CitraProcess,
    slot: u8,
    r: Result<Option<PartyPokemon>, MemoryError>,
    before: Seq<MemAccess>,
    after: Seq<MemAccess>,
) -> bool {
    exists|blocks: Result<Vec<u8>, MemoryError>, stats: Result<Vec<u8>, MemoryError>|
        #![trigger slot_read_result(slot, blocks, stats)]
        {
            &&& mem.reads(slot_host_addr(citra, slot), PKM_BLOCKS_LEN, blocks)
            &&& slot_reads_stats(blocks) ==> mem.reads(
                (slot_host_addr(citra, slot) + STATS_START) as usize,
                STATS_LEN,
                stats,
            )
            &&& r == slot_read_result(slot, blocks, stats)
            &&& after == before + slot_read_accesses(citra, slot, blocks)
        }
}

/// What writing experience `new_exp` into party slot `slot` gives, from
/// what the raw reads of its parts (`blocks`, `stats`) and the writes of
/// its re-encrypted parts (`wb`, `ws`) delivered. A write counts only where
/// it is made.
pub open spec fn exp_write_result(
    slot: u8,
    blocks: Result<Vec<u8>, MemoryError>,
    stats: Result<Vec<u8>, MemoryError>,
    wb: Result<(), MemoryError>,
    ws: Result<(), MemoryError>,
) -> Result<(), MemoryError> {
    match blocks {
        Err(e) => Err(e),
        Ok(b) => match stats {
            Err(e) => Err(e),
            Ok(st) => if b.len() != PKM_BLOCKS_LEN {
                Err(
                    MemoryError::ShortSlotRead {
                        slot,
                        stats: false,
                        got: b.len(),
                        expected: PKM_BLOCKS_LEN,
                    },
                )
            } else if st.len() != STATS_LEN {
                Err(
                    MemoryError::ShortSlotRead {
                        slot,
                        stats: true,
                        got: st.len(),
                        expected: STATS_LEN,
                    },
                )
            } else {
                match wb {
                    Err(e) => Err(e),
                    Ok(()) => ws,
                }
            },
        },
    }
}

/// Whether both parts of a slot were read completely.
pub open spec fn slot_parts_complete(
    blocks: Result<Vec<u8>, MemoryError>,
    stats: Result<Vec<u8>, MemoryError>,
) -> bool {
    &&& blocks matches Ok(b) && b.len() == PKM_BLOCKS_LEN
    &&& stats matches Ok(st) && st.len() == STATS_LEN
}

/// The encrypted slot, with experience `new_exp`, that is written back after
/// its parts were read as `blocks` and `stats`.
pub open spec fn patched_slot(
    blocks: Result<Vec<u8>, MemoryError>,
    stats: Result<Vec<u8>, MemoryError>,
    new_exp: u32,
) -> Seq<u8> {
    spec_patch_exp(blocks->Ok_0@ + stats->Ok_0@, new_exp)
}

/// The accesses of writing experience `new_exp` into party slot `slot`,
/// from what its reads (`blocks`, `stats`) and its first write (`wb`)
/// delivered: the read of the blocks part; the read of the stats part if
/// the first read succeeded; if both parts were read completely, the write
/// of the re-encrypted blocks part and, if that succeeded, of the
/// re-encrypted stats part.
pub open spec fn exp_write_accesses(
    citra: CitraProcess,
    slot: u8,
    new_exp: u32,
    blocks: Result<Vec<u8>, MemoryError>,
    stats: Result<Vec<u8>, MemoryError>,
    wb: Result<(), MemoryError>,
) -> Seq<MemAccess> {
    let base = slot_host_addr(citra, slot);
    let c = patched_slot(blocks, stats, new_exp);
    seq![MemAccess::Read { addr: base, size: PKM_BLOCKS_LEN }] + (if blocks is Ok {
        seq![MemAccess::Read { addr: (base + STATS_START) as usize, size: STATS_LEN }]
    } else {
        Seq::<MemAccess>::empty()
    }) + (if slot_parts_complete(blocks, stats) {
        seq![write_access(base, c.subrange(0, PKM_BLOCKS_LEN as int))]
    } else {
        Seq::<MemAccess>::empty()
    }) + (if slot_parts_complete(blocks, stats) && wb is Ok {
        seq![
            write_access(
                (base + STATS_START) as usize,
                c.subrange(STATS_START as int, SLOT_CONCAT_LEN as int),
            ),
        ]
    } else {
        Seq::<MemAccess>::empty()
    })
}

/// Whether writing experience `new_exp` into party slot `slot` can give `r`
/// while the access log goes from `before` to `after`: the result and the
/// accesses follow from some outcomes of reading both parts of the slot
/// and, where they are made, of writing back the blocks part and then the
/// stats part of the slot re-encrypted with the new experience.
pub open spec fn exp_write<M: ProcessMemory>(
    mem: &M,
    citra: CitraProcess,
    slot: u8,
    new_exp: u32,
    r: Result<(), MemoryError>,
    before: Seq<MemAccess>,
    after: Seq<MemAccess>,
) -> bool {
    exists|
        blocks: Result<Vec<u8>, MemoryError>,
        stats: Result<Vec<u8>, MemoryError>,
        wb: Result<(), MemoryError>,
        ws: Result<(), MemoryError>,
    |
        #![trigger exp_write_result(slot, blocks, stats, wb, ws)]
        {
            let base = slot_host_addr(citra, slot);
            let c = patched_slot(blocks, stats, new_exp);
            &&& mem.reads(base, PKM_BLOCKS_LEN, blocks)
            &&& blocks is Ok ==> mem.reads((base + STATS_START) as usize, STATS_LEN, stats)
            &&& slot_parts_complete(blocks, stats) ==> mem.writes(
                base,
                c.subrange(0, PKM_BLOCKS_LEN as int),
                wb,
            )
            &&& slot_parts_complete(blocks, stats) && wb is Ok ==> mem.writes(
                (base + STATS_START) as usize,
                c.subrange(STATS_START as int, SLOT_CONCAT_LEN as int),
                ws,
            )
            &&& r == exp_write_result(slot, blocks, stats, wb, ws)
            &&& after == before + exp_write_accesses(citra, slot, new_exp, blocks, stats, wb)
        }
}

/// Whether the bytes of a slot header mark a Pokémon.
pub fn header_occupied(blocks: &Vec<u8>) -> (b: bool)
    requires
        blocks.len() >= 6,
    ensures
        b == header_is_occupied(blocks@),
{
    let pv = u32_from_le(blocks[0], blocks[1], blocks[2], blocks[3]);
    let sanity = u16_from_le(blocks[4], blocks[5]);
    pv != 0 && sanity == 0
}

/// Joins the blocks part and the stats part of a slot.
pub fn concat_slot(blocks: &Vec<u8>, stats: &Vec<u8>) -> (c: [u8; SLOT_CONCAT_LEN])
    requires
        blocks.len() == PKM_BLOCKS_LEN,
        stats.len() == STATS_LEN,
    ensures
        c@ == blocks@ + stats@,
{
    let mut c = [0u8; SLOT_CONCAT_LEN];
    let mut i: usize = 0;
    while i < SLOT_CONCAT_LEN
        invariant
            blocks.len() == PKM_BLOCKS_LEN,
            stats.len() == STATS_LEN,
            i <= SLOT_CONCAT_LEN,
            c@.len() == SLOT_CONCAT_LEN,
            forall|k: int| 0 <= k < i ==> #[trigger] c@[k] == (blocks@ + stats@)[k],
        decreases SLOT_CONCAT_LEN - i,
    {
        let v = if i < PKM_BLOCKS_LEN {
            blocks[i]
        } else {
            stats[i - PKM_BLOCKS_LEN]
        };
        c[i] = v;
        i += 1;
    }
    assert(c@ =~= blocks@ + stats@);
    c
}

/// Copies `c[start..end]` into a new vector.
fn slice_to_vec(c: &[u8; SLOT_CONCAT_LEN], start: usize, end: usize) -> (v: Vec<u8>)
    requires
        start <= end <= SLOT_CONCAT_LEN,
    ensures
        v@ == c@.subrange(start as int, end as int),
{
    let mut v: Vec<u8> = Vec::new();
    let mut i = start;
    while i < end
        invariant
            start <= i <= end <= SLOT_CONCAT_LEN,
            c@.len() == SLOT_CONCAT_LEN,
            v@ == c@.subrange(start as int, i as int),
        decreases end - i,
    {
        v.push(c[i]);
        assert(v@ =~= c@.subrange(start as int, i + 1));
        i += 1;
    }
    v
}

impl PartyPokemon {
    /// Decodes the encrypted concatenated slot `c` of party slot `slot`.
    pub fn decode(slot: u8, c: &[u8; SLOT_CONCAT_LEN]) -> (r: Option<PartyPokemon>)
        ensures
            r == spec_party_pokemon(slot, c@),
    {
        let pv = u32_from_le(c[0], c[1], c[2], c[3]);
        let sanity = u16_from_le(c[4], c[5]);
        if pv == 0 || sanity != 0 {
            return None;
        }
        let plain = decrypt_slot(c);
        let species = u16_from_le(plain[PLAIN_SPECIES], plain[PLAIN_SPECIES + 1]);
        if species == 0 || species > MAX_SPECIES {
            return None;
        }
        let exp = u32_from_le(
            plain[PLAIN_EXP],
            plain[PLAIN_EXP + 1],
            plain[PLAIN_EXP + 2],
            plain[PLAIN_EXP + 3],
        );
        if exp > MAX_EXP {
            return None;
        }
        let level = level_from_exp(exp, growth_rate_of(species));
        Some(PartyPokemon { slot, species, level, exp })
    }

    /// Reads party slot `slot`, decrypts it and returns its Pokémon;
    /// `Ok(None)` when the slot is empty (PV 0), malformed (sanity word not
    /// 0) or holds implausible data.
    pub fn read<M: ProcessMemory>(mem: &mut LoggedMemory<M>, citra: &CitraProcess, slot: u8) -> (r:
        Result<Option<Self>, MemoryError>)
        requires
            citra.maps_range(party_slot_addr(slot), SLOT_CONCAT_LEN as nat),
        ensures
            final(mem).memory() == old(mem).memory(),
            slot_read(old(mem).memory(), *citra, slot, r, old(mem).accesses(), final(mem).accesses()),
            r matches Ok(Some(p)) ==> p.slot == slot && 1 <= p.species <= MAX_SPECIES && p.exp
                <= MAX_EXP && p.level == spec_level_from_exp(p.exp, spec_growth_rate_of(p.species))
                && 1 <= p.level <= 100,
    {
        let base = citra.fcram_addr(PARTY_BASE_3DS + (slot as usize) * POKEMON_SIZE);
        let blocks_read = mem.read_bytes(base, PKM_BLOCKS_LEN);
        let ghost gb = blocks_read;
        let blocks = match blocks_read {
            Ok(b) => b,
            Err(e) => {
                assert(slot_read_result(slot, gb, gb) == Err::<Option<Self>, MemoryError>(e));
                assert(mem.accesses() =~= old(mem).accesses() + slot_read_accesses(*citra, slot, gb));
                return Err(e);
            },
        };
        if blocks.len() != PKM_BLOCKS_LEN {
            let err = MemoryError::ShortSlotRead {
                slot,
                stats: false,
                got: blocks.len(),
                expected: PKM_BLOCKS_LEN,
            };
            assert(slot_read_result(slot, gb, gb) == Err::<Option<Self>, MemoryError>(err));
            assert(mem.accesses() =~= old(mem).accesses() + slot_read_accesses(*citra, slot, gb));
            return Err(err);
        }
        if !header_occupied(&blocks) {
            assert(slot_read_result(slot, gb, gb) == Ok::<Option<Self>, MemoryError>(None));
            assert(mem.accesses() =~= old(mem).accesses() + slot_read_accesses(*citra, slot, gb));
            return Ok(None);
        }
        assert(slot_reads_stats(gb));
        let stats_read = mem.read_bytes(base + STATS_START, STATS_LEN);
        assert(mem.accesses() =~= old(mem).accesses() + slot_read_accesses(*citra, slot, gb));
        let ghost gs = stats_read;
        let stats = match stats_read {
            Ok(st) => st,
            Err(e) => {
                assert(slot_read_result(slot, gb, gs) == Err::<Option<Self>, MemoryError>(e));
                return Err(e);
            },
        };
        if stats.len() != STATS_LEN {
            let err = MemoryError::ShortSlotRead {
                slot,
                stats: true,
                got: stats.len(),
                expected: STATS_LEN,
            };
            assert(slot_read_result(slot, gb, gs) == Err::<Option<Self>, MemoryError>(err));
            return Err(err);
        }
        let concat = concat_slot(&blocks, &stats);
        proof {
            crate::game::growth_rates::lemma_level_range(
                plain_exp(spec_decrypt(concat@)),
                spec_growth_rate_of(plain_species(spec_decrypt(concat@))),
            );
        }
        let p = Self::decode(slot, &concat);
        assert(slot_read_result(slot, gb, gs) == Ok::<Option<Self>, MemoryError>(p));
        Ok(p)
    }

    /// Sets the experience in an encrypted concatenated slot: decrypt,
    /// patch the experience field, encrypt.
    pub fn patch_exp(c: &[u8; SLOT_CONCAT_LEN], new_exp: u32) -> (r: [u8; SLOT_CONCAT_LEN])
        ensures
            r@ == spec_patch_exp(c@, new_exp),
    {
        let mut plain = decrypt_slot(c);
        let b = u32_to_le(new_exp);
        plain[PLAIN_EXP] = b[0];
        plain[PLAIN_EXP + 1] = b[1];
        plain[PLAIN_EXP + 2] = b[2];
        plain[PLAIN_EXP + 3] = b[3];
        assert(plain@ =~= with_exp(spec_decrypt(c@), new_exp));
        encrypt_slot(&plain)
    }

    /// Writes a new experience value back: read, decrypt, patch the
    /// experience, encrypt, write blocks and stats.
    pub fn write_exp<M: ProcessMemory>(
        &self,
        mem: &mut LoggedMemory<M>,
        citra: &CitraProcess,
        new_exp: u32,
    ) -> (r: Result<(), MemoryError>)
        requires
            citra.maps_range(party_slot_addr(self.slot), SLOT_CONCAT_LEN as nat),
        ensures
            final(mem).memory() == old(mem).memory(),
            exp_write(
                old(mem).memory(),
                *citra,
                self.slot,
                new_exp,
                r,
                old(mem).accesses(),
                final(mem).accesses(),
            ),
    {
        let slot = self.slot;
        let ghost no_write = Ok::<(), MemoryError>(());
        let base = citra.fcram_addr(PARTY_BASE_3DS + (slot as usize) * POKEMON_SIZE);
        let blocks_read = mem.read_bytes(base, PKM_BLOCKS_LEN);
        let ghost gb = blocks_read;
        let blocks = match blocks_read {
            Ok(b) => b,
            Err(e) => {
                assert(exp_write_result(slot, gb, gb, no_write, no_write) == Err::<(), MemoryError>(e));
                assert(mem.accesses() =~= old(mem).accesses() + exp_write_accesses(*citra, slot, new_exp, gb, gb, no_write));
                return Err(e);
            },
        };
        let stats_read = mem.read_bytes(base + STATS_START, STATS_LEN);
        let ghost gs = stats_read;
        let stats = match stats_read {
            Ok(st) => st,
            Err(e) => {
                assert(exp_write_result(slot, gb, gs, no_write, no_write) == Err::<(), MemoryError>(e));
                assert(mem.accesses() =~= old(mem).accesses() + exp_write_accesses(*citra, slot, new_exp, gb, gs, no_write));
                return Err(e);
            },
        };
        if blocks.len() != PKM_BLOCKS_LEN {
            let err = MemoryError::ShortSlotRead {
                slot,
                stats: false,
                got: blocks.len(),
                expected: PKM_BLOCKS_LEN,
            };
            assert(exp_write_result(slot, gb, gs, no_write, no_write) == Err::<(), MemoryError>(err));
            assert(mem.accesses() =~= old(mem).accesses() + exp_write_accesses(*citra, slot, new_exp, gb, gs, no_write));
            return Err(err);
        }
        if stats.len() != STATS_LEN {
            let err = MemoryError::ShortSlotRead {
                slot,
                stats: true,
                got: stats.len(),
                expected: STATS_LEN,
            };
            assert(exp_write_result(slot, gb, gs, no_write, no_write) == Err::<(), MemoryError>(err));
            assert(mem.accesses() =~= old(mem).accesses() + exp_write_accesses(*citra, slot, new_exp, gb, gs, no_write));
            return Err(err);
        }
        let concat = concat_slot(&blocks, &stats);
        let enc = Self::patch_exp(&concat, new_exp);
        let enc_blocks = slice_to_vec(&enc, 0, PKM_BLOCKS_LEN);
        let enc_stats = slice_to_vec(&enc, PKM_BLOCKS_LEN, SLOT_CONCAT_LEN);
        assert(enc@ == patched_slot(gb, gs, new_exp));
        let wb = mem.write_bytes(base, enc_blocks.as_slice());
        let ghost gwb = wb;
        match wb {
            Ok(()) => {},
            Err(e) => {
                assert(exp_write_result(slot, gb, gs, gwb, no_write) == Err::<(), MemoryError>(e));
                assert(mem.accesses() =~= old(mem).accesses() + exp_write_accesses(*citra, slot, new_exp, gb, gs, gwb));
                return Err(e);
            },
        }
        let ws = mem.write_bytes(base + STATS_START, enc_stats.as_slice());
        assert(exp_write_result(slot, gb, gs, gwb, ws) == ws);
        assert(mem.accesses() =~= old(mem).accesses() + exp_write_accesses(*citra, slot, new_exp, gb, gs, gwb));
        ws
    }
}


/// Setting the experience of an encrypted slot changes its plaintext in the
/// experience field alone: decrypting the patched slot gives the old
/// plaintext with the new experience, so header, species and all other
/// data are kept.
pub proof fn lemma_patch_exp_plaintext(c: Seq<u8>, new_exp: u32)
    requires
        c.len() == SLOT_CONCAT_LEN,
    ensures
        spec_decrypt(spec_patch_exp(c, new_exp)) == with_exp(spec_decrypt(c), new_exp),
        spec_patch_exp(c, new_exp).subrange(0, 8) == c.subrange(0, 8),
        plain_exp(spec_decrypt(spec_patch_exp(c, new_exp))) == new_exp,
        plain_species(spec_decrypt(spec_patch_exp(c, new_exp))) == plain_species(spec_decrypt(c)),
{
    let p = with_exp(spec_decrypt(c), new_exp);
    lemma_decrypt_keeps_header(c);
    lemma_decrypt_inverts_encrypt(p);
    let x = spec_patch_exp(c, new_exp);
    lemma_decrypt_keeps_header(x);
    assert(spec_decrypt(c).subrange(0, 8) =~= p.subrange(0, 8));
    assert(x.subrange(0, 8) =~= c.subrange(0, 8)) by {
        assert(spec_decrypt(x).subrange(0, 8) == x.subrange(0, 8));
        assert(spec_decrypt(x) == p);
    }
    lemma_u32_le_roundtrip(new_exp);
}

/// What a read gives back of a write: after setting the experience of an
/// occupied slot to a plausible value, the slot holds the same Pokémon
/// (slot, species) with the new experience and the level that follows from
/// it.
pub proof fn lemma_read_after_write_exp(slot: u8, c: Seq<u8>, new_exp: u32)
    requires
        c.len() == SLOT_CONCAT_LEN,
        spec_party_pokemon(slot, c) is Some,
        new_exp <= MAX_EXP,
    ensures
        spec_party_pokemon(slot, spec_patch_exp(c, new_exp)) == Some(
            PartyPokemon {
                slot,
                species: spec_party_pokemon(slot, c)->0.species,
                level: spec_level_from_exp(
                    new_exp,
                    spec_growth_rate_of(spec_party_pokemon(slot, c)->0.species),
                ),
                exp: new_exp,
            },
        ),
{
    lemma_patch_exp_plaintext(c, new_exp);
    let x = spec_patch_exp(c, new_exp);
    assert(x[0] == c[0] && x[1] == c[1] && x[2] == c[2] && x[3] == c[3] && x[4] == c[4] && x[5]
        == c[5]) by {
        assert(x.subrange(0, 8)[0] == c.subrange(0, 8)[0]);
        assert(x.subrange(0, 8)[1] == c.subrange(0, 8)[1]);
        assert(x.subrange(0, 8)[2] == c.subrange(0, 8)[2]);
        assert(x.subrange(0, 8)[3] == c.subrange(0, 8)[3]);
        assert(x.subrange(0, 8)[4] == c.subrange(0, 8)[4]);
        assert(x.subrange(0, 8)[5] == c.subrange(0, 8)[5]);
    }
}

} // verus!
