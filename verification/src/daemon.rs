//! One round of the level-cap daemon: read the badges, look up the cap and
//! freeze the experience of every party Pokémon at or above the cap.
use vstd::prelude::*;

use crate::caps::{cap_error_message, sorted_keys, CapError, CapErrorView, CapTable};
use crate::emulator::CitraProcess;
use crate::game::badges::{badge_access, badge_addr, badge_count_result, read_badge_count};
use crate::game::growth_rates::{
    growth_rate_of, lemma_level_of_min_exp, lemma_min_exp_bounds, min_exp_for_level,
    spec_growth_rate_of, spec_level_from_exp, spec_min_exp_for_level,
};
use crate::game::party::{
    exp_write, exp_write_accesses, exp_write_result, party_slot_addr, slot_host_addr, slot_read,
    slot_read_accesses, slot_read_result, slot_reads_stats, PartyPokemon, PARTY_SIZE,
    PKM_BLOCKS_LEN, STATS_LEN, STATS_START,
};
use crate::game::decrypt::SLOT_CONCAT_LEN;
use crate::memory::{memory_error_message, LoggedMemory, MemAccess, MemoryError, ProcessMemory};
use crate::text::{decimal, push_decimal, push_str};

verus! {

/// What made a round fail.
#[derive(Debug)]
pub enum TickError {
    Memory(MemoryError),
    Cap(CapError),
}

/// What a round did that is worth reporting.
#[derive(Debug, Clone, Copy)]
pub enum TickEvent {
    /// The badge count differs from the one of the previous round.
    BadgesChanged { badges: u8, cap: u8 },
    /// The experience of a party Pokémon was set back to `new_exp`.
    Frozen { slot: u8, species: u16, level: u8, old_exp: u32, new_exp: u32 },
}

/// The message of a failed round.
pub open spec fn tick_error_message(e: &TickError) -> Seq<char> {
    match e {
        TickError::Memory(m) => memory_error_message(m),
        TickError::Cap(c) => cap_error_message(c@),
    }
}

/// The report line of an event.
pub open spec fn tick_event_message(e: TickEvent) -> Seq<char> {
    match e {
        TickEvent::BadgesChanged { badges, cap } => "[INFO] Orden-Anzahl: "@ + decimal(
            badges as nat,
        ) + " → Cap: Level "@ + decimal(cap as nat),
        TickEvent::Frozen { slot, species, level, old_exp, new_exp } => "[CAP] Slot "@ + decimal(
            slot as nat,
        ) + " (species "@ + decimal(species as nat) + ") auf Lvl "@ + decimal(level as nat)
            + " eingefroren (EXP "@ + decimal(old_exp as nat) + " → "@ + decimal(new_exp as nat)
            + ")"@,
    }
}

impl TickError {
    /// The human-readable message of the error.
    pub fn to_string(&self) -> (s: String)
        ensures
            s@ == tick_error_message(self),
    {
        match self {
            TickError::Memory(m) => m.to_string(),
            TickError::Cap(c) => c.to_string(),
        }
    }
}

impl TickEvent {
    /// The report line of the event.
    pub fn to_string(&self) -> (s: String)
        ensures
            s@ == tick_event_message(*self),
    {
        let mut s = String::new();
        match self {
            TickEvent::BadgesChanged { badges, cap } => {
                push_str(&mut s, "[INFO] Orden-Anzahl: ");
                push_decimal(&mut s, *badges as u64);
                push_str(&mut s, " → Cap: Level ");
                push_decimal(&mut s, *cap as u64);
            },
            TickEvent::Frozen { slot, species, level, old_exp, new_exp } => {
                push_str(&mut s, "[CAP] Slot ");
                push_decimal(&mut s, *slot as u64);
                push_str(&mut s, " (species ");
                push_decimal(&mut s, *species as u64);
                push_str(&mut s, ") auf Lvl ");
                push_decimal(&mut s, *level as u64);
                push_str(&mut s, " eingefroren (EXP ");
                push_decimal(&mut s, *old_exp as u64);
                push_str(&mut s, " → ");
                push_decimal(&mut s, *new_exp as u64);
                push_str(&mut s, ")");
            },
        }
        s
    }
}

/// The experience to write back for a party Pokémon under level cap `cap`.
/// A Pokémon below the cap is left alone. Otherwise it is frozen at its
/// current level (never below it, even when it was above the cap before):
/// its experience is set back to the minimum of that level if it has more.
pub open spec fn spec_freeze_exp(p: PartyPokemon, cap: u8) -> Option<u32> {
    if p.level < cap {
        None
    } else {
        let freeze_level = if p.level >= cap {
            p.level
        } else {
            cap
        };
        let max_exp = spec_min_exp_for_level(freeze_level, spec_growth_rate_of(p.species));
        if p.exp > max_exp {
            Some(max_exp as u32)
        } else {
            None
        }
    }
}

/// Decides the experience to write back for a party Pokémon under level cap `cap`.
pub fn freeze_exp(p: &PartyPokemon, cap: u8) -> (r: Option<u32>)
    ensures
        r == spec_freeze_exp(*p, cap),
{
    if p.level < cap {
        return None;
    }
    let freeze_level = if p.level >= cap {
        p.level
    } else {
        cap
    };
    let max_exp = min_exp_for_level(freeze_level, growth_rate_of(p.species));
    if p.exp > max_exp {
        Some(max_exp)
    } else {
        None
    }
}

/// The cap policy never lowers a level: when a Pokémon is set back, it is
/// at or above the cap, its new experience is below the old one and still
/// gives its current level; a Pokémon that is left alone is below the cap
/// or has no more than the minimum experience of its level. Setting back
/// twice changes nothing the second time.
pub proof fn lemma_freeze_keeps_level(p: PartyPokemon, cap: u8)
    requires
        1 <= p.level <= 100,
        p.level == spec_level_from_exp(p.exp, spec_growth_rate_of(p.species)),
    ensures
        spec_freeze_exp(p, cap) matches Some(e) ==> {
            &&& p.level >= cap
            &&& e < p.exp
            &&& e == spec_min_exp_for_level(p.level, spec_growth_rate_of(p.species))
            &&& spec_level_from_exp(e, spec_growth_rate_of(p.species)) == p.level
            &&& spec_freeze_exp(PartyPokemon { exp: e, ..p }, cap) is None
        },
        spec_freeze_exp(p, cap) is None ==> p.level < cap || p.exp <= spec_min_exp_for_level(
            p.level,
            spec_growth_rate_of(p.species),
        ),
{
    let rate = spec_growth_rate_of(p.species);
    lemma_min_exp_bounds(p.level, rate);
    lemma_level_of_min_exp(p.level, rate);
}

/// The events a successful round appends to `before`, giving `after`, when
/// the badge count was `last` before and is `badges` now, with cap `cap`:
/// first a badge change exactly when the count changed, then only freezes
/// of Pokémon at or above the cap, each to the minimum experience of its
/// current level, below the experience it had.
pub open spec fn round_events(
    before: Seq<TickEvent>,
    after: Seq<TickEvent>,
    last: Option<u8>,
    badges: u8,
    cap: u8,
) -> bool {
    &&& last != Some(badges) ==> after.len() > before.len() && after[before.len() as int]
        == TickEvent::BadgesChanged { badges, cap }
    &&& forall|k: int|
        before.len() <= k < after.len() ==> match #[trigger] after[k] {
            TickEvent::BadgesChanged { badges: b, cap: c } => k == before.len() && last != Some(
                badges,
            ) && b == badges && c == cap,
            TickEvent::Frozen { slot, species, level, old_exp, new_exp } => {
                &&& slot < PARTY_SIZE
                &&& level >= cap
                &&& new_exp < old_exp
                &&& new_exp == spec_min_exp_for_level(level, spec_growth_rate_of(species))
            },
        }
}

/// Whether every party slot and the badge byte lie in the process's address space.
pub open spec fn party_addresses_valid(citra: &CitraProcess) -> bool {
    &&& citra.maps_range(citra.badge_offset_3ds, 1)
    &&& forall|slot: u8|
        slot < PARTY_SIZE ==> #[trigger] citra.maps_range(
            party_slot_addr(slot),
            SLOT_CONCAT_LEN as nat,
        )
}

/// One party slot of a round under cap `cap`, with the access log going
/// from `log0` to `log1` and the events from `ev0` to `ev1`, ending with
/// `outcome`: the slot is read (a read error ends the round); a Pokémon
/// whose experience the cap policy sets back gets the new experience
/// written, and a successful write is reported as its freeze (a write error
/// ends the round); no other access is made.
pub open spec fn slot_round<M: ProcessMemory>(
    mem: &M,
    citra: CitraProcess,
    cap: u8,
    s: u8,
    log0: Seq<MemAccess>,
    log1: Seq<MemAccess>,
    ev0: Seq<TickEvent>,
    ev1: Seq<TickEvent>,
    outcome: Result<(), MemoryError>,
) -> bool {
    exists|o: Result<Option<PartyPokemon>, MemoryError>, mid: Seq<MemAccess>|
        #[trigger] slot_read(mem, citra, s, o, log0, mid) && match o {
            Err(e) => log1 == mid && ev1 == ev0 && outcome == Err::<(), MemoryError>(e),
            Ok(None) => log1 == mid && ev1 == ev0 && outcome is Ok,
            Ok(Some(p)) => match spec_freeze_exp(p, cap) {
                None => log1 == mid && ev1 == ev0 && outcome is Ok,
                Some(x) => exists|w: Result<(), MemoryError>|
                    #[trigger] exp_write(mem, citra, s, x, w, mid, log1) && match w {
                        Ok(_) => ev1 == ev0.push(
                            TickEvent::Frozen {
                                slot: s,
                                species: p.species,
                                level: p.level,
                                old_exp: p.exp,
                                new_exp: x,
                            },
                        ) && outcome is Ok,
                        Err(e) => ev1 == ev0 && outcome == Err::<(), MemoryError>(e),
                    },
            },
        }
}

/// Party slots `0..n` handled one after the other under cap `cap`, each
/// successfully, with the access log going from `log0` to `log1` and the
/// events from `ev0` to `ev1`.
pub open spec fn party_rounds<M: ProcessMemory>(
    mem: &M,
    citra: CitraProcess,
    cap: u8,
    n: nat,
    log0: Seq<MemAccess>,
    log1: Seq<MemAccess>,
    ev0: Seq<TickEvent>,
    ev1: Seq<TickEvent>,
) -> bool
    decreases n,
{
    if n == 0 {
        log1 == log0 && ev1 == ev0
    } else {
        exists|logm: Seq<MemAccess>, evm: Seq<TickEvent>|
            party_rounds(mem, citra, cap, (n - 1) as nat, log0, logm, ev0, evm)
                && #[trigger] slot_round(
                mem,
                citra,
                cap,
                (n - 1) as u8,
                logm,
                log1,
                evm,
                ev1,
                Ok::<(), MemoryError>(()),
            )
    }
}

/// Whether a round with cap table `caps` can give `r`, with the badge count
/// going from `last0` to `last1`, the access log from `log0` to `log1` and
/// the events from `ev0` to `ev1`: the badge byte is read; a read error, or
/// a badge count without a cap, ends the round with nothing else accessed
/// and the badge count kept; otherwise the count is recorded (a change of
/// it reported first) and the six party slots are handled in turn, until
/// one of them fails.
pub open spec fn round<M: ProcessMemory>(
    mem: &M,
    citra: CitraProcess,
    caps: Map<u8, u8>,
    last0: Option<u8>,
    last1: Option<u8>,
    log0: Seq<MemAccess>,
    log1: Seq<MemAccess>,
    ev0: Seq<TickEvent>,
    ev1: Seq<TickEvent>,
    r: Result<(), TickError>,
) -> bool {
    exists|d: Result<Vec<u8>, MemoryError>|
        #[trigger] mem.reads(badge_addr(citra), 1, d) && {
            let log_b = log0.push(badge_access(citra));
            match badge_count_result(citra, d) {
                Err(e) => {
                    &&& r == Err::<(), TickError>(TickError::Memory(e))
                    &&& log1 == log_b
                    &&& ev1 == ev0
                    &&& last1 == last0
                },
                Ok(b) => if !caps.contains_key(b) {
                    &&& (r matches Err(TickError::Cap(ce)) && ce@ == (CapErrorView::NoCap {
                        badges: b,
                        defined: sorted_keys(caps),
                    }))
                    &&& log1 == log_b
                    &&& ev1 == ev0
                    &&& last1 == last0
                } else {
                    let cap = caps[b];
                    let ev_b = if last0 == Some(b) {
                        ev0
                    } else {
                        ev0.push(TickEvent::BadgesChanged { badges: b, cap })
                    };
                    &&& last1 == Some(b)
                    &&& {
                        ||| r is Ok && party_rounds(
                            mem,
                            citra,
                            cap,
                            PARTY_SIZE as nat,
                            log_b,
                            log1,
                            ev_b,
                            ev1,
                        )
                        ||| exists|n: u8, logm: Seq<MemAccess>, evm: Seq<TickEvent>, e: MemoryError|
                            n < PARTY_SIZE && party_rounds(
                                mem,
                                citra,
                                cap,
                                n as nat,
                                log_b,
                                logm,
                                ev_b,
                                evm,
                            ) && #[trigger] slot_round(
                                mem,
                                citra,
                                cap,
                                n,
                                logm,
                                log1,
                                evm,
                                ev1,
                                Err::<(), MemoryError>(e),
                            ) && r == Err::<(), TickError>(TickError::Memory(e))
                    }
                },
            }
        }
}

/// Whether `b` starts with `a`.
pub open spec fn extends<T>(a: Seq<T>, b: Seq<T>) -> bool {
    a.len() <= b.len() && b.subrange(0, a.len() as int) == a
}

/// What a successful round owes party slot `s` under cap `cap`, given the
/// final access log `log` and events `ev`: the blocks part of the slot was
/// read, and some outcome of reading the slot succeeded; if it gave a
/// Pokémon at or above the cap with more experience than the minimum of its
/// level, that minimum was written back and reported as its freeze.
pub open spec fn slot_done<M: ProcessMemory>(
    mem: &M,
    citra: CitraProcess,
    cap: u8,
    s: u8,
    log: Seq<MemAccess>,
    ev: Seq<TickEvent>,
) -> bool {
    &&& log.contains(MemAccess::Read { addr: slot_host_addr(citra, s), size: PKM_BLOCKS_LEN })
    &&& exists|o: Result<Option<PartyPokemon>, MemoryError>, la: Seq<MemAccess>, lb: Seq<MemAccess>|
        #[trigger] slot_read(mem, citra, s, o, la, lb) && o is Ok && match o {
            Ok(Some(p)) => {
                let m = spec_min_exp_for_level(p.level, spec_growth_rate_of(p.species));
                p.level >= cap && p.exp > m ==> ev.contains(
                    TickEvent::Frozen {
                        slot: s,
                        species: p.species,
                        level: p.level,
                        old_exp: p.exp,
                        new_exp: m as u32,
                    },
                )
            },
            _ => true,
        }
}

/// Extending the log and the events keeps what a slot is owed.
proof fn lemma_slot_done_extends<M: ProcessMemory>(
    mem: &M,
    citra: CitraProcess,
    cap: u8,
    s: u8,
    log: Seq<MemAccess>,
    ev: Seq<TickEvent>,
    log2: Seq<MemAccess>,
    ev2: Seq<TickEvent>,
)
    requires
        slot_done(mem, citra, cap, s, log, ev),
        extends(log, log2),
        extends(ev, ev2),
    ensures
        slot_done(mem, citra, cap, s, log2, ev2),
{
    let x = MemAccess::Read { addr: slot_host_addr(citra, s), size: PKM_BLOCKS_LEN };
    let i = choose|i: int| 0 <= i < log.len() && log[i] == x;
    assert(log2.subrange(0, log.len() as int)[i] == log2[i]);
    assert(log2[i] == x);
    let (o, la, lb) = choose|o: Result<Option<PartyPokemon>, MemoryError>, la: Seq<MemAccess>, lb: Seq<MemAccess>|
        #[trigger] slot_read(mem, citra, s, o, la, lb) && o is Ok && match o {
            Ok(Some(p)) => {
                let m = spec_min_exp_for_level(p.level, spec_growth_rate_of(p.species));
                p.level >= cap && p.exp > m ==> ev.contains(
                    TickEvent::Frozen {
                        slot: s,
                        species: p.species,
                        level: p.level,
                        old_exp: p.exp,
                        new_exp: m as u32,
                    },
                )
            },
            _ => true,
        };
    if let Ok(Some(p)) = o {
        let m = spec_min_exp_for_level(p.level, spec_growth_rate_of(p.species));
        if p.level >= cap && p.exp > m {
            let f = TickEvent::Frozen {
                slot: s,
                species: p.species,
                level: p.level,
                old_exp: p.exp,
                new_exp: m as u32,
            };
            let k = choose|k: int| 0 <= k < ev.len() && ev[k] == f;
            assert(ev2.subrange(0, ev.len() as int)[k] == ev2[k]);
            assert(ev2.contains(f));
        }
    }
    assert(slot_read(mem, citra, s, o, la, lb));
}

/// One successful slot extends the log and the events, and owes its slot.
proof fn lemma_slot_round_done<M: ProcessMemory>(
    mem: &M,
    citra: CitraProcess,
    cap: u8,
    s: u8,
    log0: Seq<MemAccess>,
    log1: Seq<MemAccess>,
    ev0: Seq<TickEvent>,
    ev1: Seq<TickEvent>,
)
    requires
        slot_round(mem, citra, cap, s, log0, log1, ev0, ev1, Ok::<(), MemoryError>(())),
    ensures
        extends(log0, log1),
        extends(ev0, ev1),
        slot_done(mem, citra, cap, s, log1, ev1),
{
    let (o, mid) = choose|o: Result<Option<PartyPokemon>, MemoryError>, mid: Seq<MemAccess>|
        #[trigger] slot_read(mem, citra, s, o, log0, mid) && match o {
            Err(e) => log1 == mid && ev1 == ev0 && Ok::<(), MemoryError>(()) == Err::<
                (),
                MemoryError,
            >(e),
            Ok(None) => log1 == mid && ev1 == ev0,
            Ok(Some(p)) => match spec_freeze_exp(p, cap) {
                None => log1 == mid && ev1 == ev0,
                Some(x) => exists|w: Result<(), MemoryError>|
                    #[trigger] exp_write(mem, citra, s, x, w, mid, log1) && match w {
                        Ok(_) => ev1 == ev0.push(
                            TickEvent::Frozen {
                                slot: s,
                                species: p.species,
                                level: p.level,
                                old_exp: p.exp,
                                new_exp: x,
                            },
                        ),
                        Err(e) => ev1 == ev0 && Ok::<(), MemoryError>(()) == Err::<
                            (),
                            MemoryError,
                        >(e),
                    },
            },
        };
    let (blocks, stats) = choose|blocks: Result<Vec<u8>, MemoryError>, stats: Result<Vec<u8>, MemoryError>|
        #[trigger] slot_read_result(s, blocks, stats) == slot_read_result(s, blocks, stats) && {
            &&& mem.reads(slot_host_addr(citra, s), PKM_BLOCKS_LEN, blocks)
            &&& slot_reads_stats(blocks) ==> mem.reads(
                (slot_host_addr(citra, s) + STATS_START) as usize,
                STATS_LEN,
                stats,
            )
            &&& o == slot_read_result(s, blocks, stats)
            &&& mid == log0 + slot_read_accesses(citra, s, blocks)
        };
    let x = MemAccess::Read { addr: slot_host_addr(citra, s), size: PKM_BLOCKS_LEN };
    assert(mid[log0.len() as int] == x);
    assert(extends(log0, mid)) by {
        assert(mid.subrange(0, log0.len() as int) =~= log0);
    }
    match o {
        Ok(Some(p)) => {
            match spec_freeze_exp(p, cap) {
                Some(fx) => {
                    let w = choose|w: Result<(), MemoryError>|
                        #[trigger] exp_write(mem, citra, s, fx, w, mid, log1) && match w {
                            Ok(_) => ev1 == ev0.push(
                                TickEvent::Frozen {
                                    slot: s,
                                    species: p.species,
                                    level: p.level,
                                    old_exp: p.exp,
                                    new_exp: fx,
                                },
                            ),
                            Err(e) => ev1 == ev0 && Ok::<(), MemoryError>(()) == Err::<
                                (),
                                MemoryError,
                            >(e),
                        };
                    let (b2, s2, wb, ws) = choose|
                        b2: Result<Vec<u8>, MemoryError>,
                        s2: Result<Vec<u8>, MemoryError>,
                        wb: Result<(), MemoryError>,
                        ws: Result<(), MemoryError>,
                    |
                        #[trigger] exp_write_result(s, b2, s2, wb, ws) == exp_write_result(
                            s,
                            b2,
                            s2,
                            wb,
                            ws,
                        ) && log1 == mid + exp_write_accesses(citra, s, fx, b2, s2, wb);
                    assert(log1.subrange(0, mid.len() as int) =~= mid);
                    assert(log1.subrange(0, log0.len() as int) =~= log0);
                    assert(log1[log0.len() as int] == x);
                    assert(ev1.subrange(0, ev0.len() as int) =~= ev0);
                    assert(ev1[ev0.len() as int] == TickEvent::Frozen {
                        slot: s,
                        species: p.species,
                        level: p.level,
                        old_exp: p.exp,
                        new_exp: fx,
                    });
                },
                None => {
                    assert(ev1 =~= ev0);
                },
            }
        },
        _ => {},
    }
    if ev1 == ev0 {
        assert(ev1.subrange(0, ev0.len() as int) =~= ev0);
    }
    assert(log1.contains(x));
    assert(slot_read(mem, citra, s, o, log0, mid));
}

/// The first `n` slots handled successfully are each owed their due, and
/// the log and the events only grow.
proof fn lemma_party_rounds_done<M: ProcessMemory>(
    mem: &M,
    citra: CitraProcess,
    cap: u8,
    n: nat,
    log0: Seq<MemAccess>,
    log1: Seq<MemAccess>,
    ev0: Seq<TickEvent>,
    ev1: Seq<TickEvent>,
)
    requires
        n <= PARTY_SIZE,
        party_rounds(mem, citra, cap, n, log0, log1, ev0, ev1),
    ensures
        extends(log0, log1),
        extends(ev0, ev1),
        forall|s: u8| s < n ==> #[trigger] slot_done(mem, citra, cap, s, log1, ev1),
    decreases n,
{
    if n == 0 {
        assert(log1.subrange(0, log0.len() as int) =~= log0);
        assert(ev1.subrange(0, ev0.len() as int) =~= ev0);
    } else {
        let (logm, evm) = choose|logm: Seq<MemAccess>, evm: Seq<TickEvent>|
            party_rounds(mem, citra, cap, (n - 1) as nat, log0, logm, ev0, evm)
                && #[trigger] slot_round(
                mem,
                citra,
                cap,
                (n - 1) as u8,
                logm,
                log1,
                evm,
                ev1,
                Ok::<(), MemoryError>(()),
            );
        lemma_party_rounds_done(mem, citra, cap, (n - 1) as nat, log0, logm, ev0, evm);
        lemma_slot_round_done(mem, citra, cap, (n - 1) as u8, logm, log1, evm, ev1);
        assert forall|s: u8| s < n implies #[trigger] slot_done(mem, citra, cap, s, log1, ev1) by {
            if s < n - 1 {
                lemma_slot_done_extends(mem, citra, cap, s, logm, evm, log1, ev1);
            }
        }
        assert(log1.subrange(0, log0.len() as int) =~= logm.subrange(0, log0.len() as int));
        assert(ev1.subrange(0, ev0.len() as int) =~= evm.subrange(0, ev0.len() as int));
    }
}

/// A successful round handles every one of the six party slots: it reads
/// each slot, and each Pokémon at or above the round's cap with more
/// experience than the minimum of its current level gets that minimum
/// written back and is reported as frozen. The cap is the one the table
/// gives for the badge count recorded.
pub proof fn lemma_round_handles_every_slot<M: ProcessMemory>(
    mem: &M,
    citra: CitraProcess,
    caps: Map<u8, u8>,
    last0: Option<u8>,
    last1: Option<u8>,
    log0: Seq<MemAccess>,
    log1: Seq<MemAccess>,
    ev0: Seq<TickEvent>,
    ev1: Seq<TickEvent>,
)
    requires
        round(mem, citra, caps, last0, last1, log0, log1, ev0, ev1, Ok::<(), TickError>(())),
    ensures
        last1 matches Some(b) && caps.contains_key(b) && forall|s: u8|
            s < 6 ==> #[trigger] slot_done(mem, citra, caps[b], s, log1, ev1),
{
    let d = choose|d: Result<Vec<u8>, MemoryError>|
        #[trigger] mem.reads(badge_addr(citra), 1, d) && {
            let log_b = log0.push(badge_access(citra));
            match badge_count_result(citra, d) {
                Err(e) => {
                    &&& Ok::<(), TickError>(()) == Err::<(), TickError>(TickError::Memory(e))
                    &&& log1 == log_b
                    &&& ev1 == ev0
                    &&& last1 == last0
                },
                Ok(b) => if !caps.contains_key(b) {
                    &&& (Ok::<(), TickError>(()) matches Err(TickError::Cap(ce)) && ce@
                        == (CapErrorView::NoCap { badges: b, defined: sorted_keys(caps) }))
                    &&& log1 == log_b
                    &&& ev1 == ev0
                    &&& last1 == last0
                } else {
                    let cap = caps[b];
                    let ev_b = if last0 == Some(b) {
                        ev0
                    } else {
                        ev0.push(TickEvent::BadgesChanged { badges: b, cap })
                    };
                    &&& last1 == Some(b)
                    &&& party_rounds(mem, citra, cap, PARTY_SIZE as nat, log_b, log1, ev_b, ev1)
                },
            }
        };
    if let Ok(b) = badge_count_result(citra, d) {
        let cap = caps[b];
        let ev_b = if last0 == Some(b) {
            ev0
        } else {
            ev0.push(TickEvent::BadgesChanged { badges: b, cap })
        };
        lemma_party_rounds_done(
            mem,
            citra,
            cap,
            PARTY_SIZE as nat,
            log0.push(badge_access(citra)),
            log1,
            ev_b,
            ev1,
        );
    }
}

/// Handling one more party slot successfully extends the slots handled.
proof fn lemma_party_rounds_step<M: ProcessMemory>(
    mem: &M,
    citra: CitraProcess,
    cap: u8,
    n: u8,
    log0: Seq<MemAccess>,
    logm: Seq<MemAccess>,
    log1: Seq<MemAccess>,
    ev0: Seq<TickEvent>,
    evm: Seq<TickEvent>,
    ev1: Seq<TickEvent>,
)
    requires
        n < 255,
        party_rounds(mem, citra, cap, n as nat, log0, logm, ev0, evm),
        slot_round(mem, citra, cap, n, logm, log1, evm, ev1, Ok::<(), MemoryError>(())),
    ensures
        party_rounds(mem, citra, cap, (n + 1) as nat, log0, log1, ev0, ev1),
{
    assert((((n + 1) as nat) - 1) as u8 == n);
    assert((((n + 1) as nat) - 1) as nat == n as nat);
}

/// One round: reads the badge count, looks up its cap (reporting a change of
/// the badge count), and freezes every party Pokémon at or above the cap.
/// Events are appended to `events` as they happen.
pub fn tick<M: ProcessMemory>(
    mem: &mut LoggedMemory<M>,
    citra: &CitraProcess,
    caps: &CapTable,
    last_badges: &mut Option<u8>,
    events: &mut Vec<TickEvent>,
) -> (r: Result<(), TickError>)
    requires
        party_addresses_valid(citra),
    ensures
        final(mem).memory() == old(mem).memory(),
        old(events)@.len() <= final(events)@.len(),
        forall|k: int|
            0 <= k < old(events)@.len() ==> #[trigger] final(events)@[k] == old(events)@[k],
        round(
            old(mem).memory(),
            *citra,
            caps@,
            *old(last_badges),
            *final(last_badges),
            old(mem).accesses(),
            final(mem).accesses(),
            old(events)@,
            final(events)@,
            r,
        ),
        r is Ok ==> (*final(last_badges) matches Some(b) && caps@.contains_key(b) && round_events(
            old(events)@,
            final(events)@,
            *old(last_badges),
            b,
            caps@[b],
        )),
{
    let ghost m0 = old(mem).memory();
    let ghost log0 = old(mem).accesses();
    let ghost log_b = log0.push(badge_access(*citra));
    let badge_result = read_badge_count(mem, citra);
    let ghost d = choose|d: Result<Vec<u8>, MemoryError>|
        #[trigger] m0.reads(badge_addr(*citra), 1, d) && badge_result == badge_count_result(
            *citra,
            d,
        );
    assert(m0.reads(badge_addr(*citra), 1, d));
    let badges = match badge_result {
        Ok(b) => b,
        Err(e) => {
            assert(events@ == old(events)@);
            return Err(TickError::Memory(e));
        },
    };
    let cap = match caps.cap_for(badges) {
        Ok(c) => c,
        Err(e) => {
            assert(events@ == old(events)@);
            return Err(TickError::Cap(e));
        },
    };
    let changed = match *last_badges {
        Some(b) => b != badges,
        None => true,
    };
    *last_badges = Some(badges);
    if changed {
        events.push(TickEvent::BadgesChanged { badges, cap });
    }
    let ghost start = old(events)@;
    let ghost last = *old(last_badges);
    let ghost ev_b = events@;
    assert(round_events(start, events@, last, badges, cap));
    assert(party_rounds(m0, *citra, cap, 0, log_b, mem.accesses(), ev_b, events@));
    let mut slot: u8 = 0;
    while slot < PARTY_SIZE
        invariant
            party_addresses_valid(citra),
            start == old(events)@,
            last == *old(last_badges),
            start.len() <= events@.len(),
            forall|k: int| 0 <= k < start.len() ==> #[trigger] events@[k] == start[k],
            *last_badges == Some(badges),
            caps@.contains_key(badges),
            cap == caps@[badges],
            badge_count_result(*citra, d) == Ok::<u8, MemoryError>(badges),
            m0.reads(badge_addr(*citra), 1, d),
            log_b == old(mem).accesses().push(badge_access(*citra)),
            m0 == old(mem).memory(),
            ev_b == (if last == Some(badges) {
                start
            } else {
                start.push(TickEvent::BadgesChanged { badges, cap })
            }),
            round_events(start, events@, last, badges, cap),
            mem.memory() == m0,
            slot <= PARTY_SIZE,
            party_rounds(m0, *citra, cap, slot as nat, log_b, mem.accesses(), ev_b, events@),
        decreases PARTY_SIZE - slot,
    {
        let ghost log_s = mem.accesses();
        let ghost ev_s = events@;
        let read_result = PartyPokemon::read(mem, citra, slot);
        let ghost read_outcome = read_result;
        let ghost log_r = mem.accesses();
        assert(slot_read(m0, *citra, slot, read_outcome, log_s, log_r));
        let pkmn = match read_result {
            Ok(Some(p)) => p,
            Ok(None) => {
                assert(slot_round(m0, *citra, cap, slot, log_s, log_r, ev_s, ev_s, Ok(())));
                proof {
                    lemma_party_rounds_step(
                        m0,
                        *citra,
                        cap,
                        slot,
                        log_b,
                        log_s,
                        log_r,
                        ev_b,
                        ev_s,
                        ev_s,
                    );
                }
                slot += 1;
                continue;
            },
            Err(e) => {
                assert(slot_round(m0, *citra, cap, slot, log_s, log_r, ev_s, ev_s, Err(e)));
                return Err(TickError::Memory(e));
            },
        };
        let freeze = freeze_exp(&pkmn, cap);
        match freeze {
            None => {
                assert(slot_round(m0, *citra, cap, slot, log_s, log_r, ev_s, ev_s, Ok(())));
            },
            Some(max_exp) => {
                proof {
                    lemma_min_exp_bounds(pkmn.level, spec_growth_rate_of(pkmn.species));
                }
                let ghost before = events@;
                let write_result = pkmn.write_exp(mem, citra, max_exp);
                let ghost write_outcome = write_result;
                let ghost log_w = mem.accesses();
                assert(exp_write(m0, *citra, slot, max_exp, write_outcome, log_r, log_w));
                match write_result {
                    Ok(done) => {
                        assert(write_outcome == Ok::<(), MemoryError>(done));
                    },
                    Err(e) => {
                        assert(slot_round(
                            m0,
                            *citra,
                            cap,
                            slot,
                            log_s,
                            log_w,
                            ev_s,
                            ev_s,
                            Err(e),
                        ));
                        return Err(TickError::Memory(e));
                    },
                }
                events.push(
                    TickEvent::Frozen {
                        slot: pkmn.slot,
                        species: pkmn.species,
                        level: pkmn.level,
                        old_exp: pkmn.exp,
                        new_exp: max_exp,
                    },
                );
                assert forall|k: int| start.len() <= k < events@.len() implies match #[trigger] events@[k] {
                    TickEvent::BadgesChanged { badges: b, cap: c } => k == start.len() && last
                        != Some(badges) && b == badges && c == cap,
                    TickEvent::Frozen { slot, species, level, old_exp, new_exp } => {
                        &&& slot < PARTY_SIZE
                        &&& level >= cap
                        &&& new_exp < old_exp
                        &&& new_exp == spec_min_exp_for_level(level, spec_growth_rate_of(species))
                    },
                } by {
                    if k < before.len() {
                        assert(events@[k] == before[k]);
                    }
                }
                assert(slot_round(
                    m0,
                    *citra,
                    cap,
                    slot,
                    log_s,
                    log_w,
                    ev_s,
                    events@,
                    Ok(()),
                ));
            },
        }
        proof {
            lemma_party_rounds_step(
                m0,
                *citra,
                cap,
                slot,
                log_b,
                log_s,
                mem.accesses(),
                ev_b,
                ev_s,
                events@,
            );
        }
        slot += 1;
    }
    Ok(())
}

/// Wait before searching for Citra again after a failure, in milliseconds.
pub const RECONNECT_BACKOFF_MS: u64 = 2000;

/// Wait between two rounds, in milliseconds.
pub const TICK_INTERVAL_MS: u64 = 500;

/// Where the daemon stands.
#[derive(Debug, Clone, Copy)]
pub enum DaemonState {
    /// Looking for the Citra process.
    Searching,
    /// Citra `pid` was found; its memory is being opened.
    Opening { pid: u32 },
    /// Rounds are running; `last_badges` is the badge count of the last round.
    Running { last_badges: Option<u8> },
}

/// What the outside world reports back after an action.
#[derive(Debug, Clone, Copy)]
pub enum DaemonEvent {
    /// No Citra process (or no FCRAM in it) was found.
    CitraNotFound,
    /// Citra was found as process `pid`.
    CitraFound(u32),
    /// The process memory could not be opened.
    MemoryOpenFailed,
    /// The process memory was opened.
    MemoryOpened,
    /// A round succeeded; the badge count is now `last_badges`.
    TickOk { last_badges: Option<u8> },
    /// A round failed.
    TickFailed,
}

/// What the daemon asks the outside world to do next.
#[derive(Debug, Clone, Copy)]
pub enum DaemonAction {
    /// Look for the Citra process.
    FindCitra,
    /// Open the memory of process `pid`.
    OpenMemory(u32),
    /// Run one round.
    Tick,
    /// Wait `millis` milliseconds.
    Sleep { millis: u64 },
}

/// The state the daemon starts in and its first actions.
pub open spec fn spec_daemon_start() -> (DaemonState, Seq<DaemonAction>) {
    (DaemonState::Searching, seq![DaemonAction::FindCitra])
}

/// What follows a failure: wait 2 s, then search for Citra again.
pub open spec fn reconnect() -> (DaemonState, Seq<DaemonAction>) {
    (
        DaemonState::Searching,
        seq![DaemonAction::Sleep { millis: RECONNECT_BACKOFF_MS }, DaemonAction::FindCitra],
    )
}

/// The next state and the actions to perform after `event` in `state`:
/// a found process is opened, an opened memory starts the rounds (with no
/// badge count known), a successful round schedules the next one after
/// 500 ms; every failure (and an event that does not fit the state) waits
/// 2 s and searches for Citra again.
pub open spec fn spec_daemon_step(state: DaemonState, event: DaemonEvent) -> (
    DaemonState,
    Seq<DaemonAction>,
) {
    match (state, event) {
        (DaemonState::Searching, DaemonEvent::CitraFound(pid)) => (
            DaemonState::Opening { pid },
            seq![DaemonAction::OpenMemory(pid)],
        ),
        (DaemonState::Opening { .. }, DaemonEvent::MemoryOpened) => (
            DaemonState::Running { last_badges: None },
            seq![DaemonAction::Tick],
        ),
        (DaemonState::Running { .. }, DaemonEvent::TickOk { last_badges }) => (
            DaemonState::Running { last_badges },
            seq![DaemonAction::Sleep { millis: TICK_INTERVAL_MS }, DaemonAction::Tick],
        ),
        _ => reconnect(),
    }
}

/// The state the daemon starts in and its first actions: search for Citra.
pub fn daemon_start() -> (r: (DaemonState, Vec<DaemonAction>))
    ensures
        r.0 == spec_daemon_start().0,
        r.1@ == spec_daemon_start().1,
{
    let mut actions = Vec::new();
    actions.push(DaemonAction::FindCitra);
    assert(actions@ =~= spec_daemon_start().1);
    (DaemonState::Searching, actions)
}

/// Decides the next state and the actions to perform after `event` in
/// `state`.
pub fn daemon_step(state: &DaemonState, event: &DaemonEvent) -> (r: (
    DaemonState,
    Vec<DaemonAction>,
))
    ensures
        r.0 == spec_daemon_step(*state, *event).0,
        r.1@ == spec_daemon_step(*state, *event).1,
{
    let mut actions = Vec::new();
    let next = match (state, event) {
        (DaemonState::Searching, DaemonEvent::CitraFound(pid)) => {
            actions.push(DaemonAction::OpenMemory(*pid));
            DaemonState::Opening { pid: *pid }
        },
        (DaemonState::Opening { .. }, DaemonEvent::MemoryOpened) => {
            actions.push(DaemonAction::Tick);
            DaemonState::Running { last_badges: None }
        },
        (DaemonState::Running { .. }, DaemonEvent::TickOk { last_badges }) => {
            actions.push(DaemonAction::Sleep { millis: TICK_INTERVAL_MS });
            actions.push(DaemonAction::Tick);
            DaemonState::Running { last_badges: *last_badges }
        },
        _ => {
            actions.push(DaemonAction::Sleep { millis: RECONNECT_BACKOFF_MS });
            actions.push(DaemonAction::FindCitra);
            DaemonState::Searching
        },
    };
    assert(actions@ =~= spec_daemon_step(*state, *event).1);
    (next, actions)
}

/// Every failure (Citra not found, memory not opened, a failed round) makes
/// the daemon wait 2 s and search for Citra again, whatever state it was
/// in; a successful round keeps the daemon running, remembers the badge
/// count and runs the next round after 500 ms.
pub proof fn lemma_daemon_recovers(state: DaemonState, last_badges: Option<u8>)
    ensures
        spec_daemon_step(state, DaemonEvent::CitraNotFound) == reconnect(),
        spec_daemon_step(state, DaemonEvent::MemoryOpenFailed) == reconnect(),
        spec_daemon_step(state, DaemonEvent::TickFailed) == reconnect(),
        state is Running ==> spec_daemon_step(state, DaemonEvent::TickOk { last_badges }) == (
            DaemonState::Running { last_badges },
            seq![DaemonAction::Sleep { millis: TICK_INTERVAL_MS }, DaemonAction::Tick],
        ),
{
}

} // verus!
