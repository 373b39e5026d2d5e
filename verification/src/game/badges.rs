//! The number of Hoenn league badges the player has won.
use vstd::prelude::*;

use crate::bytes::{popcount, spec_popcount};
use crate::emulator::CitraProcess;
use crate::memory::{u8_from_read, u8_read_result, LoggedMemory, MemAccess, MemoryError, ProcessMemory};

verus! {

/// Number of badges that a badge byte records: ORAS keeps the eight badges
/// as bit flags in one byte (bit 0 Stone Badge, bit 7 Rain Badge).
pub fn badge_count(flags: u8) -> (n: u8)
    ensures
        n as nat == spec_popcount(flags),
        n <= 8,
{
    popcount(flags)
}

/// Host address of the badge byte.
pub open spec fn badge_addr(citra: CitraProcess) -> usize {
    citra.spec_fcram_addr(citra.badge_offset_3ds) as usize
}

/// The badge count that a read of the badge byte gives, from what the raw
/// read `d` delivered: the number of set bits, or the read's error.
pub open spec fn badge_count_result(citra: CitraProcess, d: Result<Vec<u8>, MemoryError>) -> Result<
    u8,
    MemoryError,
> {
    match u8_read_result(badge_addr(citra), d) {
        Ok(flags) => Ok(spec_popcount(flags) as u8),
        Err(e) => Err(e),
    }
}

/// Whether `r` is a result that reading the badge count can give: the one
/// that follows from some outcome of reading the badge byte.
pub open spec fn badge_read<M: ProcessMemory>(
    mem: &M,
    citra: CitraProcess,
    r: Result<u8, MemoryError>,
) -> bool {
    exists|d: Result<Vec<u8>, MemoryError>|
        #[trigger] mem.reads(badge_addr(citra), 1, d) && r == badge_count_result(citra, d)
}

/// The log entry of reading the badge byte.
pub open spec fn badge_access(citra: CitraProcess) -> MemAccess {
    MemAccess::Read { addr: badge_addr(citra), size: 1 }
}

/// Reads the number of won Hoenn badges from the live memory: the set bits
/// of the byte at `citra.badge_offset_3ds`. The one access is that read.
pub fn read_badge_count<M: ProcessMemory>(mem: &mut LoggedMemory<M>, citra: &CitraProcess) -> (r:
    Result<u8, MemoryError>)
    requires
        citra.maps_range(citra.badge_offset_3ds, 1),
    ensures
        final(mem).memory() == old(mem).memory(),
        final(mem).accesses() == old(mem).accesses().push(badge_access(*citra)),
        badge_read(old(mem).memory(), *citra, r),
        r matches Ok(n) ==> n <= 8,
{
    let addr = citra.fcram_addr(citra.badge_offset_3ds);
    let d = mem.read_bytes(addr, 1);
    let ghost outcome = d;
    match d {
        Ok(b) => {
            let byte = u8_from_read(addr, &b)?;
            Ok(badge_count(byte))
        },
        Err(e) => Err(e),
    }
}

} // verus!
