//! Memory regions as the Windows backend lists them.
use vstd::prelude::*;

use crate::text::push_str;

verus! {

/// A committed, private, read-write memory region of a process: start
/// address and size.
#[derive(Debug, Clone, Copy)]
pub struct Region {
    pub base: usize,
    pub size: usize,
}

/// `State` of committed memory (`MEM_COMMIT`).
pub const MEM_COMMIT: u32 = 0x1000;

/// `Type` of private memory (`MEM_PRIVATE`).
pub const MEM_PRIVATE: u32 = 0x20000;

/// `Protect` of read-write memory (`PAGE_READWRITE`).
pub const PAGE_READWRITE: u32 = 0x04;

/// Why the walk over the regions of a process stopped with an error.
#[derive(Debug)]
pub enum RegionWalkError {
    /// A region reaches beyond the end of the address space.
    Overflow,
}

/// The message of a region walk error.
pub open spec fn region_walk_error_message(e: RegionWalkError) -> Seq<char> {
    match e {
        RegionWalkError::Overflow => "VirtualQueryEx overflow"@,
    }
}

impl RegionWalkError {
    /// The human-readable message of the error.
    pub fn to_string(&self) -> (s: String)
        ensures
            s@ == region_walk_error_message(*self),
    {
        let mut s = String::new();
        match self {
            RegionWalkError::Overflow => push_str(&mut s, "VirtualQueryEx overflow"),
        }
        s
    }
}

/// Whether a region's attributes make it an FCRAM candidate: committed,
/// private, read-write.
pub open spec fn is_candidate(state: u32, kind: u32, protect: u32) -> bool {
    state == MEM_COMMIT && kind == MEM_PRIVATE && protect == PAGE_READWRITE
}

/// One step of the walk over the regions of a process: the query returned
/// `ret` (0 when there is no region at or above the queried address), and
/// the region found starts at `base`, has `size` bytes and the given state,
/// type and protection. Gives the region to keep, if it is a candidate,
/// and the address to query next; `(None, None)` ends the walk; a region
/// that reaches beyond the address space is an error.
pub fn region_step(ret: usize, base: usize, size: usize, state: u32, kind: u32, protect: u32) -> (r:
    Result<(Option<Region>, Option<usize>), RegionWalkError>)
    ensures
        ret == 0 ==> r matches Ok((None, None)),
        ret != 0 && base + size > usize::MAX ==> r matches Err(RegionWalkError::Overflow),
        ret != 0 && base + size <= usize::MAX ==> (r matches Ok((keep, Some(next))) && next == base
            + size && match keep {
            Some(g) => is_candidate(state, kind, protect) && g.base == base && g.size == size,
            None => !is_candidate(state, kind, protect),
        }),
{
    if ret == 0 {
        return Ok((None, None));
    }
    if size > usize::MAX - base {
        return Err(RegionWalkError::Overflow);
    }
    let keep = if state == MEM_COMMIT && kind == MEM_PRIVATE && protect == PAGE_READWRITE {
        Some(Region { base, size })
    } else {
        None
    };
    Ok((keep, Some(base + size)))
}

} // verus!
