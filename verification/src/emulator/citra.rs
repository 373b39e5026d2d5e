//! The Citra process and the location of the 3DS FCRAM inside it.
use vstd::prelude::*;

use super::Emulator;
use crate::memory::windows::Region;
use crate::text::{
    chars_of, contains_ascii_ci, decimal, occurs_ignoring_ascii_case_at, push_decimal, push_str,
    starts_with_ascii_ci, starts_with_ignoring_ascii_case,
};

verus! {

/// Size of the 3DS FCRAM: 128 MiB.
pub const FCRAM_SIZE: usize = 128 * 1024 * 1024;

/// Guest address at which the 3DS maps its FCRAM.
pub const FCRAM_3DS_BASE: usize = 0x0800_0000;

/// Guest address of the badge byte found for the reference build.
pub const DEFAULT_BADGE_OFFSET_3DS: usize = 0x0F48_EE14;

/// Guest address of the first battle-layout party slot for the reference build.
pub const DEFAULT_PARTY_BASE_3DS: usize = 0x0F51_82BC;

/// A running Citra process and where its guest data lies.
pub struct CitraProcess {
    pub pid: u32,
    /// Host address at which the guest FCRAM starts.
    pub fcram_base: usize,
    /// Guest address of the badge byte.
    pub badge_offset_3ds: usize,
    /// Guest address of the first party slot (484-byte battle layout).
    pub party_base_3ds: usize,
}

/// Why no Citra process could be used.
#[derive(Debug)]
pub enum CitraError {
    /// No process looks like Citra.
    NotRunning,
    /// The process has no memory region of at least 128 MiB; `anonymous`
    /// tells whether the candidates were the anonymous read-write mappings.
    NoFcramRegion { pid: u32, anonymous: bool },
}

/// The message of a Citra error.
pub open spec fn citra_error_message(e: &CitraError) -> Seq<char> {
    match e {
        CitraError::NotRunning => "Citra-Prozess nicht gefunden. Citra mit ORAS gestartet?"@,
        CitraError::NoFcramRegion { pid, anonymous } => (if *anonymous {
            "Kein anonymer RW-Block ≥ 128 MiB im Prozess "@
        } else {
            "Kein RW-Block ≥ 128 MiB im Prozess "@
        }) + decimal(*pid as nat) + " gefunden — Citra läuft, aber kein Spiel geladen?"@,
    }
}

impl CitraError {
    /// The human-readable message of the error.
    pub fn to_string(&self) -> (s: String)
        ensures
            s@ == citra_error_message(self),
    {
        let mut s = String::new();
        match self {
            CitraError::NotRunning => {
                push_str(&mut s, "Citra-Prozess nicht gefunden. Citra mit ORAS gestartet?");
            },
            CitraError::NoFcramRegion { pid, anonymous } => {
                if *anonymous {
                    push_str(&mut s, "Kein anonymer RW-Block ≥ 128 MiB im Prozess ");
                } else {
                    push_str(&mut s, "Kein RW-Block ≥ 128 MiB im Prozess ");
                }
                push_decimal(&mut s, *pid as u64);
                push_str(&mut s, " gefunden — Citra läuft, aber kein Spiel geladen?");
            },
        }
        s
    }
}

impl CitraProcess {
    /// Whether the guest range `[addr_3ds, addr_3ds + len)` lies at or above
    /// the FCRAM base and its host addresses fit in `usize`.
    pub open spec fn maps_range(&self, addr_3ds: usize, len: nat) -> bool {
        addr_3ds >= FCRAM_3DS_BASE && self.fcram_base + (addr_3ds - FCRAM_3DS_BASE) + len
            <= usize::MAX
    }

    /// Host address of a guest FCRAM address.
    pub open spec fn spec_fcram_addr(&self, addr_3ds: usize) -> int {
        self.fcram_base + (addr_3ds - FCRAM_3DS_BASE)
    }

    /// Translates a guest FCRAM address (0x08000000 and up) into the host
    /// address inside the Citra process.
    pub fn fcram_addr(&self, addr_3ds: usize) -> (addr: usize)
        requires
            self.maps_range(addr_3ds, 0),
        ensures
            addr == self.spec_fcram_addr(addr_3ds),
    {
        self.fcram_base + (addr_3ds - FCRAM_3DS_BASE)
    }

    /// The Citra process among `processes` (the first whose name denotes
    /// Citra), given the candidate regions of its memory (`anonymous`: the
    /// anonymous read-write mappings), with the guest offsets of the
    /// reference build. Fails when no process is Citra or no region is at
    /// least 128 MiB large.
    pub fn find(processes: &Vec<ProcessInfo>, regions: &Vec<Region>, anonymous: bool) -> (r: Result<
        CitraProcess,
        CitraError,
    >)
        ensures
            (forall|i: int| 0 <= i < processes.len() ==> !is_citra_name(#[trigger] processes@[i].name@))
                ==> (r matches Err(CitraError::NotRunning)),
            forall|i: int|
                #[trigger] is_first_citra(processes@, i) ==> match find_fcram_region(regions@) {
                    None => r matches Err(CitraError::NoFcramRegion { pid: q, anonymous: a }) && q
                        == processes@[i].pid && a == anonymous,
                    Some(k) => r matches Ok(c) && c.pid == processes@[i].pid && c.fcram_base
                        == regions@[k].base && c.badge_offset_3ds == DEFAULT_BADGE_OFFSET_3DS
                        && c.party_base_3ds == DEFAULT_PARTY_BASE_3DS,
                },
    {
        let pid = match find_citra_pid(processes) {
            None => {
                return Err(CitraError::NotRunning);
            },
            Some(p) => p,
        };
        proof {
            let i = choose|i: int| is_first_citra(processes@, i) && processes@[i].pid == pid;
            assert forall|j: int| #[trigger] is_first_citra(processes@, j) implies processes@[j].pid
                == pid by {
                if j < i {
                    assert(!is_citra_name(processes@[j].name@));
                } else if i < j {
                    assert(!is_citra_name(processes@[i].name@));
                }
            }
        }
        let fcram_base = find_fcram_base(pid, regions, anonymous)?;
        Ok(
            CitraProcess {
                pid,
                fcram_base,
                badge_offset_3ds: DEFAULT_BADGE_OFFSET_3DS,
                party_base_3ds: DEFAULT_PARTY_BASE_3DS,
            },
        )
    }
}

impl Emulator for CitraProcess {
    fn pid(&self) -> (p: u32)
        ensures
            p == self.pid,
    {
        self.pid
    }

    fn fcram_addr(&self, addr_3ds: usize) -> (addr: usize)
        ensures
            self.maps_range(addr_3ds, 0) ==> addr == self.spec_fcram_addr(addr_3ds),
    {
        if addr_3ds >= FCRAM_3DS_BASE && self.fcram_base <= usize::MAX - (addr_3ds - FCRAM_3DS_BASE) {
            CitraProcess::fcram_addr(self, addr_3ds)
        } else {
            self.fcram_base.wrapping_add(addr_3ds.wrapping_sub(FCRAM_3DS_BASE))
        }
    }
}

/// The index of the region chosen as FCRAM: the largest region of at least
/// 128 MiB, the first of them where several are equally large; `None` if no
/// region is that large.
#[verifier::opaque]
pub open spec fn find_fcram_region(rs: Seq<Region>) -> Option<int> {
    if exists|i: int| 0 <= i < rs.len() && rs[i].size >= FCRAM_SIZE {
        Some(
            choose|i: int|
                {
                    &&& 0 <= i < rs.len()
                    &&& rs[i].size >= FCRAM_SIZE
                    &&& forall|j: int| 0 <= j < rs.len() ==> (#[trigger] rs[j]).size <= rs[i].size
                    &&& forall|j: int| 0 <= j < i ==> (#[trigger] rs[j]).size < rs[i].size
                },
        )
    } else {
        None
    }
}

/// Picks the FCRAM region: the largest region of at least 128 MiB, the
/// first of them where several are equally large.
pub fn pick_fcram_region(rs: &Vec<Region>) -> (r: Option<usize>)
    ensures
        match r {
            Some(i) => i < rs.len() && find_fcram_region(rs@) == Some(i as int),
            None => find_fcram_region(rs@) is None,
        },
{
    reveal(find_fcram_region);
    let mut best: Option<usize> = None;
    let mut i: usize = 0;
    while i < rs.len()
        invariant
            i <= rs.len(),
            match best {
                None => forall|j: int| 0 <= j < i ==> (#[trigger] rs@[j]).size < FCRAM_SIZE,
                Some(b) => {
                    &&& b < i
                    &&& rs@[b as int].size >= FCRAM_SIZE
                    &&& forall|j: int| 0 <= j < i ==> (#[trigger] rs@[j]).size <= rs@[b as int].size
                    &&& forall|j: int| 0 <= j < b ==> (#[trigger] rs@[j]).size < rs@[b as int].size
                },
            },
        decreases rs.len() - i,
    {
        if rs[i].size >= FCRAM_SIZE {
            match best {
                None => {
                    best = Some(i);
                },
                Some(b) => {
                    if rs[i].size > rs[b].size {
                        best = Some(i);
                    }
                },
            }
        }
        i += 1;
    }
    match best {
        None => {
            assert(!exists|j: int| 0 <= j < rs@.len() && rs@[j].size >= FCRAM_SIZE);
        },
        Some(b) => {
            let ghost bi = b as int;
            assert(rs@[bi].size >= FCRAM_SIZE);
            let ghost c = find_fcram_region(rs@)->0;
            assert(c == bi) by {
                if c < bi {
                    assert(rs@[c].size < rs@[bi].size);
                } else if c > bi {
                    assert(rs@[bi].size < rs@[c].size);
                }
            }
        },
    }
    best
}

/// Finds the host address of the FCRAM in process `pid` among its candidate
/// regions (`anonymous`: the anonymous read-write mappings): the largest
/// region of at least 128 MiB.
pub fn find_fcram_base(pid: u32, regions: &Vec<Region>, anonymous: bool) -> (r: Result<
    usize,
    CitraError,
>)
    ensures
        match find_fcram_region(regions@) {
            None => r matches Err(CitraError::NoFcramRegion { pid: q, anonymous: a }) && q == pid
                && a == anonymous,
            Some(i) => r == Ok::<usize, CitraError>(regions@[i].base),
        },
{
    match pick_fcram_region(regions) {
        None => Err(CitraError::NoFcramRegion { pid, anonymous }),
        Some(i) => Ok(regions[i].base),
    }
}

/// A process of the host system: id and executable name.
#[derive(Debug)]
pub struct ProcessInfo {
    pub pid: u32,
    pub name: String,
}

/// Whether a process name denotes Citra: it starts with `citra` and does not
/// contain `room` (the multiplayer lobby server), both ignoring case. (For
/// these ASCII patterns ASCII case folding agrees with full lower-casing.)
pub open spec fn is_citra_name(name: Seq<char>) -> bool {
    starts_with_ignoring_ascii_case(name, "citra"@) && !exists|k: int|
        occurs_ignoring_ascii_case_at(name, "room"@, k)
}

/// Whether a process name denotes Citra (`citra-qt`, `citra`, `Citra.exe`,
/// but not `citra-room`).
pub fn is_citra_process_name(name: &str) -> (b: bool)
    ensures
        b == is_citra_name(name@),
{
    let v = chars_of(name);
    let prefix = chars_of("citra");
    let room = chars_of("room");
    starts_with_ascii_ci(&v, &prefix) && !contains_ascii_ci(&v, &room)
}

/// Whether the process at index `i` is the first listed one whose name
/// denotes Citra.
pub open spec fn is_first_citra(ps: Seq<ProcessInfo>, i: int) -> bool {
    &&& 0 <= i < ps.len()
    &&& is_citra_name(ps[i].name@)
    &&& forall|j: int| 0 <= j < i ==> !is_citra_name(#[trigger] ps[j].name@)
}

/// The id of the first listed process whose name denotes Citra.
pub fn find_citra_pid(processes: &Vec<ProcessInfo>) -> (r: Option<u32>)
    ensures
        match r {
            Some(p) => exists|i: int|
                #[trigger] is_first_citra(processes@, i) && processes@[i].pid == p,
            None => forall|i: int|
                0 <= i < processes.len() ==> !is_citra_name(#[trigger] processes@[i].name@),
        },
{
    let mut i: usize = 0;
    while i < processes.len()
        invariant
            i <= processes.len(),
            forall|j: int| 0 <= j < i ==> !is_citra_name(#[trigger] processes@[j].name@),
        decreases processes.len() - i,
    {
        if is_citra_process_name(processes[i].name.as_str()) {
            assert(is_first_citra(processes@, i as int));
            return Some(processes[i].pid);
        }
        i += 1;
    }
    None
}

} // verus!
