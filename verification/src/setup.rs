//! Locating the RAM offsets of party and badges from save-file signatures.
//!
//! The ORAS save (`main` in Citra's sdmc) has a fixed layout: the misc block
//! at file offset 0x4200 holds money and the badge byte, and the party at
//! 0x14200 holds six 260-byte slots whose first four bytes are the
//! encryption constant (EC) of the Pokémon. While Citra runs, the same data
//! lies somewhere in FCRAM; scanning for the ECs yields the party base, and
//! the badge byte lies at a constant distance before it.
use vstd::prelude::*;

use crate::bytes::{popcount, spec_popcount, spec_u32_le, u32_from_le};
use crate::emulator::citra::FCRAM_3DS_BASE;
use crate::memory::{LoggedMemory, MemAccess, MemoryError, ProcessMemory};
use crate::text::{
    chars_of, decimal, hex_upper, hex_upper_padded, push_decimal, push_hex_upper,
    push_hex_upper_padded, push_str, starts_with_ascii_ci, starts_with_ignoring_ascii_case,
};

verus! {

/// File offset of the badge byte in the save (misc block + badge field).
pub const SAV_BADGES_OFFSET: usize = 0x4200 + 0x0C;

/// File offset of the party in the save.
pub const SAV_PARTY_OFFSET: usize = 0x14200;

/// Distance between party slots in the save.
pub const SAV_PARTY_STRIDE: usize = 260;

/// Distance between party slots in the battle layout in RAM.
pub const RAM_PARTY_STRIDE: usize = 484;

/// Distance from the badge byte to the party base in RAM (ORAS EUR).
pub const PARTY_TO_BADGE_OFFSET: usize = 0x2_94A8;

/// Size of the chunks in which FCRAM is scanned.
pub const SCAN_CHUNK: usize = 4 * 1024 * 1024;

/// Smallest save that holds the six party slots.
pub const MIN_SAVE_LEN: usize = SAV_PARTY_OFFSET + SAV_PARTY_STRIDE * 6;

/// Guest addresses found for the badge byte and the party.
#[derive(Debug, Clone, Copy)]
pub struct DetectedOffsets {
    pub badge_offset_3ds: usize,
    pub party_base_3ds: usize,
}

/// Why the offsets could not be found.
#[derive(Debug)]
pub enum SetupError {
    /// The save is too small to hold a party.
    SaveTooSmall { len: usize },
    /// No party slot of the save is occupied.
    NoPartyInSave,
    /// The EC of the first Pokémon does not occur in FCRAM.
    SlotZeroNotFound,
    /// No occurrence of the first EC has the other ECs at the expected distances.
    NoTriangulation { slot0_hits: usize },
    /// The party found lies less than the badge distance past the start of
    /// FCRAM, so the badge byte would lie below it.
    BadgeBelowFcram { party_base_3ds: usize },
}

/// Something worth telling the user while the offsets were found.
#[derive(Debug)]
pub enum SetupWarning {
    /// Several party copies matched all ECs; the highest was taken.
    SeveralTriangulations { candidates: usize, slots: usize },
    /// With one Pokémon in the save its EC occurred `hits` times; the first was taken.
    SingleMonHits { hits: usize },
    /// The badge byte in RAM has fewer badges than the save.
    BadgeMismatch { ram: u8, save: u8 },
}

/// The message of a setup error.
pub open spec fn setup_error_message(e: &SetupError) -> Seq<char> {
    match e {
        SetupError::SaveTooSmall { len } => "Save-File zu klein ("@ + decimal(*len as nat)
            + " bytes) — kein gueltiges ORAS-Save?"@,
        SetupError::NoPartyInSave =>
            "Keine belegten Party-Slots im Save gefunden. Hast du schon ein Starter?"@,
        SetupError::SlotZeroNotFound => "Party Slot-0 EC nicht in FCRAM gefunden."@,
        SetupError::NoTriangulation { slot0_hits } => "Keine Party-Triangulation: Slot 0 EC hat "@
            + decimal(*slot0_hits as nat)
            + " Hits, aber kein Hit hat alle anderen Slots an erwarteten Offsets."@,
        SetupError::BadgeBelowFcram { party_base_3ds } => "PARTY_BASE 0x"@ + hex_upper_padded(
            *party_base_3ds as nat,
            8,
        ) + " - 0x"@ + hex_upper(PARTY_TO_BADGE_OFFSET as nat) + " unterlaeuft FCRAM"@,
    }
}

/// The message of a setup warning.
pub open spec fn setup_warning_message(w: &SetupWarning) -> Seq<char> {
    match w {
        SetupWarning::SeveralTriangulations { candidates, slots } => "[WARN] "@ + decimal(
            *candidates as nat,
        ) + " Party-Triangulationen nach Cross-Korrelation aller "@ + decimal(*slots as nat)
            + " Slots — nehme die mit hoechster Adresse (heuristisch: Player-Party meist nach Save-Block-Kopie)."@,
        SetupWarning::SingleMonHits { hits } => "[WARN] Nur 1 Pokemon im Save, "@ + decimal(
            *hits as nat,
        ) + " EC-Hits in FCRAM, nehme den ersten."@,
        SetupWarning::BadgeMismatch { ram, save } => "[WARN] Badge-Sanity-Check: RAM="@ + decimal(
            *ram as nat,
        ) + " Orden, .sav="@ + decimal(*save as nat)
            + " Orden. Party-Base ist evtl. nicht die Battle-Party-Kopie. Triangulation versuchen wir trotzdem."@,
    }
}

impl SetupError {
    /// The human-readable message of the error.
    pub fn to_string(&self) -> (s: String)
        ensures
            s@ == setup_error_message(self),
    {
        let mut s = String::new();
        match self {
            SetupError::SaveTooSmall { len } => {
                push_str(&mut s, "Save-File zu klein (");
                push_decimal(&mut s, *len as u64);
                push_str(&mut s, " bytes) — kein gueltiges ORAS-Save?");
            },
            SetupError::NoPartyInSave => {
                push_str(
                    &mut s,
                    "Keine belegten Party-Slots im Save gefunden. Hast du schon ein Starter?",
                );
            },
            SetupError::SlotZeroNotFound => {
                push_str(&mut s, "Party Slot-0 EC nicht in FCRAM gefunden.");
            },
            SetupError::NoTriangulation { slot0_hits } => {
                push_str(&mut s, "Keine Party-Triangulation: Slot 0 EC hat ");
                push_decimal(&mut s, *slot0_hits as u64);
                push_str(&mut s, " Hits, aber kein Hit hat alle anderen Slots an erwarteten Offsets.");
            },
            SetupError::BadgeBelowFcram { party_base_3ds } => {
                push_str(&mut s, "PARTY_BASE 0x");
                push_hex_upper_padded(&mut s, *party_base_3ds as u64, 8);
                push_str(&mut s, " - 0x");
                push_hex_upper(&mut s, PARTY_TO_BADGE_OFFSET as u64);
                push_str(&mut s, " unterlaeuft FCRAM");
            },
        }
        s
    }
}

impl SetupWarning {
    /// The human-readable message of the warning.
    pub fn to_string(&self) -> (s: String)
        ensures
            s@ == setup_warning_message(self),
    {
        let mut s = String::new();
        match self {
            SetupWarning::SeveralTriangulations { candidates, slots } => {
                push_str(&mut s, "[WARN] ");
                push_decimal(&mut s, *candidates as u64);
                push_str(&mut s, " Party-Triangulationen nach Cross-Korrelation aller ");
                push_decimal(&mut s, *slots as u64);
                push_str(
                    &mut s,
                    " Slots — nehme die mit hoechster Adresse (heuristisch: Player-Party meist nach Save-Block-Kopie).",
                );
            },
            SetupWarning::SingleMonHits { hits } => {
                push_str(&mut s, "[WARN] Nur 1 Pokemon im Save, ");
                push_decimal(&mut s, *hits as u64);
                push_str(&mut s, " EC-Hits in FCRAM, nehme den ersten.");
            },
            SetupWarning::BadgeMismatch { ram, save } => {
                push_str(&mut s, "[WARN] Badge-Sanity-Check: RAM=");
                push_decimal(&mut s, *ram as u64);
                push_str(&mut s, " Orden, .sav=");
                push_decimal(&mut s, *save as u64);
                push_str(
                    &mut s,
                    " Orden. Party-Base ist evtl. nicht die Battle-Party-Kopie. Triangulation versuchen wir trotzdem.",
                );
            },
        }
        s
    }
}

/// Whether a title directory name belongs to ORAS: the ORAS title ids
/// (`0011c400` US, `0011c500` EU, `0011c401` JP) all start with `0011c`,
/// compared ignoring case.
pub open spec fn is_oras_title_name(name: Seq<char>) -> bool {
    starts_with_ignoring_ascii_case(name, "0011c"@)
}

/// Whether a directory under `title/00040000` holds an ORAS title.
pub fn is_oras_title_dir(name: &str) -> (b: bool)
    ensures
        b == is_oras_title_name(name@),
{
    let v = chars_of(name);
    let prefix = chars_of("0011c");
    starts_with_ascii_ci(&v, &prefix)
}

/// Whether `pat` occurs in `buf` at position `i`.
pub open spec fn occurs_at(buf: Seq<u8>, pat: Seq<u8>, i: int) -> bool {
    0 <= i && i + pat.len() <= buf.len() && buf.subrange(i, i + pat.len()) == pat
}

/// Positions below `n` at which `pat` occurs in `buf`, ascending.
pub open spec fn occurrences_below(buf: Seq<u8>, pat: Seq<u8>, n: nat) -> Seq<int>
    decreases n,
{
    if n == 0 {
        seq![]
    } else if occurs_at(buf, pat, n - 1) {
        occurrences_below(buf, pat, (n - 1) as nat).push(n - 1)
    } else {
        occurrences_below(buf, pat, (n - 1) as nat)
    }
}

/// Number of start positions examined in a chunk of `chunk` bytes of which
/// `limit` bytes (chunk and overlap) were read, for a pattern of `plen`
/// bytes: the starts below `chunk` at which the whole pattern lies within
/// the bytes read.
pub open spec fn examined_starts(limit: nat, plen: nat, chunk: nat) -> nat {
    if limit < plen {
        0
    } else if chunk <= limit - plen + 1 {
        chunk
    } else {
        (limit - plen + 1) as nat
    }
}

/// Positions in `buf[..limit]` below `starts` at which `pat` starts, each
/// plus `offset`.
pub fn find_pattern(
    buf: &Vec<u8>,
    limit: usize,
    starts: usize,
    pat: &[u8],
    offset: usize,
    hits: &mut Vec<usize>,
)
    requires
        limit <= buf.len(),
        starts == 0 || starts + pat@.len() <= limit + 1,
        offset + limit <= usize::MAX,
    ensures
        final(hits)@ == old(hits)@ + occurrences_below(
            buf@.subrange(0, limit as int),
            pat@,
            starts as nat,
        ).map_values(|i: int| (offset + i) as usize),
{
    let ghost b = buf@.subrange(0, limit as int);
    let n = starts;
    let mut i: usize = 0;
    while i < n
        invariant
            limit <= buf.len(),
            offset + limit <= usize::MAX,
            b == buf@.subrange(0, limit as int),
            n == 0 || n + pat@.len() <= limit + 1,
            i <= n,
            hits@ == old(hits)@ + occurrences_below(b, pat@, i as nat).map_values(
                |k: int| (offset + k) as usize,
            ),
        decreases n - i,
    {
        let mut j: usize = 0;
        let mut same = true;
        while j < pat.len()
            invariant
                i < n,
                n + pat@.len() <= limit + 1,
                limit <= buf.len(),
                b == buf@.subrange(0, limit as int),
                i + pat@.len() <= limit,
                j <= pat.len(),
                same == forall|k: int| 0 <= k < j ==> buf@[i + k] == pat@[k],
            decreases pat.len() - j,
        {
            if buf[i + j] != pat[j] {
                same = false;
            }
            j += 1;
        }
        proof {
            if same {
                assert(b.subrange(i as int, i + pat@.len()) =~= pat@);
            } else {
                let k = choose|k: int| 0 <= k < pat@.len() && buf@[i + k] != pat@[k];
                assert(b.subrange(i as int, i + pat@.len())[k] != pat@[k]);
            }
        }
        if same {
            hits.push(offset + i);
        }
        assert(hits@ =~= old(hits)@ + occurrences_below(b, pat@, (i + 1) as nat).map_values(
            |k: int| (offset + k) as usize,
        ));
        i += 1;
    }
}


/// Bytes of a region of `size` bytes that the chunk at offset `off` covers:
/// 4 MiB, or what is left of the region.
pub open spec fn scan_chunk_size(size: nat, off: nat) -> nat {
    if SCAN_CHUNK < size - off {
        SCAN_CHUNK as nat
    } else {
        (size - off) as nat
    }
}

/// Bytes requested for the chunk at offset `off`: the chunk, plus the
/// pattern's length (`pat_len`) where that stays inside the region (so that
/// an occurrence across the chunk boundary is found), else the rest of the
/// region.
pub open spec fn scan_request_len(size: nat, pat_len: nat, off: nat) -> nat {
    let chunk = scan_chunk_size(size, off);
    if off + chunk + pat_len <= size {
        chunk + pat_len
    } else {
        (size - off) as nat
    }
}

/// The offsets (from the region's start) of the occurrences of `pat` that
/// the chunk of `chunk` bytes at `off` yields, when `request` bytes were
/// requested and the read delivered `d`: the occurrences that start in the
/// chunk and lie within the delivered bytes (at most `request` of them);
/// none when the read failed.
pub open spec fn chunk_hits(
    pat: Seq<u8>,
    off: nat,
    chunk: nat,
    request: nat,
    d: Result<Vec<u8>, MemoryError>,
) -> Seq<usize> {
    match d {
        Ok(buf) => {
            let limit = if buf.len() < request {
                buf.len() as nat
            } else {
                request
            };
            let b = buf@.subrange(0, limit as int);
            occurrences_below(b, pat, examined_starts(limit, pat.len(), chunk)).map_values(
                |k: int| (off + k) as usize,
            )
        },
        Err(_) => seq![],
    }
}

/// The offsets found by scanning a region of `size` bytes for `pat` from
/// offset `off` on, when the chunk reads delivered `outs`, in order.
pub open spec fn scan_hits(
    size: nat,
    pat: Seq<u8>,
    off: nat,
    outs: Seq<Result<Vec<u8>, MemoryError>>,
) -> Seq<usize>
    decreases size - off,
{
    if off >= size {
        seq![]
    } else {
        chunk_hits(
            pat,
            off,
            scan_chunk_size(size, off),
            scan_request_len(size, pat.len(), off),
            outs[0],
        ) + scan_hits(
            size,
            pat,
            off + scan_chunk_size(size, off),
            outs.drop_first(),
        )
    }
}

/// Whether `outs` are outcomes that the chunk reads of a scan of the region
/// of `size` bytes at `base`, from offset `off` on, for a pattern of
/// `pat_len` bytes can deliver: one per chunk, in order.
pub open spec fn scan_reads<M: ProcessMemory>(
    mem: &M,
    base: usize,
    size: nat,
    pat_len: nat,
    off: nat,
    outs: Seq<Result<Vec<u8>, MemoryError>>,
) -> bool
    decreases size - off,
{
    if off >= size {
        outs.len() == 0
    } else {
        &&& outs.len() > 0
        &&& mem.reads((base + off) as usize, scan_request_len(size, pat_len, off) as usize, outs[0])
        &&& scan_reads(mem, base, size, pat_len, off + scan_chunk_size(size, off), outs.drop_first())
    }
}

/// The offsets a chunk yields lie in the chunk and ascend.
proof fn lemma_chunk_hits(
    pat: Seq<u8>,
    off: nat,
    chunk: nat,
    request: nat,
    d: Result<Vec<u8>, MemoryError>,
)
    requires
        off + chunk <= usize::MAX,
    ensures
        forall|k: int|
            0 <= k < chunk_hits(pat, off, chunk, request, d).len() ==> off <= #[trigger] chunk_hits(
                pat,
                off,
                chunk,
                request,
                d,
            )[k] < off + chunk,
        forall|k: int, l: int|
            0 <= k < l < chunk_hits(pat, off, chunk, request, d).len() ==> chunk_hits(
                pat,
                off,
                chunk,
                request,
                d,
            )[k] < chunk_hits(pat, off, chunk, request, d)[l],
{
    if let Ok(buf) = d {
        let limit = if buf.len() < request {
            buf.len() as nat
        } else {
            request
        };
        let b = buf@.subrange(0, limit as int);
        let n = examined_starts(limit, pat.len(), chunk);
        lemma_occurrences_below(b, pat, n);
    }
}

/// Appending ascending values in `[lo, hi)` to ascending values below `lo`
/// gives ascending values below `hi`.
proof fn lemma_append_ascending(a: Seq<usize>, c: Seq<usize>, r: Seq<usize>, lo: int, hi: int)
    requires
        r == a + c,
        lo <= hi,
        forall|k: int| 0 <= k < a.len() ==> #[trigger] a[k] < lo,
        forall|k: int, l: int| 0 <= k < l < a.len() ==> a[k] < a[l],
        forall|k: int| 0 <= k < c.len() ==> lo <= #[trigger] c[k] < hi,
        forall|k: int, l: int| 0 <= k < l < c.len() ==> c[k] < c[l],
    ensures
        forall|k: int| 0 <= k < r.len() ==> #[trigger] r[k] < hi,
        forall|k: int, l: int| 0 <= k < l < r.len() ==> r[k] < r[l],
{
    assert forall|k: int| 0 <= k < (a + c).len() implies #[trigger] (a + c)[k] < hi by {
        if k < a.len() {
            assert((a + c)[k] == a[k]);
        } else {
            assert((a + c)[k] == c[k - a.len()]);
        }
    }
    assert forall|k: int, l: int| 0 <= k < l < (a + c).len() implies (a + c)[k] < (a + c)[l] by {
        if l < a.len() {
            assert((a + c)[k] == a[k] && (a + c)[l] == a[l]);
        } else if k < a.len() {
            assert((a + c)[k] == a[k] && (a + c)[l] == c[l - a.len()]);
        } else {
            assert((a + c)[k] == c[k - a.len()] && (a + c)[l] == c[l - a.len()]);
        }
    }
}

/// A scan from `off` is the read of the chunk at `off` followed by the scan
/// from the next chunk.
proof fn lemma_scan_step<M: ProcessMemory>(
    mem: &M,
    base: usize,
    size: nat,
    pat: Seq<u8>,
    off: nat,
    d: Result<Vec<u8>, MemoryError>,
    rest: Seq<Result<Vec<u8>, MemoryError>>,
)
    requires
        off < size,
        mem.reads((base + off) as usize, scan_request_len(size, pat.len(), off) as usize, d),
        scan_reads(mem, base, size, pat.len(), off + scan_chunk_size(size, off), rest),
    ensures
        scan_reads(mem, base, size, pat.len(), off, seq![d] + rest),
        scan_hits(size, pat, off, seq![d] + rest) == chunk_hits(
            pat,
            off,
            scan_chunk_size(size, off),
            scan_request_len(size, pat.len(), off),
            d,
        ) + scan_hits(size, pat, off + scan_chunk_size(size, off), rest),
{
    let outs = seq![d] + rest;
    assert(outs[0] == d);
    assert(outs.drop_first() =~= rest);
}

/// Appending the offsets a chunk yields to ascending offsets below the
/// chunk gives ascending offsets below the chunk's end.
proof fn lemma_scan_chunk_bounds(
    before: Seq<usize>,
    after: Seq<usize>,
    pat: Seq<u8>,
    off: nat,
    chunk: nat,
    request: nat,
    d: Result<Vec<u8>, MemoryError>,
)
    requires
        off + chunk <= usize::MAX,
        after == before + chunk_hits(pat, off, chunk, request, d),
        forall|k: int| 0 <= k < before.len() ==> #[trigger] before[k] < off,
        forall|k: int, l: int| 0 <= k < l < before.len() ==> before[k] < before[l],
    ensures
        forall|k: int| 0 <= k < after.len() ==> #[trigger] after[k] < off + chunk,
        forall|k: int, l: int| 0 <= k < l < after.len() ==> after[k] < after[l],
{
    let c = chunk_hits(pat, off, chunk, request, d);
    lemma_chunk_hits(pat, off, chunk, request, d);
    lemma_append_ascending(before, c, after, off as int, (off + chunk) as int);
}

/// The reads that a scan of the region of `size` bytes at `base`, from
/// offset `off` on, for a pattern of `pat_len` bytes makes: one per chunk,
/// in order, whatever they deliver.
pub open spec fn scan_log(base: usize, size: nat, pat_len: nat, off: nat) -> Seq<MemAccess>
    decreases size - off,
{
    if off >= size {
        seq![]
    } else {
        seq![
            MemAccess::Read {
                addr: (base + off) as usize,
                size: scan_request_len(size, pat_len, off) as usize,
            },
        ] + scan_log(base, size, pat_len, off + scan_chunk_size(size, off))
    }
}

/// Scans the region from offset `off` on, appending the offsets found.
#[verifier::rlimit(80)]
#[verifier::spinoff_prover]
fn scan_from<M: ProcessMemory>(
    mem: &mut LoggedMemory<M>,
    base: usize,
    size: usize,
    pattern: &[u8],
    off: usize,
    hits: &mut Vec<usize>,
)
    requires
        base + size <= usize::MAX,
        off <= size,
        forall|k: int| 0 <= k < old(hits)@.len() ==> #[trigger] old(hits)@[k] < off,
        forall|k: int, l: int| 0 <= k < l < old(hits)@.len() ==> old(hits)@[k] < old(hits)@[l],
    ensures
        final(mem).memory() == old(mem).memory(),
        final(mem).accesses() == old(mem).accesses() + scan_log(
            base,
            size as nat,
            pattern@.len(),
            off as nat,
        ),
        exists|outs: Seq<Result<Vec<u8>, MemoryError>>|
            #[trigger] scan_reads(
                old(mem).memory(),
                base,
                size as nat,
                pattern@.len(),
                off as nat,
                outs,
            ) && final(hits)@ == old(hits)@ + scan_hits(size as nat, pattern@, off as nat, outs),
        forall|k: int| 0 <= k < final(hits)@.len() ==> #[trigger] final(hits)@[k] < size,
        forall|k: int, l: int|
            0 <= k < l < final(hits)@.len() ==> final(hits)@[k] < final(hits)@[l],
    decreases size - off,
{
    let ghost m0 = old(mem).memory();
    let ghost log0 = old(mem).accesses();
    if off >= size {
        proof {
            let outs = Seq::<Result<Vec<u8>, MemoryError>>::empty();
            assert(scan_reads(m0, base, size as nat, pattern@.len(), off as nat, outs));
            assert(mem.accesses() =~= log0 + scan_log(base, size as nat, pattern@.len(), off as nat));
            assert(hits@ =~= old(hits)@ + scan_hits(size as nat, pattern@, off as nat, outs));
        }
        return;
    }
    let read_size = if SCAN_CHUNK < size - off {
        SCAN_CHUNK
    } else {
        size - off
    };
    let request = if pattern.len() <= size - off - read_size {
        read_size + pattern.len()
    } else {
        size - off
    };
    let res = mem.read_bytes(base + off, request);
    let ghost d = res;
    let ghost before = hits@;
    match res {
        Ok(buf) => {
            let limit = if buf.len() < request {
                buf.len()
            } else {
                request
            };
            let starts = if limit < pattern.len() {
                0
            } else if read_size <= limit - pattern.len() + 1 {
                read_size
            } else {
                limit - pattern.len() + 1
            };
            find_pattern(&buf, limit, starts, pattern, off, hits);
            assert(starts == examined_starts(limit as nat, pattern@.len(), read_size as nat));
            assert(hits@ == before + chunk_hits(
                pattern@,
                off as nat,
                read_size as nat,
                request as nat,
                d,
            ));
        },
        Err(_) => {
            assert(hits@ =~= before + chunk_hits(
                pattern@,
                off as nat,
                read_size as nat,
                request as nat,
                d,
            ));
        },
    }
    proof {
        lemma_scan_chunk_bounds(before, hits@, pattern@, off as nat, read_size as nat, request as nat, d);
    }
    let ghost mid = hits@;
    let ghost log1 = mem.accesses();
    scan_from(mem, base, size, pattern, off + read_size, hits);
    proof {
        let rd = MemAccess::Read { addr: (base + off) as usize, size: request };
        assert(scan_log(base, size as nat, pattern@.len(), off as nat) == seq![rd] + scan_log(
            base,
            size as nat,
            pattern@.len(),
            (off + read_size) as nat,
        ));
        assert(log1 == log0.push(rd));
        assert(mem.accesses() =~= log0 + scan_log(base, size as nat, pattern@.len(), off as nat));
        let next = (off + read_size) as nat;
        let rest = choose|outs: Seq<Result<Vec<u8>, MemoryError>>|
            #[trigger] scan_reads(m0, base, size as nat, pattern@.len(), next, outs) && hits@
                == mid + scan_hits(size as nat, pattern@, next, outs);
        lemma_scan_step(m0, base, size as nat, pattern@, off as nat, d, rest);
        let outs = seq![d] + rest;
        assert(hits@ =~= old(hits)@ + scan_hits(size as nat, pattern@, off as nat, outs));
    }
}

/// Scans `size` bytes of process memory from `base` for `pattern`, in
/// chunks of 4 MiB, each read with the pattern's length more (or up to the
/// end of the region), so that every occurrence that lies in the region is
/// found once; chunks that cannot be read are skipped. Returns the offsets
/// (from `base`) of the occurrences found, ascending.
pub fn scan_region<M: ProcessMemory>(
    mem: &mut LoggedMemory<M>,
    base: usize,
    size: usize,
    pattern: &[u8],
) -> (hits: Vec<usize>)
    requires
        base + size <= usize::MAX,
    ensures
        final(mem).memory() == old(mem).memory(),
        final(mem).accesses() == old(mem).accesses() + scan_log(
            base,
            size as nat,
            pattern@.len(),
            0,
        ),
        exists|outs: Seq<Result<Vec<u8>, MemoryError>>|
            #[trigger] scan_reads(old(mem).memory(), base, size as nat, pattern@.len(), 0, outs)
                && hits@ == scan_hits(size as nat, pattern@, 0, outs),
        forall|k: int| 0 <= k < hits@.len() ==> #[trigger] hits@[k] < size,
        forall|k: int, l: int| 0 <= k < l < hits@.len() ==> hits@[k] < hits@[l],
{
    let ghost m0 = old(mem).memory();
    let mut hits: Vec<usize> = Vec::new();
    scan_from(mem, base, size, pattern, 0, &mut hits);
    proof {
        let outs = choose|outs: Seq<Result<Vec<u8>, MemoryError>>|
            #[trigger] scan_reads(m0, base, size as nat, pattern@.len(), 0, outs) && hits@
                == Seq::<usize>::empty() + scan_hits(size as nat, pattern@, 0, outs);
        assert(hits@ =~= scan_hits(size as nat, pattern@, 0, outs));
    }
    hits
}

/// Occurrences below `n` are ascending and below `n`.
proof fn lemma_occurrences_below(buf: Seq<u8>, pat: Seq<u8>, n: nat)
    ensures
        forall|k: int|
            0 <= k < occurrences_below(buf, pat, n).len() ==> 0 <= #[trigger] occurrences_below(
                buf,
                pat,
                n,
            )[k] < n,
        forall|k: int, l: int|
            0 <= k < l < occurrences_below(buf, pat, n).len() ==> occurrences_below(buf, pat, n)[k]
                < occurrences_below(buf, pat, n)[l],
    decreases n,
{
    if n > 0 {
        lemma_occurrences_below(buf, pat, (n - 1) as nat);
        let prev = occurrences_below(buf, pat, (n - 1) as nat);
        let cur = occurrences_below(buf, pat, n);
        if occurs_at(buf, pat, n - 1) {
            assert(cur == prev.push(n - 1));
            assert forall|k: int| 0 <= k < cur.len() implies 0 <= #[trigger] cur[k] < n by {
                if k < prev.len() {
                    assert(cur[k] == prev[k]);
                }
            }
            assert forall|k: int, l: int| 0 <= k < l < cur.len() implies cur[k] < cur[l] by {
                assert(cur[k] == prev[k]);
                if l < prev.len() {
                    assert(cur[l] == prev[l]);
                }
            }
        } else {
            assert(cur == prev);
            assert forall|k: int| 0 <= k < cur.len() implies 0 <= #[trigger] cur[k] < n by {
                assert(cur[k] == prev[k]);
            }
        }
    }
}


/// The encryption constant of save slot `slot`: the slot's first four bytes.
pub open spec fn save_ec(sav: Seq<u8>, slot: nat) -> Seq<u8> {
    let off = SAV_PARTY_OFFSET + slot * SAV_PARTY_STRIDE;
    sav.subrange(off as int, off + 4)
}

/// The ECs of the occupied save slots among the first `n` (an EC of 0
/// marks an empty slot), in slot order.
pub open spec fn occupied_ecs(sav: Seq<u8>, n: nat) -> Seq<Seq<u8>>
    decreases n,
{
    if n == 0 {
        seq![]
    } else {
        let prev = occupied_ecs(sav, (n - 1) as nat);
        let ec = save_ec(sav, (n - 1) as nat);
        if spec_u32_le(ec[0], ec[1], ec[2], ec[3]) != 0 {
            prev.push(ec)
        } else {
            prev
        }
    }
}

/// At most `n` of the first `n` slots are occupied.
proof fn lemma_occupied_ecs_len(sav: Seq<u8>, n: nat)
    ensures
        occupied_ecs(sav, n).len() <= n,
    decreases n,
{
    if n > 0 {
        lemma_occupied_ecs_len(sav, (n - 1) as nat);
    }
}

/// The ECs of the occupied party slots of a save, in slot order.
pub fn party_signatures(sav: &Vec<u8>) -> (ecs: Vec<[u8; 4]>)
    requires
        sav.len() >= MIN_SAVE_LEN,
    ensures
        ecs@.len() == occupied_ecs(sav@, 6).len(),
        forall|k: int| 0 <= k < ecs@.len() ==> (#[trigger] ecs@[k])@ == occupied_ecs(sav@, 6)[k],
{
    let mut ecs: Vec<[u8; 4]> = Vec::new();
    let mut slot: usize = 0;
    while slot < 6
        invariant
            sav.len() >= MIN_SAVE_LEN,
            slot <= 6,
            ecs@.len() == occupied_ecs(sav@, slot as nat).len(),
            forall|k: int|
                0 <= k < ecs@.len() ==> (#[trigger] ecs@[k])@ == occupied_ecs(sav@, slot as nat)[k],
        decreases 6 - slot,
    {
        let off = SAV_PARTY_OFFSET + slot * SAV_PARTY_STRIDE;
        let ec = [sav[off], sav[off + 1], sav[off + 2], sav[off + 3]];
        assert(ec@ =~= save_ec(sav@, slot as nat));
        let v = u32_from_le(ec[0], ec[1], ec[2], ec[3]);
        let ghost old_ecs = ecs@;
        if v != 0 {
            ecs.push(ec);
        }
        assert forall|k: int|
            0 <= k < ecs@.len() implies (#[trigger] ecs@[k])@ == occupied_ecs(
            sav@,
            (slot + 1) as nat,
        )[k] by {
            if k < old_ecs.len() {
                assert(ecs@[k] == old_ecs[k]);
            }
        }
        slot += 1;
    }
    ecs
}

/// The candidates `h` for which `h + offset` is among `others`, in order.
pub open spec fn aligned_candidates(cands: Seq<usize>, others: Seq<usize>, offset: int) -> Seq<
    usize,
>
    decreases cands.len(),
{
    if cands.len() == 0 {
        seq![]
    } else {
        let prev = aligned_candidates(cands.drop_last(), others, offset);
        if others.contains((cands.last() + offset) as usize) {
            prev.push(cands.last())
        } else {
            prev
        }
    }
}

/// Keeps the candidates `h` for which `h + offset` is among `others`.
pub fn retain_aligned(cands: &Vec<usize>, others: &Vec<usize>, offset: usize) -> (r: Vec<usize>)
    requires
        forall|k: int| 0 <= k < cands.len() ==> #[trigger] cands@[k] + offset <= usize::MAX,
    ensures
        r@ == aligned_candidates(cands@, others@, offset as int),
        forall|k: int| 0 <= k < r@.len() ==> cands@.contains(#[trigger] r@[k]),
{
    let mut r: Vec<usize> = Vec::new();
    let mut i: usize = 0;
    while i < cands.len()
        invariant
            i <= cands.len(),
            forall|k: int| 0 <= k < cands.len() ==> #[trigger] cands@[k] + offset <= usize::MAX,
            r@ == aligned_candidates(cands@.subrange(0, i as int), others@, offset as int),
            forall|k: int| 0 <= k < r@.len() ==> cands@.contains(#[trigger] r@[k]),
        decreases cands.len() - i,
    {
        let h = cands[i];
        assert(cands@.subrange(0, i + 1).drop_last() =~= cands@.subrange(0, i as int));
        let target = h + offset;
        let mut found = false;
        let mut j: usize = 0;
        while j < others.len()
            invariant
                j <= others.len(),
                found == exists|k: int| 0 <= k < j && others@[k] == target,
            decreases others.len() - j,
        {
            if others[j] == target {
                found = true;
            }
            j += 1;
        }
        let ghost old_r = r@;
        if found {
            r.push(h);
            assert forall|k: int| 0 <= k < r@.len() implies cands@.contains(#[trigger] r@[k]) by {
                if k < old_r.len() {
                    assert(r@[k] == old_r[k]);
                } else {
                    assert(cands@[i as int] == h);
                }
            }
        }
        i += 1;
    }
    assert(cands@.subrange(0, cands.len() as int) =~= cands@);
    r
}

/// The largest element of a non-empty list.
fn max_of(v: &Vec<usize>) -> (m: usize)
    requires
        v.len() > 0,
    ensures
        v@.contains(m),
        forall|k: int| 0 <= k < v.len() ==> #[trigger] v@[k] <= m,
{
    let mut m = v[0];
    let mut i: usize = 1;
    while i < v.len()
        invariant
            1 <= i <= v.len(),
            v@.contains(m),
            forall|k: int| 0 <= k < i ==> #[trigger] v@[k] <= m,
        decreases v.len() - i,
    {
        if v[i] > m {
            m = v[i];
        }
        i += 1;
    }
    m
}

/// The candidates for the party base left after narrowing `cands` with the
/// hit lists `others` from list `j` on: list `j` holds the hits of the EC of
/// slot `j + 1`, which lies `(j + 1) * 484` bytes after slot 0. Narrowing
/// stops once at most one candidate is left.
pub open spec fn narrowed(cands: Seq<usize>, others: Seq<Seq<usize>>, j: nat) -> Seq<usize>
    decreases others.len() - j,
{
    if j >= others.len() || cands.len() <= 1 {
        cands
    } else {
        narrowed(
            aligned_candidates(cands, others[j as int], (j + 1) * RAM_PARTY_STRIDE),
            others,
            j + 1,
        )
    }
}

/// The largest value of a non-empty sequence.
pub open spec fn seq_max(s: Seq<usize>) -> usize
    decreases s.len(),
{
    if s.len() <= 1 {
        s[0]
    } else {
        let m = seq_max(s.drop_last());
        if s.last() > m {
            s.last()
        } else {
            m
        }
    }
}

/// The offset of the party found from the hits `slot0` of the EC of slot 0
/// and the hit lists `others` of the following ECs, for `slots` occupied
/// slots: the first hit with a single Pokémon; else the only candidate left
/// after narrowing, or the highest of several; an error when slot 0's EC
/// has no hit or no candidate is left.
pub open spec fn spec_triangulate(slot0: Seq<usize>, others: Seq<Seq<usize>>, slots: nat) -> Result<
    usize,
    SetupError,
> {
    if slot0.len() == 0 {
        Err(SetupError::SlotZeroNotFound)
    } else if slots < 2 {
        Ok(slot0[0])
    } else {
        let c = narrowed(slot0, others, 0);
        if c.len() == 0 {
            Err(SetupError::NoTriangulation { slot0_hits: slot0.len() as usize })
        } else if c.len() == 1 {
            Ok(c[0])
        } else {
            Ok(seq_max(c))
        }
    }
}

/// The warnings of the triangulation: several hits of a single Pokémon's
/// EC, or several candidates left after narrowing.
pub open spec fn triangulation_warnings(
    slot0: Seq<usize>,
    others: Seq<Seq<usize>>,
    slots: nat,
) -> Seq<SetupWarning> {
    if slot0.len() == 0 {
        seq![]
    } else if slots < 2 {
        if slot0.len() != 1 {
            seq![SetupWarning::SingleMonHits { hits: slot0.len() as usize }]
        } else {
            seq![]
        }
    } else {
        let c = narrowed(slot0, others, 0);
        if c.len() >= 2 {
            seq![
                SetupWarning::SeveralTriangulations {
                    candidates: c.len() as usize,
                    slots: slots as usize,
                },
            ]
        } else {
            seq![]
        }
    }
}

/// The hit lists held in `v`.
pub open spec fn hit_lists(v: Seq<Vec<usize>>) -> Seq<Seq<usize>> {
    v.map_values(|h: Vec<usize>| h@)
}

/// `seq_max` is an element and no element is larger.
proof fn lemma_seq_max(s: Seq<usize>)
    requires
        s.len() > 0,
    ensures
        s.contains(seq_max(s)),
        forall|k: int| 0 <= k < s.len() ==> #[trigger] s[k] <= seq_max(s),
    decreases s.len(),
{
    if s.len() > 1 {
        let p = s.drop_last();
        lemma_seq_max(p);
        assert forall|k: int| 0 <= k < s.len() implies #[trigger] s[k] <= seq_max(s) by {
            if k < p.len() {
                assert(s[k] == p[k]);
            }
        }
        if s.last() <= seq_max(p) {
            let i = choose|i: int| 0 <= i < p.len() && p[i] == seq_max(p);
            assert(s[i] == p[i]);
        }
    } else {
        assert(s[0] == seq_max(s));
    }
}

/// The candidates that narrowing keeps are candidates.
proof fn lemma_aligned_subset(cands: Seq<usize>, others: Seq<usize>, offset: int)
    ensures
        forall|k: int|
            0 <= k < aligned_candidates(cands, others, offset).len() ==> cands.contains(
                #[trigger] aligned_candidates(cands, others, offset)[k],
            ),
        aligned_candidates(cands, others, offset).len() <= cands.len(),
    decreases cands.len(),
{
    if cands.len() > 0 {
        let p = cands.drop_last();
        lemma_aligned_subset(p, others, offset);
        let a = aligned_candidates(cands, others, offset);
        let ap = aligned_candidates(p, others, offset);
        assert forall|k: int| 0 <= k < a.len() implies cands.contains(#[trigger] a[k]) by {
            if k < ap.len() {
                assert(a[k] == ap[k]);
                let i = choose|i: int| 0 <= i < p.len() && p[i] == ap[k];
                assert(cands[i] == p[i]);
            } else {
                assert(a[k] == cands.last());
                assert(cands[cands.len() - 1] == cands.last());
            }
        }
    }
}

/// Narrowing with one more hit list, when the narrowing so far still left
/// several candidates, is one more narrowing step.
proof fn lemma_narrowed_push(c: Seq<usize>, o: Seq<Seq<usize>>, x: Seq<usize>, j: nat)
    requires
        j <= o.len(),
        narrowed(c, o, j).len() > 1,
    ensures
        narrowed(c, o.push(x), j) == narrowed(narrowed(c, o, j), o.push(x), o.len()),
    decreases o.len() - j,
{
    if j < o.len() {
        let a = aligned_candidates(c, o[j as int], (j + 1) * RAM_PARTY_STRIDE);
        assert(o.push(x)[j as int] == o[j as int]);
        lemma_narrowed_push(a, o, x, j + 1);
    }
}

/// Narrows the candidates for the party base in turn with the hit lists of
/// the following ECs and picks the party's offset: the first hit of a single
/// Pokémon's EC (warning when it has several), the only candidate left, or
/// the highest of several (with a warning). `slots` is the number of
/// occupied slots; `other_hits[j]` holds the hits of the EC of slot `j + 1`.
pub fn triangulate(
    slot0_hits: &Vec<usize>,
    other_hits: &Vec<Vec<usize>>,
    slots: usize,
    warnings: &mut Vec<SetupWarning>,
) -> (r: Result<usize, SetupError>)
    requires
        1 <= slots <= 6,
        other_hits.len() < slots,
        forall|k: int|
            0 <= k < slot0_hits.len() ==> #[trigger] slot0_hits@[k] + slots * RAM_PARTY_STRIDE
                <= usize::MAX,
    ensures
        r == spec_triangulate(slot0_hits@, hit_lists(other_hits@), slots as nat),
        final(warnings)@ == old(warnings)@ + triangulation_warnings(
            slot0_hits@,
            hit_lists(other_hits@),
            slots as nat,
        ),
{
    let ghost others = hit_lists(other_hits@);
    if slot0_hits.len() == 0 {
        assert(warnings@ =~= old(warnings)@ + triangulation_warnings(
            slot0_hits@,
            others,
            slots as nat,
        ));
        return Err(SetupError::SlotZeroNotFound);
    }
    if slots < 2 {
        if slot0_hits.len() != 1 {
            warnings.push(SetupWarning::SingleMonHits { hits: slot0_hits.len() });
        }
        assert(warnings@ =~= old(warnings)@ + triangulation_warnings(
            slot0_hits@,
            others,
            slots as nat,
        ));
        return Ok(slot0_hits[0]);
    }
    let mut cands = slot0_hits.clone();
    assert(cands@ =~= slot0_hits@);
    let mut j: usize = 0;
    while j < other_hits.len() && cands.len() > 1
        invariant
            2 <= slots <= 6,
            other_hits.len() < slots,
            j <= other_hits.len(),
            others == hit_lists(other_hits@),
            narrowed(cands@, others, j as nat) == narrowed(slot0_hits@, others, 0),
            forall|k: int|
                0 <= k < cands.len() ==> #[trigger] cands@[k] + slots * RAM_PARTY_STRIDE
                    <= usize::MAX,
        decreases other_hits.len() - j,
    {
        let offset = (j + 1) * RAM_PARTY_STRIDE;
        assert forall|k: int| 0 <= k < cands.len() implies #[trigger] cands@[k] + offset
            <= usize::MAX by {
            assert(cands@[k] + slots * RAM_PARTY_STRIDE <= usize::MAX);
        }
        let kept = retain_aligned(&cands, &other_hits[j], offset);
        assert(others[j as int] == other_hits@[j as int]@);
        assert forall|k: int| 0 <= k < kept.len() implies #[trigger] kept@[k] + slots
            * RAM_PARTY_STRIDE <= usize::MAX by {
            let i = choose|i: int| 0 <= i < cands@.len() && cands@[i] == kept@[k];
            assert(cands@[i] + slots * RAM_PARTY_STRIDE <= usize::MAX);
        }
        cands = kept;
        j += 1;
    }
    assert(narrowed(cands@, others, j as nat) == cands@);
    if cands.len() == 0 {
        assert(warnings@ =~= old(warnings)@ + triangulation_warnings(
            slot0_hits@,
            others,
            slots as nat,
        ));
        Err(SetupError::NoTriangulation { slot0_hits: slot0_hits.len() })
    } else if cands.len() == 1 {
        assert(warnings@ =~= old(warnings)@ + triangulation_warnings(
            slot0_hits@,
            others,
            slots as nat,
        ));
        Ok(cands[0])
    } else {
        warnings.push(SetupWarning::SeveralTriangulations { candidates: cands.len(), slots });
        assert(warnings@ =~= old(warnings)@ + triangulation_warnings(
            slot0_hits@,
            others,
            slots as nat,
        ));
        let m = max_of(&cands);
        proof {
            lemma_seq_max(cands@);
            let i = choose|i: int| 0 <= i < cands@.len() && cands@[i] == seq_max(cands@);
            let l = choose|l: int| 0 <= l < cands@.len() && cands@[l] == m;
            assert(cands@[i] <= m);
            assert(cands@[l] <= seq_max(cands@));
        }
        Ok(m)
    }
}

/// The warning of the badge check: the badge byte read from RAM (`read`)
/// has fewer set bits than the save's (`expected`); no warning when the
/// read failed or delivered nothing.
pub open spec fn spec_badge_sanity(read: Result<Vec<u8>, MemoryError>, expected: u8) -> Option<
    SetupWarning,
> {
    match read {
        Ok(v) => if v.len() > 0 && spec_popcount(v@[0]) < expected {
            Some(SetupWarning::BadgeMismatch { ram: spec_popcount(v@[0]) as u8, save: expected })
        } else {
            None
        },
        Err(_) => None,
    }
}

/// Checks the badge byte read from RAM against the number of badges in the
/// save.
pub fn badge_sanity(read: &Result<Vec<u8>, MemoryError>, expected: u8) -> (w: Option<
    SetupWarning,
>)
    ensures
        w == spec_badge_sanity(*read, expected),
{
    match read {
        Ok(v) => {
            if v.len() > 0 {
                let ram = popcount(v[0]);
                if ram < expected {
                    return Some(SetupWarning::BadgeMismatch { ram, save: expected });
                }
            }
            None
        },
        Err(_) => None,
    }
}

/// The hit lists of the ECs after slot 0's (`ecs[j + 1]`), from the
/// outcomes `outs[j]` of the chunk reads of their scans over `size` bytes.
pub open spec fn other_scan_hits(
    size: nat,
    ecs: Seq<Seq<u8>>,
    outs: Seq<Seq<Result<Vec<u8>, MemoryError>>>,
) -> Seq<Seq<usize>> {
    Seq::new(outs.len(), |j: int| scan_hits(size, ecs[j + 1], 0, outs[j]))
}

/// The offsets detected from the hits `h0` of slot 0's EC and the hit lists
/// `others` of the following ECs, for `slots` occupied slots: the party at
/// the triangulated offset into FCRAM, the badge byte a constant distance
/// before it; an error when that would lie below FCRAM; or the
/// triangulation's error.
pub open spec fn spec_detected(h0: Seq<usize>, others: Seq<Seq<usize>>, slots: nat) -> Result<
    DetectedOffsets,
    SetupError,
> {
    match spec_triangulate(h0, others, slots) {
        Ok(h) => if h < PARTY_TO_BADGE_OFFSET {
            Err(SetupError::BadgeBelowFcram { party_base_3ds: (FCRAM_3DS_BASE + h) as usize })
        } else {
            Ok(
                DetectedOffsets {
                    badge_offset_3ds: (FCRAM_3DS_BASE + h - PARTY_TO_BADGE_OFFSET) as usize,
                    party_base_3ds: (FCRAM_3DS_BASE + h) as usize,
                },
            )
        },
        Err(e) => Err(e),
    }
}

/// The warning of an optional one, as a sequence.
pub open spec fn warning_seq(w: Option<SetupWarning>) -> Seq<SetupWarning> {
    match w {
        Some(x) => seq![x],
        None => seq![],
    }
}

/// The reads of the scans for the ECs of slots `1..=n` (`ecs[1..=n]`) over
/// the region of `size` bytes at `base`, in order.
pub open spec fn other_scan_logs(base: usize, size: nat, ecs: Seq<Seq<u8>>, n: nat) -> Seq<
    MemAccess,
>
    decreases n,
{
    if n == 0 {
        seq![]
    } else {
        other_scan_logs(base, size, ecs, (n - 1) as nat) + scan_log(base, size, ecs[n as int].len(), 0)
    }
}

/// Whether detecting the offsets from a save `sav` with an occupied party,
/// in the FCRAM of `fcram_size` bytes at host address `fcram_base`, can give
/// `r`, with the access log going from `log0` to `log1` and the warnings
/// from `old_w` to `new_w`, when the chunk
/// reads of the scan for slot 0's EC delivered `outs0`, those of the scans
/// for the following ECs (as far as they are made) `outs`, and the read of
/// the badge byte `badge`:
/// - the following ECs are scanned until one candidate or none is left or
///   all are scanned;
/// - the result is the triangulation's, with its warnings;
/// - for a party found, the badge byte is read and checked against the
///   save's badge count;
/// - the scans and that read are all the accesses made; nothing is written.
pub open spec fn offsets_detection<M: ProcessMemory>(
    mem: &M,
    log0: Seq<MemAccess>,
    log1: Seq<MemAccess>,
    sav: Seq<u8>,
    fcram_base: usize,
    fcram_size: usize,
    outs0: Seq<Result<Vec<u8>, MemoryError>>,
    outs: Seq<Seq<Result<Vec<u8>, MemoryError>>>,
    badge: Result<Vec<u8>, MemoryError>,
    r: Result<DetectedOffsets, SetupError>,
    old_w: Seq<SetupWarning>,
    new_w: Seq<SetupWarning>,
) -> bool {
    let ecs = occupied_ecs(sav, 6);
    let size = fcram_size as nat;
    let h0 = scan_hits(size, ecs[0], 0, outs0);
    let others = other_scan_hits(size, ecs, outs);
    let tri_w = triangulation_warnings(h0, others, ecs.len());
    &&& scan_reads(mem, fcram_base, size, ecs[0].len(), 0, outs0)
    &&& outs.len() < ecs.len()
    &&& forall|j: int|
        0 <= j < outs.len() ==> scan_reads(mem, fcram_base, size, ecs[j + 1].len(), 0, #[trigger] outs[j])
    &&& (outs.len() + 1 == ecs.len() || narrowed(h0, others, 0).len() <= 1)
    &&& r == spec_detected(h0, others, ecs.len())
    &&& log1 == log0 + scan_log(fcram_base, size, ecs[0].len(), 0) + other_scan_logs(
        fcram_base,
        size,
        ecs,
        outs.len(),
    ) + match r {
        Ok(o) => seq![
            MemAccess::Read {
                addr: (fcram_base + (o.badge_offset_3ds - FCRAM_3DS_BASE)) as usize,
                size: 1,
            },
        ],
        Err(_) => Seq::<MemAccess>::empty(),
    }
    &&& match r {
        Ok(o) => {
            &&& mem.reads((fcram_base + (o.badge_offset_3ds - FCRAM_3DS_BASE)) as usize, 1, badge)
            &&& new_w == old_w + tri_w + warning_seq(
                spec_badge_sanity(badge, spec_popcount(sav[SAV_BADGES_OFFSET as int]) as u8),
            )
        },
        Err(_) => new_w == old_w + tri_w,
    }
}

/// The candidates left by narrowing are candidates.
proof fn lemma_narrowed_subset(c: Seq<usize>, others: Seq<Seq<usize>>, j: nat)
    ensures
        forall|k: int|
            0 <= k < narrowed(c, others, j).len() ==> c.contains(#[trigger] narrowed(c, others, j)[k]),
    decreases others.len() - j,
{
    if j < others.len() && c.len() > 1 {
        let a = aligned_candidates(c, others[j as int], (j + 1) * RAM_PARTY_STRIDE);
        lemma_aligned_subset(c, others[j as int], (j + 1) * RAM_PARTY_STRIDE);
        lemma_narrowed_subset(a, others, j + 1);
        assert(narrowed(c, others, j) == narrowed(a, others, j + 1));
        assert forall|k: int| 0 <= k < narrowed(c, others, j).len() implies c.contains(
            #[trigger] narrowed(c, others, j)[k],
        ) by {
            let x = narrowed(c, others, j)[k];
            assert(x == narrowed(a, others, j + 1)[k]);
            assert(a.contains(x));
            let i = choose|i: int| 0 <= i < a.len() && a[i] == x;
            assert(c.contains(a[i]));
        }
    } else {
        assert forall|k: int| 0 <= k < narrowed(c, others, j).len() implies c.contains(
            #[trigger] narrowed(c, others, j)[k],
        ) by {
            assert(narrowed(c, others, j)[k] == c[k]);
        }
    }
}

/// The offset the triangulation finds is a hit of slot 0's EC.
proof fn lemma_triangulated_hit(slot0: Seq<usize>, others: Seq<Seq<usize>>, slots: nat)
    ensures
        spec_triangulate(slot0, others, slots) matches Ok(h) ==> slot0.contains(h),
{
    if slot0.len() > 0 {
        if slots < 2 {
            assert(slot0[0] == slot0[0]);
        } else {
            let c = narrowed(slot0, others, 0);
            lemma_narrowed_subset(slot0, others, 0);
            if c.len() == 1 {
                assert(slot0.contains(c[0]));
            } else if c.len() > 1 {
                lemma_seq_max(c);
                let i = choose|i: int| 0 <= i < c.len() && c[i] == seq_max(c);
                assert(slot0.contains(c[i]));
            }
        }
    }
}

/// Reads the save, scans FCRAM for the ECs of its party and derives the
/// guest addresses of the party and of the badge byte (a constant distance
/// before the party). Warnings for the user are appended to `warnings`.
pub fn detect_offsets<M: ProcessMemory>(
    sav: &Vec<u8>,
    mem: &mut LoggedMemory<M>,
    fcram_base: usize,
    fcram_size: usize,
    warnings: &mut Vec<SetupWarning>,
) -> (r: Result<DetectedOffsets, SetupError>)
    requires
        fcram_base + fcram_size <= usize::MAX,
        FCRAM_3DS_BASE + fcram_size <= usize::MAX,
    ensures
        (r matches Err(SetupError::SaveTooSmall { len })) <==> sav.len() < MIN_SAVE_LEN,
        r matches Err(SetupError::SaveTooSmall { len }) ==> len == sav.len(),
        (r matches Err(SetupError::NoPartyInSave)) <==> (sav.len() >= MIN_SAVE_LEN && occupied_ecs(
            sav@,
            6,
        ).len() == 0),
        final(mem).memory() == old(mem).memory(),
        sav.len() < MIN_SAVE_LEN || occupied_ecs(sav@, 6).len() == 0 ==> final(warnings)@ == old(
            warnings,
        )@ && final(mem).accesses() == old(mem).accesses(),
        sav.len() >= MIN_SAVE_LEN && occupied_ecs(sav@, 6).len() > 0 ==> exists|
            outs0: Seq<Result<Vec<u8>, MemoryError>>,
            outs: Seq<Seq<Result<Vec<u8>, MemoryError>>>,
            badge: Result<Vec<u8>, MemoryError>,
        |
            #[trigger] offsets_detection(
                old(mem).memory(),
                old(mem).accesses(),
                final(mem).accesses(),
                sav@,
                fcram_base,
                fcram_size,
                outs0,
                outs,
                badge,
                r,
                old(warnings)@,
                final(warnings)@,
            ),
        r matches Ok(o) ==> {
            &&& FCRAM_3DS_BASE <= o.badge_offset_3ds
            &&& FCRAM_3DS_BASE <= o.party_base_3ds < FCRAM_3DS_BASE + fcram_size
            &&& o.badge_offset_3ds + PARTY_TO_BADGE_OFFSET == o.party_base_3ds
        },
{
    if sav.len() < MIN_SAVE_LEN {
        return Err(SetupError::SaveTooSmall { len: sav.len() });
    }
    let expected_badges = popcount(sav[SAV_BADGES_OFFSET]);
    let party_ecs = party_signatures(sav);
    if party_ecs.len() == 0 {
        return Err(SetupError::NoPartyInSave);
    }
    proof {
        lemma_occupied_ecs_len(sav@, 6);
    }
    let ghost ecs = occupied_ecs(sav@, 6);
    let ghost size = fcram_size as nat;
    let ghost m0 = old(mem).memory();
    let ghost log0 = old(mem).accesses();
    let slot0_hits = scan_region(mem, fcram_base, fcram_size, party_ecs[0].as_slice());
    let ghost outs0 = choose|o: Seq<Result<Vec<u8>, MemoryError>>|
        #[trigger] scan_reads(m0, fcram_base, size, ecs[0].len(), 0, o) && slot0_hits@
            == scan_hits(size, ecs[0], 0, o);
    let ghost log_s0 = mem.accesses();
    let mut other_hits: Vec<Vec<usize>> = Vec::new();
    let mut candidates = slot0_hits.clone();
    let ghost mut outs: Seq<Seq<Result<Vec<u8>, MemoryError>>> = seq![];
    assert(hit_lists(other_hits@) =~= other_scan_hits(size, ecs, outs));
    assert(candidates@ =~= narrowed(slot0_hits@, hit_lists(other_hits@), 0));
    while other_hits.len() + 1 < party_ecs.len() && candidates.len() > 1
        invariant
            ecs == occupied_ecs(sav@, 6),
            size == fcram_size as nat,
            party_ecs@.len() == ecs.len(),
            1 <= ecs.len() <= 6,
            forall|k: int| 0 <= k < party_ecs@.len() ==> (#[trigger] party_ecs@[k])@ == ecs[k],
            fcram_base + fcram_size <= usize::MAX,
            FCRAM_3DS_BASE + fcram_size <= usize::MAX,
            other_hits.len() < party_ecs.len(),
            outs.len() == other_hits.len(),
            forall|j: int|
                0 <= j < outs.len() ==> scan_reads(
                    m0,
                    fcram_base,
                    size,
                    ecs[j + 1].len(),
                    0,
                    #[trigger] outs[j],
                ),
            hit_lists(other_hits@) == other_scan_hits(size, ecs, outs),
            candidates@ == narrowed(slot0_hits@, hit_lists(other_hits@), 0),
            forall|k: int| 0 <= k < candidates.len() ==> #[trigger] candidates@[k] < fcram_size,
            m0 == old(mem).memory(),
            mem.memory() == m0,
            log_s0 == old(mem).accesses() + scan_log(fcram_base, size, ecs[0].len(), 0),
            mem.accesses() == log_s0 + other_scan_logs(fcram_base, size, ecs, outs.len()),
        decreases party_ecs.len() - other_hits.len(),
    {
        let idx = other_hits.len() + 1;
        let h = scan_region(mem, fcram_base, fcram_size, party_ecs[idx].as_slice());
        let ghost o = choose|o: Seq<Result<Vec<u8>, MemoryError>>|
            #[trigger] scan_reads(m0, fcram_base, size, ecs[idx as int].len(), 0, o) && h@
                == scan_hits(size, ecs[idx as int], 0, o);
        let ghost prev = hit_lists(other_hits@);
        let ghost before = candidates@;
        let offset = idx * RAM_PARTY_STRIDE;
        let kept = retain_aligned(&candidates, &h, offset);
        proof {
            lemma_narrowed_push(slot0_hits@, prev, h@, 0);
            let next = prev.push(h@);
            assert(narrowed(before, next, prev.len()) == narrowed(
                aligned_candidates(before, next[prev.len() as int], (prev.len() + 1) * RAM_PARTY_STRIDE),
                next,
                prev.len() + 1,
            ));
            assert(next[prev.len() as int] == h@);
        }
        other_hits.push(h);
        proof {
            assert(other_scan_logs(fcram_base, size, ecs, (outs.len() + 1) as nat)
                == other_scan_logs(fcram_base, size, ecs, outs.len()) + scan_log(
                fcram_base,
                size,
                ecs[idx as int].len(),
                0,
            ));
            outs = outs.push(o);
            assert(hit_lists(other_hits@) =~= prev.push(h@));
            assert(other_scan_hits(size, ecs, outs) =~= prev.push(h@)) by {
                let old_outs = outs.drop_last();
                assert forall|j: int| 0 <= j < old_outs.len() implies outs[j] == old_outs[j] by {}
                assert(other_scan_hits(size, ecs, old_outs) == prev);
                assert forall|j: int| 0 <= j < prev.len() implies other_scan_hits(size, ecs, outs)[j]
                    == prev[j] by {
                    assert(other_scan_hits(size, ecs, old_outs)[j] == prev[j]);
                }
            }
            assert forall|j: int| 0 <= j < outs.len() implies scan_reads(
                m0,
                fcram_base,
                size,
                ecs[j + 1].len(),
                0,
                #[trigger] outs[j],
            ) by {
                if j < outs.len() - 1 {
                    assert(outs[j] == outs.drop_last()[j]);
                }
            }
        }
        assert forall|k: int| 0 <= k < kept.len() implies #[trigger] kept@[k] < fcram_size by {
            let i = choose|i: int| 0 <= i < candidates@.len() && candidates@[i] == kept@[k];
            assert(candidates@[i] < fcram_size);
        }
        candidates = kept;
    }
    let ghost others = hit_lists(other_hits@);
    assert(others == other_scan_hits(size, ecs, outs));
    assert(mem.accesses() == old(mem).accesses() + scan_log(fcram_base, size, ecs[0].len(), 0)
        + other_scan_logs(fcram_base, size, ecs, outs.len()));
    let ghost no_badge = Err::<Vec<u8>, MemoryError>(
        MemoryError::PartialRead { bits: 8, addr: 0, got: 0 },
    );
    let tri = triangulate(&slot0_hits, &other_hits, party_ecs.len(), warnings);
    proof {
        lemma_triangulated_hit(slot0_hits@, others, ecs.len());
    }
    let hit = match tri {
        Ok(h) => h,
        Err(e) => {
            assert(offsets_detection(
                m0,
                old(mem).accesses(),
                mem.accesses(),
                sav@,
                fcram_base,
                fcram_size,
                outs0,
                outs,
                no_badge,
                Err::<DetectedOffsets, SetupError>(e),
                old(warnings)@,
                warnings@,
            ));
            return Err(e);
        },
    };
    assert(slot0_hits@.contains(hit));
    let party_base_3ds = FCRAM_3DS_BASE + hit;
    if hit < PARTY_TO_BADGE_OFFSET {
        let err = SetupError::BadgeBelowFcram { party_base_3ds };
        assert(offsets_detection(
            m0,
            old(mem).accesses(),
            mem.accesses(),
            sav@,
            fcram_base,
            fcram_size,
            outs0,
            outs,
            no_badge,
            Err::<DetectedOffsets, SetupError>(err),
            old(warnings)@,
            warnings@,
        ));
        return Err(err);
    }
    let badge_offset_3ds = party_base_3ds - PARTY_TO_BADGE_OFFSET;
    let ghost tri_w = warnings@;
    let result = DetectedOffsets { badge_offset_3ds, party_base_3ds };
    let ram_addr_in_host = fcram_base + (badge_offset_3ds - FCRAM_3DS_BASE);
    let ghost log_pre = mem.accesses();
    let ram_badge = mem.read_bytes(ram_addr_in_host, 1);
    assert(mem.accesses() =~= log_pre + seq![
        MemAccess::Read { addr: ram_addr_in_host, size: 1 },
    ]);
    let check = badge_sanity(&ram_badge, expected_badges);
    match check {
        Some(w) => {
            warnings.push(w);
        },
        None => {},
    }
    assert(warnings@ =~= tri_w + warning_seq(check));
    assert(offsets_detection(
        m0,
        old(mem).accesses(),
        mem.accesses(),
        sav@,
        fcram_base,
        fcram_size,
        outs0,
        outs,
        ram_badge,
        Ok::<DetectedOffsets, SetupError>(result),
        old(warnings)@,
        warnings@,
    ));
    Ok(result)
}

} // verus!
