//! Platform-independent access to the virtual address space of another process.
pub mod linux;
pub mod windows;

use vstd::prelude::*;

use crate::bytes::{spec_u16_le, spec_u32_le, spec_u32_le_bytes, u16_from_le, u32_from_le, u32_to_le};
use crate::text::{decimal, hex, push_decimal, push_hex, push_str};

verus! {

/// Failure of a memory access.
#[derive(Debug)]
pub enum MemoryError {
    /// The platform refused the access; `message` says how.
    Access { message: String },
    /// A read of a `bits`-bit value at `addr` delivered `got` bytes.
    PartialRead { bits: u8, addr: usize, got: usize },
    /// A read of party slot `slot` delivered `got` bytes instead of
    /// `expected` (of its stats part when `stats` holds).
    ShortSlotRead { slot: u8, stats: bool, got: usize, expected: usize },
}

/// The message of a memory error.
pub open spec fn memory_error_message(e: &MemoryError) -> Seq<char> {
    match e {
        MemoryError::Access { message } => message@,
        MemoryError::PartialRead { bits, addr, got } => "partial read u"@ + decimal(*bits as nat)
            + " @ 0x"@ + hex(*addr as nat) + " (got "@ + decimal(*got as nat) + " bytes)"@,
        MemoryError::ShortSlotRead { slot, stats, got, expected } => (if *stats {
            "kurzer Read der Stats bei Slot "@
        } else {
            "kurzer Read bei Slot "@
        }) + decimal(*slot as nat) + ": got "@ + decimal(*got as nat) + " bytes statt "@ + decimal(
            *expected as nat,
        ),
    }
}

impl MemoryError {
    /// The human-readable message of the error.
    pub fn to_string(&self) -> (s: String)
        ensures
            s@ == memory_error_message(self),
    {
        let mut s = String::new();
        match self {
            MemoryError::Access { message } => {
                push_str(&mut s, message.as_str());
            },
            MemoryError::PartialRead { bits, addr, got } => {
                push_str(&mut s, "partial read u");
                push_decimal(&mut s, *bits as u64);
                push_str(&mut s, " @ 0x");
                push_hex(&mut s, *addr as u64);
                push_str(&mut s, " (got ");
                push_decimal(&mut s, *got as u64);
                push_str(&mut s, " bytes)");
            },
            MemoryError::ShortSlotRead { slot, stats, got, expected } => {
                if *stats {
                    push_str(&mut s, "kurzer Read der Stats bei Slot ");
                } else {
                    push_str(&mut s, "kurzer Read bei Slot ");
                }
                push_decimal(&mut s, *slot as u64);
                push_str(&mut s, ": got ");
                push_decimal(&mut s, *got as u64);
                push_str(&mut s, " bytes statt ");
                push_decimal(&mut s, *expected as u64);
            },
        }
        s
    }
}

/// The outcome of a write that transferred `written` of `len` bytes:
/// success when all were written, else an access error whose message is
/// `prefix`, then "`written` von `len` bytes".
pub fn write_count_result(prefix: &str, written: usize, len: usize) -> (r: Result<(), MemoryError>)
    ensures
        written == len ==> r is Ok,
        written != len ==> (r matches Err(MemoryError::Access { message }) && message@ == prefix@
            + decimal(written as nat) + " von "@ + decimal(len as nat) + " bytes"@),
{
    if written == len {
        return Ok(());
    }
    let mut message = String::new();
    push_str(&mut message, prefix);
    push_decimal(&mut message, written as u64);
    push_str(&mut message, " von ");
    push_decimal(&mut message, len as u64);
    push_str(&mut message, " bytes");
    Err(MemoryError::Access { message })
}

/// Interprets the bytes delivered by a one-byte read at `addr`.
pub fn u8_from_read(addr: usize, b: &Vec<u8>) -> (r: Result<u8, MemoryError>)
    ensures
        b.len() == 1 ==> r == Ok::<u8, MemoryError>(b@[0]),
        b.len() != 1 ==> (r matches Err(MemoryError::PartialRead { bits, addr: a, got }) && bits
            == 8 && a == addr && got == b.len()),
{
    if b.len() != 1 {
        return Err(MemoryError::PartialRead { bits: 8, addr, got: b.len() });
    }
    Ok(b[0])
}

/// Interprets the bytes delivered by a two-byte read at `addr` as a
/// little-endian `u16`.
pub fn u16_from_read(addr: usize, b: &Vec<u8>) -> (r: Result<u16, MemoryError>)
    ensures
        b.len() == 2 ==> r == Ok::<u16, MemoryError>(spec_u16_le(b@[0], b@[1])),
        b.len() != 2 ==> (r matches Err(MemoryError::PartialRead { bits, addr: a, got }) && bits
            == 16 && a == addr && got == b.len()),
{
    if b.len() != 2 {
        return Err(MemoryError::PartialRead { bits: 16, addr, got: b.len() });
    }
    Ok(u16_from_le(b[0], b[1]))
}

/// Interprets the bytes delivered by a four-byte read at `addr` as a
/// little-endian `u32`.
pub fn u32_from_read(addr: usize, b: &Vec<u8>) -> (r: Result<u32, MemoryError>)
    ensures
        b.len() == 4 ==> r == Ok::<u32, MemoryError>(spec_u32_le(b@[0], b@[1], b@[2], b@[3])),
        b.len() != 4 ==> (r matches Err(MemoryError::PartialRead { bits, addr: a, got }) && bits
            == 32 && a == addr && got == b.len()),
{
    if b.len() != 4 {
        return Err(MemoryError::PartialRead { bits: 32, addr, got: b.len() });
    }
    Ok(u32_from_le(b[0], b[1], b[2], b[3]))
}

/// The value that a one-byte read at `addr` gives, from what the raw read
/// `d` delivered.
pub open spec fn u8_read_result(addr: usize, d: Result<Vec<u8>, MemoryError>) -> Result<
    u8,
    MemoryError,
> {
    match d {
        Ok(b) => if b.len() == 1 {
            Ok(b@[0])
        } else {
            Err(MemoryError::PartialRead { bits: 8, addr, got: b.len() })
        },
        Err(e) => Err(e),
    }
}

/// The value that a two-byte little-endian read at `addr` gives, from what
/// the raw read `d` delivered.
pub open spec fn u16_read_result(addr: usize, d: Result<Vec<u8>, MemoryError>) -> Result<
    u16,
    MemoryError,
> {
    match d {
        Ok(b) => if b.len() == 2 {
            Ok(spec_u16_le(b@[0], b@[1]))
        } else {
            Err(MemoryError::PartialRead { bits: 16, addr, got: b.len() })
        },
        Err(e) => Err(e),
    }
}

/// The value that a four-byte little-endian read at `addr` gives, from what
/// the raw read `d` delivered.
pub open spec fn u32_read_result(addr: usize, d: Result<Vec<u8>, MemoryError>) -> Result<
    u32,
    MemoryError,
> {
    match d {
        Ok(b) => if b.len() == 4 {
            Ok(spec_u32_le(b@[0], b@[1], b@[2], b@[3]))
        } else {
            Err(MemoryError::PartialRead { bits: 32, addr, got: b.len() })
        },
        Err(e) => Err(e),
    }
}

/// Platform-independent view of another process's virtual address space.
///
/// Reads and writes go to a live process, so what a read delivers is not
/// known in advance: `reads` and `writes` name the outcomes that an access
/// can have. An implementation that narrows nothing admits every outcome.
/// The typed reads and writes are stated over those outcomes.
pub trait ProcessMemory {
    /// Whether `outcome` is a result that a read of up to `size` bytes at
    /// `addr` can deliver.
    open spec fn reads(&self, addr: usize, size: usize, outcome: Result<Vec<u8>, MemoryError>) -> bool {
        true
    }

    /// Whether `outcome` is a result that writing `data` at `addr` can have.
    open spec fn writes(&self, addr: usize, data: Seq<u8>, outcome: Result<(), MemoryError>) -> bool {
        true
    }

    /// Reads up to `size` bytes at `addr`.
    fn read_bytes(&self, addr: usize, size: usize) -> (r: Result<Vec<u8>, MemoryError>)
        ensures
            self.reads(addr, size, r),
    ;

    /// Writes `data` at `addr`.
    fn write_bytes(&self, addr: usize, data: &[u8]) -> (r: Result<(), MemoryError>)
        ensures
            self.writes(addr, data@, r),
    ;

    /// Reads one byte; a read that delivers another number of bytes is an error.
    fn read_u8(&self, addr: usize) -> (r: Result<u8, MemoryError>)
        ensures
            exists|d: Result<Vec<u8>, MemoryError>|
                #[trigger] self.reads(addr, 1, d) && r == u8_read_result(addr, d),
    {
        let d = self.read_bytes(addr, 1);
        let ghost outcome = d;
        match d {
            Ok(b) => u8_from_read(addr, &b),
            Err(e) => Err(e),
        }
    }

    /// Reads a little-endian `u16`; a read that delivers another number of
    /// bytes is an error.
    fn read_u16_le(&self, addr: usize) -> (r: Result<u16, MemoryError>)
        ensures
            exists|d: Result<Vec<u8>, MemoryError>|
                #[trigger] self.reads(addr, 2, d) && r == u16_read_result(addr, d),
    {
        let d = self.read_bytes(addr, 2);
        let ghost outcome = d;
        match d {
            Ok(b) => u16_from_read(addr, &b),
            Err(e) => Err(e),
        }
    }

    /// Reads a little-endian `u32`; a read that delivers another number of
    /// bytes is an error.
    fn read_u32_le(&self, addr: usize) -> (r: Result<u32, MemoryError>)
        ensures
            exists|d: Result<Vec<u8>, MemoryError>|
                #[trigger] self.reads(addr, 4, d) && r == u32_read_result(addr, d),
    {
        let d = self.read_bytes(addr, 4);
        let ghost outcome = d;
        match d {
            Ok(b) => u32_from_read(addr, &b),
            Err(e) => Err(e),
        }
    }

    /// Writes a little-endian `u32`: the four bytes of `value`, lowest first.
    fn write_u32_le(&self, addr: usize, value: u32) -> (r: Result<(), MemoryError>)
        ensures
            self.writes(addr, spec_u32_le_bytes(value), r),
    {
        let b = u32_to_le(value);
        self.write_bytes(addr, b.as_slice())
    }
}

/// A memory access made through a `LoggedMemory`.
pub enum MemAccess {
    /// A read of up to `size` bytes at `addr`.
    Read { addr: usize, size: usize },
    /// A write of `data` at `addr`.
    Write { addr: usize, data: Ghost<Seq<u8>> },
}

/// The write of `data` at `addr`, as an entry of the access log.
pub open spec fn write_access(addr: usize, data: Seq<u8>) -> MemAccess {
    MemAccess::Write { addr, data: Ghost(data) }
}

/// Process memory together with the log of the accesses made through this
/// handle. The library's functions reach the memory only through it, so
/// their contracts can say which reads and writes they make.
pub struct LoggedMemory<'a, M: ProcessMemory> {
    mem: &'a M,
    log: Ghost<Seq<MemAccess>>,
}

impl<'a, M: ProcessMemory> LoggedMemory<'a, M> {
    /// The memory accessed.
    pub closed spec fn memory(&self) -> &'a M {
        self.mem
    }

    /// The accesses made so far, in order.
    pub closed spec fn accesses(&self) -> Seq<MemAccess> {
        self.log@
    }

    /// A handle on `mem` with an empty log.
    pub fn new(mem: &'a M) -> (r: Self)
        ensures
            r.memory() == mem,
            r.accesses() == Seq::<MemAccess>::empty(),
    {
        LoggedMemory { mem, log: Ghost(Seq::empty()) }
    }

    /// Reads up to `size` bytes at `addr`, and logs the read.
    pub fn read_bytes(&mut self, addr: usize, size: usize) -> (r: Result<Vec<u8>, MemoryError>)
        ensures
            final(self).memory() == old(self).memory(),
            final(self).accesses() == old(self).accesses().push(MemAccess::Read { addr, size }),
            old(self).memory().reads(addr, size, r),
    {
        let r = self.mem.read_bytes(addr, size);
        self.log = Ghost(self.log@.push(MemAccess::Read { addr, size }));
        r
    }

    /// Writes `data` at `addr`, and logs the write.
    pub fn write_bytes(&mut self, addr: usize, data: &[u8]) -> (r: Result<(), MemoryError>)
        ensures
            final(self).memory() == old(self).memory(),
            final(self).accesses() == old(self).accesses().push(write_access(addr, data@)),
            old(self).memory().writes(addr, data@, r),
    {
        let r = self.mem.write_bytes(addr, data);
        self.log = Ghost(self.log@.push(write_access(addr, data@)));
        r
    }
}

} // verus!
