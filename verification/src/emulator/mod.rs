//! Emulator processes whose guest memory the library reads.
pub mod citra;

use vstd::prelude::*;

pub use citra::CitraProcess;

verus! {

/// Anchor for further emulators (e.g. a Citra fork).
pub trait Emulator {
    /// Process id of the emulator.
    fn pid(&self) -> u32;

    /// Host address of a guest FCRAM address.
    fn fcram_addr(&self, addr_3ds: usize) -> usize;
}

} // verus!
