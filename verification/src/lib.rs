//! Level-cap daemon library for a Soullink challenge in Pokémon Alpha
//! Sapphire on the Citra emulator: the cap table, the Gen-6 party-slot
//! encryption, experience growth rates, the location of guest memory inside
//! the Citra process and one round of the cap policy.
pub mod bytes;
pub mod caps;
pub mod daemon;
pub mod emulator;
pub mod game;
pub mod memory;
pub mod setup;
pub mod species_data;
pub mod text;
