pub mod badges;
pub mod decrypt;
pub mod growth_rates;
pub mod party;

pub use badges::read_badge_count;
pub use growth_rates::{level_from_exp, min_exp_for_level, GrowthRate};
pub use party::{PartyPokemon, PARTY_SIZE};
