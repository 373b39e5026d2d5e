//! Growth rates of individual species.
use vstd::prelude::*;

use crate::game::growth_rates::GrowthRate;

verus! {

/// The growth rate the table lists for a species, if any.
pub open spec fn species_table_entry(species: u16) -> Option<GrowthRate> {
    if 252 <= species <= 260 {
        Some(GrowthRate::MediumSlow)
    } else if species == 434 || species == 631 {
        Some(GrowthRate::MediumFast)
    } else if species == 604 {
        Some(GrowthRate::Slow)
    } else {
        None
    }
}

/// Looks a species up in the growth-rate table.
pub fn species_table(species: u16) -> (r: Option<GrowthRate>)
    ensures
        r == species_table_entry(species),
{
    if 252 <= species && species <= 260 {
        Some(GrowthRate::MediumSlow)
    } else if species == 434 || species == 631 {
        Some(GrowthRate::MediumFast)
    } else if species == 604 {
        Some(GrowthRate::Slow)
    } else {
        None
    }
}

} // verus!
