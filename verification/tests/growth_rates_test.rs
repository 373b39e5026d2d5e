use soullink_levelcap::game::growth_rates::{
    growth_rate_of, level_from_exp, min_exp_for_level, GrowthRate,
};

#[test]
fn medium_fast_lvl_1_is_zero() {
    assert_eq!(min_exp_for_level(1, GrowthRate::MediumFast), 0);
}

#[test]
fn medium_fast_matches_table() {
    assert_eq!(min_exp_for_level(50, GrowthRate::MediumFast), 125_000);
    assert_eq!(min_exp_for_level(100, GrowthRate::MediumFast), 1_000_000);
}

#[test]
fn fast_matches_table() {
    assert_eq!(min_exp_for_level(100, GrowthRate::Fast), 800_000);
}

#[test]
fn slow_matches_table() {
    assert_eq!(min_exp_for_level(100, GrowthRate::Slow), 1_250_000);
}

#[test]
fn medium_slow_matches_table() {
    assert_eq!(min_exp_for_level(100, GrowthRate::MediumSlow), 1_059_860);
}

#[test]
fn erratic_matches_table_at_100() {
    assert_eq!(min_exp_for_level(100, GrowthRate::Erratic), 600_000);
}

#[test]
fn fluctuating_matches_table_at_100() {
    assert_eq!(min_exp_for_level(100, GrowthRate::Fluctuating), 1_640_000);
}

#[test]
fn slug_parser_accepts_pokeapi_variants() {
    assert_eq!(
        GrowthRate::from_pokeapi_slug("medium-fast").unwrap(),
        GrowthRate::MediumFast
    );
    assert_eq!(
        GrowthRate::from_pokeapi_slug("fluctuating").unwrap(),
        GrowthRate::Fluctuating
    );
    assert!(GrowthRate::from_pokeapi_slug("bogus").is_err());
}

const ALL_RATES: [GrowthRate; 6] = [
    GrowthRate::Erratic,
    GrowthRate::Fast,
    GrowthRate::MediumFast,
    GrowthRate::MediumSlow,
    GrowthRate::Slow,
    GrowthRate::Fluctuating,
];

#[test]
fn lvl_1_is_zero_for_all_rates() {
    for rate in ALL_RATES {
        assert_eq!(min_exp_for_level(1, rate), 0, "rate {:?}", rate);
    }
}

#[test]
fn lvl_100_matches_canonical_totals() {
    assert_eq!(min_exp_for_level(100, GrowthRate::Erratic), 600_000);
    assert_eq!(min_exp_for_level(100, GrowthRate::Fast), 800_000);
    assert_eq!(min_exp_for_level(100, GrowthRate::MediumFast), 1_000_000);
    assert_eq!(min_exp_for_level(100, GrowthRate::MediumSlow), 1_059_860);
    assert_eq!(min_exp_for_level(100, GrowthRate::Slow), 1_250_000);
    assert_eq!(min_exp_for_level(100, GrowthRate::Fluctuating), 1_640_000);
}

#[test]
fn medium_fast_known_values() {
    assert_eq!(min_exp_for_level(2, GrowthRate::MediumFast), 8);
    assert_eq!(min_exp_for_level(10, GrowthRate::MediumFast), 1000);
    assert_eq!(min_exp_for_level(50, GrowthRate::MediumFast), 125_000);
}

#[test]
fn piecewise_formulas_at_their_boundaries() {
    assert_eq!(min_exp_for_level(50, GrowthRate::Erratic), 125_000);
    assert_eq!(min_exp_for_level(51, GrowthRate::Erratic), 131_324);
    assert_eq!(min_exp_for_level(68, GrowthRate::Erratic), 257_834);
    assert_eq!(min_exp_for_level(69, GrowthRate::Erratic), 267_406);
    assert_eq!(min_exp_for_level(98, GrowthRate::Erratic), 583_539);
    assert_eq!(min_exp_for_level(99, GrowthRate::Erratic), 591_882);
    assert_eq!(min_exp_for_level(15, GrowthRate::Fluctuating), 1_957);
    assert_eq!(min_exp_for_level(16, GrowthRate::Fluctuating), 2_457);
    assert_eq!(min_exp_for_level(36, GrowthRate::Fluctuating), 46_656);
    assert_eq!(min_exp_for_level(37, GrowthRate::Fluctuating), 50_653);
    assert_eq!(min_exp_for_level(2, GrowthRate::MediumSlow), 9);
    assert_eq!(min_exp_for_level(0, GrowthRate::Slow), 0);
    // Beyond level 160 the Erratic formula turns negative and is clamped to 0.
    assert_eq!(min_exp_for_level(200, GrowthRate::Erratic), 0);
    assert_eq!(min_exp_for_level(255, GrowthRate::Slow), 20_726_718);
}

#[test]
fn experience_grows_with_every_level() {
    for rate in ALL_RATES {
        for level in 1u8..100 {
            assert!(
                min_exp_for_level(level, rate) < min_exp_for_level(level + 1, rate),
                "{:?} at {}",
                rate,
                level
            );
        }
    }
}

#[test]
fn level_from_exp_inverts_min_exp() {
    for rate in ALL_RATES {
        for level in 1u8..=100 {
            let exp = min_exp_for_level(level, rate);
            assert_eq!(level_from_exp(exp, rate), level);
            if level > 1 {
                assert_eq!(level_from_exp(exp - 1, rate), level - 1);
            }
        }
    }
    assert_eq!(level_from_exp(262_144, GrowthRate::MediumFast), 64);
    assert_eq!(level_from_exp(466_560, GrowthRate::Slow), 72);
    assert_eq!(level_from_exp(u32::MAX, GrowthRate::Fast), 100);
    assert_eq!(level_from_exp(0, GrowthRate::Erratic), 1);
}

#[test]
fn all_slugs_and_growth_table() {
    assert_eq!(GrowthRate::from_pokeapi_slug("slow-then-very-fast").unwrap(), GrowthRate::Erratic);
    assert_eq!(GrowthRate::from_pokeapi_slug("erratic").unwrap(), GrowthRate::Erratic);
    assert_eq!(GrowthRate::from_pokeapi_slug("fast").unwrap(), GrowthRate::Fast);
    assert_eq!(GrowthRate::from_pokeapi_slug("medium").unwrap(), GrowthRate::MediumFast);
    assert_eq!(GrowthRate::from_pokeapi_slug("medium-slow").unwrap(), GrowthRate::MediumSlow);
    assert_eq!(GrowthRate::from_pokeapi_slug("slow").unwrap(), GrowthRate::Slow);
    assert_eq!(
        GrowthRate::from_pokeapi_slug("fast-then-very-slow").unwrap(),
        GrowthRate::Fluctuating
    );
    let e = GrowthRate::from_pokeapi_slug("Fast").unwrap_err();
    assert_eq!(e.to_string(), "Unbekannte Wachstumsrate aus PokéAPI: Fast");
    assert_eq!(growth_rate_of(252), GrowthRate::MediumSlow);
    assert_eq!(growth_rate_of(604), GrowthRate::Slow);
    assert_eq!(growth_rate_of(631), GrowthRate::MediumFast);
    assert_eq!(growth_rate_of(1), GrowthRate::MediumFast);
}
