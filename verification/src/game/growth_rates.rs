//! The six Pokémon experience growth rates and the experience they require
//! per level (formulas as documented on Bulbapedia).
use vstd::prelude::*;

use crate::species_data::{species_table, species_table_entry};
use crate::text::{chars_of, push_str, str_equals};

verus! {

/// The six EXP growth rates.
#[derive(Debug, Clone, Copy, PartialEq, Eq, Structural)]
pub enum GrowthRate {
    Erratic,
    Fast,
    MediumFast,
    MediumSlow,
    Slow,
    Fluctuating,
}

/// A growth-rate name that PokéAPI does not use.
#[derive(Debug)]
pub struct UnknownGrowthRate {
    pub slug: String,
}

impl UnknownGrowthRate {
    /// The human-readable message of the error.
    pub fn to_string(&self) -> (s: String)
        ensures
            s@ == "Unbekannte Wachstumsrate aus PokéAPI: "@ + self.slug@,
    {
        let mut s = String::new();
        push_str(&mut s, "Unbekannte Wachstumsrate aus PokéAPI: ");
        push_str(&mut s, self.slug.as_str());
        s
    }
}

/// The growth rate that a PokéAPI name (or one of the names `erratic` and
/// `fluctuating`) denotes.
pub open spec fn spec_rate_from_slug(slug: Seq<char>) -> Option<GrowthRate> {
    if slug == "slow-then-very-fast"@ || slug == "erratic"@ {
        Some(GrowthRate::Erratic)
    } else if slug == "fast"@ {
        Some(GrowthRate::Fast)
    } else if slug == "medium"@ || slug == "medium-fast"@ {
        Some(GrowthRate::MediumFast)
    } else if slug == "medium-slow"@ {
        Some(GrowthRate::MediumSlow)
    } else if slug == "slow"@ {
        Some(GrowthRate::Slow)
    } else if slug == "fast-then-very-slow"@ || slug == "fluctuating"@ {
        Some(GrowthRate::Fluctuating)
    } else {
        None
    }
}

impl GrowthRate {
    /// Maps a PokéAPI growth-rate name to the rate. PokéAPI calls Erratic
    /// `slow-then-very-fast` and Fluctuating `fast-then-very-slow`; `erratic`
    /// and `fluctuating` are accepted too, for hand-edited data.
    pub fn from_pokeapi_slug(slug: &str) -> (r: Result<GrowthRate, UnknownGrowthRate>)
        ensures
            match spec_rate_from_slug(slug@) {
                Some(rate) => r == Ok::<GrowthRate, UnknownGrowthRate>(rate),
                None => r matches Err(e) && e.slug@ == slug@,
            },
    {
        let v = chars_of(slug);
        if str_equals(&v, "slow-then-very-fast") || str_equals(&v, "erratic") {
            Ok(GrowthRate::Erratic)
        } else if str_equals(&v, "fast") {
            Ok(GrowthRate::Fast)
        } else if str_equals(&v, "medium") || str_equals(&v, "medium-fast") {
            Ok(GrowthRate::MediumFast)
        } else if str_equals(&v, "medium-slow") {
            Ok(GrowthRate::MediumSlow)
        } else if str_equals(&v, "slow") {
            Ok(GrowthRate::Slow)
        } else if str_equals(&v, "fast-then-very-slow") || str_equals(&v, "fluctuating") {
            Ok(GrowthRate::Fluctuating)
        } else {
            let mut name = String::new();
            push_str(&mut name, slug);
            Err(UnknownGrowthRate { slug: name })
        }
    }
}

/// The experience formula of `rate` at level `n`, before clamping at 0
/// (divisions round down).
pub open spec fn exp_formula(n: int, rate: GrowthRate) -> int {
    let c = n * n * n;
    match rate {
        GrowthRate::Fast => 4 * c / 5,
        GrowthRate::MediumFast => c,
        GrowthRate::MediumSlow => 6 * c / 5 - 15 * (n * n) + 100 * n - 140,
        GrowthRate::Slow => 5 * c / 4,
        GrowthRate::Erratic => if n <= 50 {
            c * (100 - n) / 50
        } else if n <= 68 {
            c * (150 - n) / 100
        } else if n <= 98 {
            c * ((1911 - 10 * n) / 3) / 500
        } else {
            c * (160 - n) / 100
        },
        GrowthRate::Fluctuating => if n <= 15 {
            c * ((n + 1) / 3 + 24) / 50
        } else if n <= 36 {
            c * (n + 14) / 50
        } else {
            c * (n / 2 + 32) / 50
        },
    }
}

/// Minimum total experience of a Pokémon at `level`: 0 up to level 1,
/// otherwise the rate's formula, clamped at 0.
pub open spec fn spec_min_exp_for_level(level: u8, rate: GrowthRate) -> int {
    if level <= 1 {
        0
    } else if exp_formula(level as int, rate) < 0 {
        0
    } else {
        exp_formula(level as int, rate)
    }
}

proof fn lemma_cube_bound(n: u64)
    requires
        n <= 255,
    ensures
        n * n * n <= 16_581_375,
        n * n <= 65_025,
{
    assert(n * n * n <= 16_581_375 && n * n <= 65_025) by (nonlinear_arith)
        requires
            n <= 255,
    ;
}

proof fn lemma_product_bound(c: u64, k: u64)
    requires
        c <= 16_581_375,
        k <= 500,
    ensures
        c * k <= 8_290_687_500,
{
    assert(c * k <= 8_290_687_500) by (nonlinear_arith)
        requires
            c <= 16_581_375,
            k <= 500,
    ;
}

/// Minimum total experience required for exactly `level` (0 for level 1).
pub fn min_exp_for_level(level: u8, rate: GrowthRate) -> (exp: u32)
    ensures
        exp as int == spec_min_exp_for_level(level, rate),
{
    if level <= 1 {
        return 0;
    }
    let n = level as u64;
    proof {
        lemma_cube_bound(n);
    }
    let sq = n * n;
    let c = sq * n;
    let exp: u64 = match rate {
        GrowthRate::Fast => {
            proof {
                lemma_product_bound(c, 4);
            }
            4 * c / 5
        },
        GrowthRate::MediumFast => c,
        GrowthRate::MediumSlow => {
            proof {
                lemma_product_bound(c, 6);
            }
            let gain = 6 * c / 5 + 100 * n;
            let loss = 15 * sq + 140;
            if gain >= loss {
                gain - loss
            } else {
                0
            }
        },
        GrowthRate::Slow => {
            proof {
                lemma_product_bound(c, 5);
            }
            5 * c / 4
        },
        GrowthRate::Erratic => {
            if n <= 50 {
                let k = 100 - n;
                proof {
                    lemma_product_bound(c, k);
                }
                c * k / 50
            } else if n <= 68 {
                let k = 150 - n;
                proof {
                    lemma_product_bound(c, k);
                }
                c * k / 100
            } else if n <= 98 {
                let inner = (1911 - 10 * n) / 3;
                proof {
                    lemma_product_bound(c, inner);
                }
                c * inner / 500
            } else if n < 160 {
                let k = 160 - n;
                proof {
                    lemma_product_bound(c, k);
                }
                c * k / 100
            } else {
                proof {
                    assert(c * (160 - n) <= 0) by (nonlinear_arith)
                        requires
                            n >= 160,
                            c >= 0,
                    ;
                }
                0
            }
        },
        GrowthRate::Fluctuating => {
            let inner = if n <= 15 {
                (n + 1) / 3 + 24
            } else if n <= 36 {
                n + 14
            } else {
                n / 2 + 32
            };
            proof {
                lemma_product_bound(c, inner);
            }
            c * inner / 50
        },
    };
    proof {
        assert(exp <= 200_000_000);
    }
    exp as u32
}

/// The highest level in `1..=top` whose minimum experience is at most `exp`
/// (level 1 needs none).
pub open spec fn highest_level_within(exp: u32, rate: GrowthRate, top: nat) -> u8
    decreases top,
{
    if top <= 1 {
        1
    } else if spec_min_exp_for_level(top as u8, rate) <= exp {
        top as u8
    } else {
        highest_level_within(exp, rate, (top - 1) as nat)
    }
}

/// The level a Pokémon with `exp` total experience has: the highest level
/// in `1..=100` whose minimum experience it has reached.
pub open spec fn spec_level_from_exp(exp: u32, rate: GrowthRate) -> u8 {
    highest_level_within(exp, rate, 100)
}

/// `b / d > a / d` when `b` exceeds `a` by at least `d`.
proof fn lemma_div_gap(a: int, b: int, d: int)
    requires
        d > 0,
        a >= 0,
        b >= a + d,
    ensures
        b / d > a / d,
        a / d >= 0,
{
    assert(b / d > a / d && a / d >= 0) by (nonlinear_arith)
        requires
            d > 0,
            a >= 0,
            b >= a + d,
    ;
}

/// The cube of `n + 1` exceeds the cube of `n` by `3n² + 3n + 1`.
proof fn lemma_cube_step(n: int)
    ensures
        (n + 1) * (n + 1) * (n + 1) == n * n * n + 3 * (n * n) + 3 * n + 1,
{
    assert((n + 1) * (n + 1) * (n + 1) == n * n * n + 3 * (n * n) + 3 * n + 1) by (nonlinear_arith);
}

/// Minimum experience at level 2, per rate.
proof fn lemma_level_two(rate: GrowthRate)
    ensures
        spec_min_exp_for_level(2, rate) > 0,
{
    let n: int = 2;
    assert(n * n * n == 8);
    assert(4 * 8int / 5 == 6);
    assert(6 * 8int / 5 == 9);
    assert(5 * 8int / 4 == 10);
    assert(8int * 98 / 50 == 15);
    assert((2int + 1) / 3 == 1);
    assert(8int * 25 / 50 == 4);
}

/// Experience grows strictly with each level from 1 to 100.
pub proof fn lemma_min_exp_step(n: u8, rate: GrowthRate)
    requires
        1 <= n < 100,
    ensures
        spec_min_exp_for_level(n, rate) < spec_min_exp_for_level((n + 1) as u8, rate),
{
    if n == 1 {
        lemma_level_two(rate);
        return;
    }
    let m = n as int;
    let c1 = m * m * m;
    let c2 = (m + 1) * (m + 1) * (m + 1);
    lemma_cube_step(m);
    assert(c1 >= 8) by (nonlinear_arith)
        requires
            m >= 2,
            c1 == m * m * m,
    ;
    assert(m * m >= 4) by (nonlinear_arith)
        requires
            m >= 2,
    ;
    match rate {
        GrowthRate::MediumFast => {},
        GrowthRate::Fast => {
            lemma_div_gap(4 * c1, 4 * c2, 5);
        },
        GrowthRate::Slow => {
            lemma_div_gap(5 * c1, 5 * c2, 4);
        },
        GrowthRate::MediumSlow => {
            lemma_medium_slow_step(m);
        },
        GrowthRate::Erratic => {
            lemma_erratic_step(m);
        },
        GrowthRate::Fluctuating => {
            lemma_fluctuating_step(m);
        },
    }
}

proof fn lemma_medium_slow_step(m: int)
    requires
        2 <= m < 100,
    ensures
        exp_formula(m, GrowthRate::MediumSlow) > 0,
        exp_formula(m, GrowthRate::MediumSlow) < exp_formula(m + 1, GrowthRate::MediumSlow),
{
    let c1 = m * m * m;
    let c2 = (m + 1) * (m + 1) * (m + 1);
    lemma_cube_step(m);
    let q1 = 6 * c1 / 5;
    let q2 = 6 * c2 / 5;
    assert(5 * q1 <= 6 * c1 < 5 * q1 + 5 && 5 * q2 <= 6 * c2 < 5 * q2 + 5) by (nonlinear_arith)
        requires
            q1 == 6 * c1 / 5,
            q2 == 6 * c2 / 5,
    ;
    assert(6 * c1 - 75 * (m * m) + 500 * m - 704 > 0) by (nonlinear_arith)
        requires
            2 <= m,
            c1 == m * m * m,
    ;
    assert(18 * (m * m) - 132 * m + 427 > 0) by (nonlinear_arith);
    assert((m + 1) * (m + 1) == m * m + 2 * m + 1) by (nonlinear_arith);
}

proof fn lemma_erratic_step(m: int)
    requires
        2 <= m < 100,
    ensures
        0 < exp_formula(m, GrowthRate::Erratic) < exp_formula(m + 1, GrowthRate::Erratic),
{
    let c1 = m * m * m;
    let c2 = (m + 1) * (m + 1) * (m + 1);
    lemma_cube_step(m);
    assert(c1 >= 8) by (nonlinear_arith)
        requires
            m >= 2,
            c1 == m * m * m,
    ;
    if m + 1 <= 50 {
        assert(c2 * (99 - m) >= c1 * (100 - m) + 50 && c1 * (100 - m) >= 0) by (nonlinear_arith)
            requires
                2 <= m <= 49,
                c1 == m * m * m,
                c2 == c1 + 3 * (m * m) + 3 * m + 1,
        ;
        assert(c1 * (100 - m) >= 50) by (nonlinear_arith)
            requires
                2 <= m <= 49,
                c1 == m * m * m,
        ;
        lemma_div_gap(c1 * (100 - m), c2 * (100 - (m + 1)), 50);
        lemma_div_gap(0, c1 * (100 - m), 50);
    } else if m == 50 {
        assert(c1 == 125000);
        assert(c2 == 132651);
        assert(125000int * 50 / 50 == 125000);
        assert(132651int * 99 / 100 == 131324);
    } else if m + 1 <= 68 {
        assert(c2 * (149 - m) >= c1 * (150 - m) + 100 && c1 * (150 - m) >= 100) by (nonlinear_arith)
            requires
                51 <= m <= 67,
                c1 == m * m * m,
                c2 == c1 + 3 * (m * m) + 3 * m + 1,
        ;
        lemma_div_gap(c1 * (150 - m), c2 * (150 - (m + 1)), 100);
        lemma_div_gap(0, c1 * (150 - m), 100);
    } else if m == 68 {
        assert(c1 == 314432);
        assert(c2 == 328509);
        assert(314432int * 82 / 100 == 257834);
        assert((1911 - 690int) / 3 == 407);
        assert(328509int * 407 / 500 == 267406);
    } else if m + 1 <= 98 {
        let i1 = (1911 - 10 * m) / 3;
        let i2 = (1911 - 10 * (m + 1)) / 3;
        assert(3 * i1 <= 1911 - 10 * m < 3 * i1 + 3 && 3 * i2 <= 1911 - 10 * (m + 1) < 3 * i2 + 3)
            by (nonlinear_arith)
            requires
                i1 == (1911 - 10 * m) / 3,
                i2 == (1911 - 10 * (m + 1)) / 3,
        ;
        assert(i1 >= 313 && i2 >= i1 - 4 && i2 >= 0);
        assert(c2 <= 98 * ((m + 1) * (m + 1))) by (nonlinear_arith)
            requires
                m + 1 <= 98,
                c2 == (m + 1) * (m + 1) * (m + 1),
        ;
        assert((m + 1) * (m + 1) == m * m + 2 * m + 1) by (nonlinear_arith);
        assert(c2 * i2 >= c2 * i1 - 4 * c2) by (nonlinear_arith)
            requires
                i2 >= i1 - 4,
                c2 >= 0,
        ;
        assert((c2 - c1) * i1 >= 313 * (c2 - c1)) by (nonlinear_arith)
            requires
                i1 >= 313,
                c2 >= c1,
        ;
        assert(c2 * i1 - c1 * i1 == (c2 - c1) * i1) by (nonlinear_arith);
        assert(547 * (m * m) + 155 * m - 79 >= 500) by (nonlinear_arith)
            requires
                m >= 69,
        ;
        assert(c1 * i1 >= 500) by (nonlinear_arith)
            requires
                c1 >= 8,
                i1 >= 313,
        ;
        lemma_div_gap(c1 * i1, c2 * i2, 500);
        lemma_div_gap(0, c1 * i1, 500);
    } else if m == 98 {
        assert(c1 == 941192);
        assert(c2 == 970299);
        assert((1911 - 980int) / 3 == 310);
        assert(941192int * 310 / 500 == 583539);
        assert(970299int * 61 / 100 == 591882);
    } else {
        assert(m == 99);
        assert(c1 == 970299);
        assert(c2 == 1000000);
        assert(970299int * 61 / 100 == 591882);
        assert(1000000int * 60 / 100 == 600000);
    }
}

proof fn lemma_fluctuating_step(m: int)
    requires
        2 <= m < 100,
    ensures
        0 < exp_formula(m, GrowthRate::Fluctuating) < exp_formula(m + 1, GrowthRate::Fluctuating),
{
    let c1 = m * m * m;
    let c2 = (m + 1) * (m + 1) * (m + 1);
    lemma_cube_step(m);
    assert(c1 >= 8) by (nonlinear_arith)
        requires
            m >= 2,
            c1 == m * m * m,
    ;
    if m + 1 <= 15 {
        let j1 = (m + 1) / 3 + 24;
        let j2 = (m + 2) / 3 + 24;
        assert(j2 >= j1 && j1 >= 24);
        assert(c2 * j2 >= c1 * j1 + 50 && c1 * j1 >= 50) by (nonlinear_arith)
            requires
                c1 >= 8,
                c2 == c1 + 3 * (m * m) + 3 * m + 1,
                j2 >= j1,
                j1 >= 24,
                m >= 2,
        ;
        lemma_div_gap(c1 * j1, c2 * j2, 50);
        lemma_div_gap(0, c1 * j1, 50);
    } else if m == 15 {
        assert(c1 == 3375);
        assert(c2 == 4096);
        assert(16int / 3 == 5);
        assert(3375int * 29 / 50 == 1957);
        assert(4096int * 30 / 50 == 2457);
    } else if m + 1 <= 36 {
        assert(c2 * (m + 15) >= c1 * (m + 14) + 50 && c1 * (m + 14) >= 50) by (nonlinear_arith)
            requires
                c1 >= 8,
                c2 == c1 + 3 * (m * m) + 3 * m + 1,
                m >= 16,
        ;
        lemma_div_gap(c1 * (m + 14), c2 * (m + 1 + 14), 50);
        lemma_div_gap(0, c1 * (m + 14), 50);
    } else if m == 36 {
        assert(c1 == 46656);
        assert(c2 == 50653);
        assert(46656int * 50 / 50 == 46656);
        assert(37int / 2 == 18);
        assert(50653int * 50 / 50 == 50653);
    } else {
        let k1 = m / 2 + 32;
        let k2 = (m + 1) / 2 + 32;
        assert(k2 >= k1 && k1 >= 32);
        assert(c2 * k2 >= c1 * k1 + 50 && c1 * k1 >= 50) by (nonlinear_arith)
            requires
                c1 >= 8,
                c2 == c1 + 3 * (m * m) + 3 * m + 1,
                k2 >= k1,
                k1 >= 32,
                m >= 2,
        ;
        lemma_div_gap(c1 * k1, c2 * k2, 50);
        lemma_div_gap(0, c1 * k1, 50);
    }
}

/// Experience at level 100, per rate: 600 000 (Erratic), 800 000 (Fast),
/// 1 000 000 (Medium Fast), 1 059 860 (Medium Slow), 1 250 000 (Slow),
/// 1 640 000 (Fluctuating).
pub proof fn lemma_level_hundred(rate: GrowthRate)
    ensures
        spec_min_exp_for_level(100, rate) == match rate {
            GrowthRate::Erratic => 600_000int,
            GrowthRate::Fast => 800_000,
            GrowthRate::MediumFast => 1_000_000,
            GrowthRate::MediumSlow => 1_059_860,
            GrowthRate::Slow => 1_250_000,
            GrowthRate::Fluctuating => 1_640_000,
        },
{
    let n: int = 100;
    assert(n * n * n == 1_000_000);
    assert(1_000_000int * 60 / 100 == 600_000);
    assert(4 * 1_000_000int / 5 == 800_000);
    assert(6 * 1_000_000int / 5 == 1_200_000);
    assert(15 * (n * n) == 150_000);
    assert(5 * 1_000_000int / 4 == 1_250_000);
    assert(n / 2 == 50);
    assert(1_000_000int * 82 / 50 == 1_640_000);
}

/// Experience grows strictly with the level on `1..=100`.
pub proof fn lemma_min_exp_increasing(a: u8, b: u8, rate: GrowthRate)
    requires
        1 <= a < b <= 100,
    ensures
        spec_min_exp_for_level(a, rate) < spec_min_exp_for_level(b, rate),
    decreases b,
{
    lemma_min_exp_step((b - 1) as u8, rate);
    if a < b - 1 {
        lemma_min_exp_increasing(a, (b - 1) as u8, rate);
    }
}

/// The minimum experience of every level up to 100 is between 0 and the
/// experience at level 100 (at most 1 640 000).
pub proof fn lemma_min_exp_bounds(level: u8, rate: GrowthRate)
    requires
        level <= 100,
    ensures
        0 <= spec_min_exp_for_level(level, rate) <= spec_min_exp_for_level(100, rate) <= 1_640_000,
{
    lemma_level_hundred(rate);
    if 1 <= level < 100 {
        lemma_min_exp_increasing(level, 100, rate);
    }
}

proof fn lemma_highest_level_of_min_exp(level: u8, rate: GrowthRate, top: nat)
    requires
        1 <= level <= top <= 100,
    ensures
        highest_level_within(spec_min_exp_for_level(level, rate) as u32, rate, top) == level,
    decreases top,
{
    lemma_min_exp_bounds(level, rate);
    if top > level {
        lemma_min_exp_increasing(level, top as u8, rate);
        lemma_highest_level_of_min_exp(level, rate, (top - 1) as nat);
    }
}

/// A Pokémon with exactly the minimum experience of a level in `1..=100`
/// has that level.
pub proof fn lemma_level_of_min_exp(level: u8, rate: GrowthRate)
    requires
        1 <= level <= 100,
    ensures
        spec_level_from_exp(spec_min_exp_for_level(level, rate) as u32, rate) == level,
{
    lemma_highest_level_of_min_exp(level, rate, 100);
}

proof fn lemma_highest_level_reached(exp: u32, rate: GrowthRate, top: nat)
    requires
        1 <= top <= 100,
    ensures
        spec_min_exp_for_level(highest_level_within(exp, rate, top), rate) <= exp,
    decreases top,
{
    if top > 1 && spec_min_exp_for_level(top as u8, rate) > exp {
        lemma_highest_level_reached(exp, rate, (top - 1) as nat);
    }
}

/// A Pokémon has at least the minimum experience of its level.
pub proof fn lemma_level_reached(exp: u32, rate: GrowthRate)
    ensures
        spec_min_exp_for_level(spec_level_from_exp(exp, rate), rate) <= exp,
{
    lemma_highest_level_reached(exp, rate, 100);
}

/// Every experience value gives a level in `1..=100`.
pub proof fn lemma_level_range(exp: u32, rate: GrowthRate)
    ensures
        1 <= spec_level_from_exp(exp, rate) <= 100,
{
    lemma_highest_level_range(exp, rate, 100);
}

proof fn lemma_highest_level_range(exp: u32, rate: GrowthRate, top: nat)
    requires
        top <= 100,
    ensures
        1 <= highest_level_within(exp, rate, top) <= 100,
        highest_level_within(exp, rate, top) <= if top == 0 { 1 } else { top },
    decreases top,
{
    if top > 1 {
        lemma_highest_level_range(exp, rate, (top - 1) as nat);
    }
}

/// Derives the level from total experience and growth rate.
pub fn level_from_exp(exp: u32, rate: GrowthRate) -> (level: u8)
    ensures
        level == spec_level_from_exp(exp, rate),
        1 <= level <= 100,
{
    let mut top: u8 = 100;
    while top > 1
        invariant
            1 <= top <= 100,
            highest_level_within(exp, rate, top as nat) == spec_level_from_exp(exp, rate),
        decreases top,
    {
        if min_exp_for_level(top, rate) <= exp {
            return top;
        }
        top -= 1;
    }
    1
}

/// The growth rate of a species: the table entry, or Medium Fast (the most
/// common Gen-6 rate) for species the table does not list.
pub open spec fn spec_growth_rate_of(species: u16) -> GrowthRate {
    match species_table_entry(species) {
        Some(rate) => rate,
        None => GrowthRate::MediumFast,
    }
}

/// Looks up the growth rate of a species; species the table does not list
/// fall back to Medium Fast.
pub fn growth_rate_of(species: u16) -> (rate: GrowthRate)
    ensures
        rate == spec_growth_rate_of(species),
{
    match species_table(species) {
        Some(r) => r,
        None => GrowthRate::MediumFast,
    }
}

/// The minimum experience of every level from 2 to 100 follows its
/// rate's published formula over the whole range of each piece (cubes of
/// the level, rounded down, never below 0): Fast `4n³/5`, Medium Fast `n³`,
/// Medium Slow `6n³/5 − 15n² + 100n − 140`, Slow `5n³/4`; Erratic
/// `n³(100−n)/50` up to 50, `n³(150−n)/100` up to 68,
/// `n³⌊(1911−10n)/3⌋/500` up to 98, `n³(160−n)/100` above; Fluctuating
/// `n³(⌊(n+1)/3⌋+24)/50` up to 15, `n³(n+14)/50` up to 36,
/// `n³(⌊n/2⌋+32)/50` above. Level 1 and below need no experience.
pub proof fn lemma_min_exp_formulas(n: u8)
    ensures
        n <= 1 ==> forall|rate: GrowthRate| #[trigger] spec_min_exp_for_level(n, rate) == 0,
        2 <= n ==> ({
            let c = (n as int) * (n as int) * (n as int);
            let m = n as int;
            let clamp = |x: int| if x < 0 {
                0
            } else {
                x
            };
            &&& spec_min_exp_for_level(n, GrowthRate::Fast) == clamp(4 * c / 5)
            &&& spec_min_exp_for_level(n, GrowthRate::MediumFast) == clamp(c)
            &&& spec_min_exp_for_level(n, GrowthRate::MediumSlow) == clamp(
                6 * c / 5 - 15 * (m * m) + 100 * m - 140,
            )
            &&& spec_min_exp_for_level(n, GrowthRate::Slow) == clamp(5 * c / 4)
            &&& m <= 50 ==> spec_min_exp_for_level(n, GrowthRate::Erratic) == clamp(
                c * (100 - m) / 50,
            )
            &&& 51 <= m <= 68 ==> spec_min_exp_for_level(n, GrowthRate::Erratic) == clamp(
                c * (150 - m) / 100,
            )
            &&& 69 <= m <= 98 ==> spec_min_exp_for_level(n, GrowthRate::Erratic) == clamp(
                c * ((1911 - 10 * m) / 3) / 500,
            )
            &&& 99 <= m ==> spec_min_exp_for_level(n, GrowthRate::Erratic) == clamp(
                c * (160 - m) / 100,
            )
            &&& m <= 15 ==> spec_min_exp_for_level(n, GrowthRate::Fluctuating) == clamp(
                c * ((m + 1) / 3 + 24) / 50,
            )
            &&& 16 <= m <= 36 ==> spec_min_exp_for_level(n, GrowthRate::Fluctuating) == clamp(
                c * (m + 14) / 50,
            )
            &&& 37 <= m ==> spec_min_exp_for_level(n, GrowthRate::Fluctuating) == clamp(
                c * (m / 2 + 32) / 50,
            )
        }),
{
}

} // verus!
