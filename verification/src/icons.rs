//! Which weather glyph to draw for a sky.

use vstd::prelude::*;
use crate::weather::Family;

verus! {

/// Which glyph to draw: derived from a `Family`, with day and night variants for clear and
/// partly cloudy skies.
#[derive(Clone, Copy, Debug, PartialEq, Eq, Structural)]
pub enum Glyph {
    Sun,
    Moon,
    PartlyDay,
    PartlyNight,
    Cloud,
    Fog,
    Drizzle,
    Rain,
    Snow,
    Thunder,
}

/// The glyph for a family of weather by day or by night.
pub open spec fn glyph_spec(family: Family, is_day: bool) -> Glyph {
    match family {
        Family::Clear => if is_day {
            Glyph::Sun
        } else {
            Glyph::Moon
        },
        Family::PartlyCloudy => if is_day {
            Glyph::PartlyDay
        } else {
            Glyph::PartlyNight
        },
        Family::Cloudy => Glyph::Cloud,
        Family::Fog => Glyph::Fog,
        Family::Drizzle => Glyph::Drizzle,
        Family::Rain => Glyph::Rain,
        Family::Snow => Glyph::Snow,
        Family::Thunder => Glyph::Thunder,
    }
}

impl Glyph {
    pub fn of(family: Family, is_day: bool) -> (g: Glyph)
        ensures
            g == glyph_spec(family, is_day),
            family == Family::Clear ==> g == (if is_day {
                Glyph::Sun
            } else {
                Glyph::Moon
            }),
            family == Family::PartlyCloudy ==> g == (if is_day {
                Glyph::PartlyDay
            } else {
                Glyph::PartlyNight
            }),
            family == Family::Cloudy ==> g == Glyph::Cloud,
            family == Family::Fog ==> g == Glyph::Fog,
            family == Family::Drizzle ==> g == Glyph::Drizzle,
            family == Family::Rain ==> g == Glyph::Rain,
            family == Family::Snow ==> g == Glyph::Snow,
            family == Family::Thunder ==> g == Glyph::Thunder,
    {
        match family {
            Family::Clear => {
                if is_day {
                    Glyph::Sun
                } else {
                    Glyph::Moon
                }
            },
            Family::PartlyCloudy => {
                if is_day {
                    Glyph::PartlyDay
                } else {
                    Glyph::PartlyNight
                }
            },
            Family::Cloudy => Glyph::Cloud,
            Family::Fog => Glyph::Fog,
            Family::Drizzle => Glyph::Drizzle,
            Family::Rain => Glyph::Rain,
            Family::Snow => Glyph::Snow,
            Family::Thunder => Glyph::Thunder,
        }
    }
}


/// No two families share a glyph, and only clear and partly cloudy skies change glyph
/// between day and night.
pub proof fn lemma_glyph_distinguishes(f1: Family, d1: bool, f2: Family, d2: bool)
    ensures
        glyph_spec(f1, d1) == glyph_spec(f2, d2) ==> f1 == f2,
        glyph_spec(f1, d1) == glyph_spec(f1, d2) <==> (d1 == d2 || (f1 != Family::Clear && f1
            != Family::PartlyCloudy)),
{
}

/// The glyph of each family other than clear and partly cloudy is the family's own, by day
/// and by night.
pub proof fn lemma_glyph_table(is_day: bool)
    ensures
        glyph_spec(Family::Clear, true) == Glyph::Sun,
        glyph_spec(Family::Clear, false) == Glyph::Moon,
        glyph_spec(Family::PartlyCloudy, true) == Glyph::PartlyDay,
        glyph_spec(Family::PartlyCloudy, false) == Glyph::PartlyNight,
        glyph_spec(Family::Cloudy, is_day) == Glyph::Cloud,
        glyph_spec(Family::Fog, is_day) == Glyph::Fog,
        glyph_spec(Family::Drizzle, is_day) == Glyph::Drizzle,
        glyph_spec(Family::Rain, is_day) == Glyph::Rain,
        glyph_spec(Family::Snow, is_day) == Glyph::Snow,
        glyph_spec(Family::Thunder, is_day) == Glyph::Thunder,
{
}

} // verus!
