//! Regions: named groups of countries usable as shorthand filters.

use crate::strutil::str_eq;
use vstd::prelude::*;

verus! {

#[derive(Debug, Clone, Copy, PartialEq, Eq, Structural)]
/// A named, fixed group of countries.
pub enum Region {
    /// The European Union.
    ///
    /// Because of the Brexit, the United Kingdom is not included in this region.
    EuropeanUnion,
    /// The European Economic Area, consisting of the European Union, Norway,
    /// Liechtenstein and Iceland.
    EuropeanEconomicArea,
    /// The Benelux consists of Belgium, The Netherlands and Luxembourg.
    Benelux,
    /// Countries of the Five Eyes programme.
    FiveEyes,
    /// Countries of the Six Eyes programme.
    SixEyes,
    /// Countries of the Nine Eyes programme.
    NineEyes,
    /// Countries of the Fourteen Eyes programme.
    FourteenEyes,
}

/// The region that a short code stands for, or `None` for an unknown code.
pub open spec fn spec_region_of(s: Seq<char>) -> Option<Region> {
    if s == "EU"@ || s == "ЕЮ"@ {
        Some(Region::EuropeanUnion)
    } else if s == "EEA"@ {
        Some(Region::EuropeanEconomicArea)
    } else if s == "BENELUX"@ {
        Some(Region::Benelux)
    } else if s == "5E"@ {
        Some(Region::FiveEyes)
    } else if s == "6E"@ {
        Some(Region::SixEyes)
    } else if s == "9E"@ {
        Some(Region::NineEyes)
    } else if s == "14E"@ {
        Some(Region::FourteenEyes)
    } else {
        None
    }
}

/// The main short notation of a region.
pub open spec fn spec_region_short(r: Region) -> Seq<char> {
    match r {
        Region::EuropeanUnion => "EU"@,
        Region::EuropeanEconomicArea => "EEA"@,
        Region::Benelux => "BENELUX"@,
        Region::FiveEyes => "5E"@,
        Region::SixEyes => "6E"@,
        Region::NineEyes => "9E"@,
        Region::FourteenEyes => "14E"@,
    }
}

/// The fixed list of country codes of a region.
pub open spec fn spec_region_countries(r: Region) -> Seq<Seq<char>> {
    match r {
        Region::EuropeanEconomicArea => seq![
            "AT"@, "BE"@, "BG"@, "HR"@, "CY"@, "CZ"@, "DK"@, "EE"@, "FI"@, "FR"@, "DE"@, "GR"@,
            "HU"@, "IE"@, "IT"@, "LV"@, "LT"@, "LU"@, "MT"@, "NL"@, "PL"@, "PT"@, "RO"@, "SK"@,
            "SI"@, "ES"@, "SE"@, "NO"@, "LI"@, "IS"@,
        ],
        Region::EuropeanUnion => seq![
            "AT"@, "BE"@, "BG"@, "HR"@, "CY"@, "CZ"@, "DK"@, "EE"@, "FI"@, "FR"@, "DE"@, "GR"@,
            "HU"@, "IE"@, "IT"@, "LV"@, "LT"@, "LU"@, "MT"@, "NL"@, "PL"@, "PT"@, "RO"@, "SK"@,
            "SI"@, "ES"@, "SE"@,
        ],
        Region::Benelux => seq!["BE"@, "LU"@, "NL"@],
        Region::FiveEyes => seq!["AU"@, "CA"@, "NZ"@, "GB"@, "US"@],
        Region::SixEyes => seq!["AU"@, "CA"@, "FR"@, "NZ"@, "GB"@, "US"@],
        Region::NineEyes => seq!["AU"@, "CA"@, "DK"@, "FR"@, "NL"@, "NO"@, "NZ"@, "GB"@, "US"@],
        Region::FourteenEyes => seq![
            "AU"@, "BE"@, "CA"@, "DE"@, "DK"@, "ES"@, "FR"@, "IT"@, "NL"@, "NO"@, "NZ"@, "GB"@,
            "SE"@, "US"@,
        ],
    }
}

/// The advertised region codes, each with a human readable description.
pub open spec fn spec_region_code_options() -> Seq<(Seq<char>, Seq<char>)> {
    seq![
        ("EU"@, "The European Union"@),
        ("ЕЮ"@, "The European Union (Cyrillic notation)"@),
        ("EEA"@, "The European Economic Area"@),
        ("BENELUX"@, "Countries of the Benelux"@),
        ("5E"@, "Countries involved in the Five Eyes programme."@),
        ("6E"@, "Countries involved in the Six Eyes programme."@),
        ("9E"@, "Countries involved in the Nine Eyes programme."@),
        ("14E"@, "Countries involved in the Fourteen Eyes programme."@),
    ]
}

impl Region {
    /// Tries to create a Region from a string slice. Returns the Region that the
    /// given short code stands for, and `None` for any other string.
    ///
    /// The provided str slice should be **uppercase**.
    pub fn from_str(region_short: &str) -> (r: Option<Region>)
        ensures
            r == spec_region_of(region_short@),
    {
        if str_eq(region_short, "EU") || str_eq(region_short, "ЕЮ") {
            Some(Region::EuropeanUnion)
        } else if str_eq(region_short, "EEA") {
            Some(Region::EuropeanEconomicArea)
        } else if str_eq(region_short, "BENELUX") {
            Some(Region::Benelux)
        } else if str_eq(region_short, "5E") {
            Some(Region::FiveEyes)
        } else if str_eq(region_short, "6E") {
            Some(Region::SixEyes)
        } else if str_eq(region_short, "9E") {
            Some(Region::NineEyes)
        } else if str_eq(region_short, "14E") {
            Some(Region::FourteenEyes)
        } else {
            None
        }
    }

    /// Returns all possible region codes with their respective meanings in human
    /// readable form. Useful to provide lists to your users to choose from.
    ///
    /// Looking up the code at index 0 of any returned tuple with
    /// [`Region::from_str`] is guaranteed to give a `Some`.
    pub fn from_str_options() -> (r: Vec<(&'static str, &'static str)>)
        ensures
            r@.len() == spec_region_code_options().len(),
            forall|i: int|
                0 <= i < r@.len() ==> (#[trigger] r@[i]).0@ == spec_region_code_options()[i].0
                    && r@[i].1@ == spec_region_code_options()[i].1,
    {
        let r: Vec<(&'static str, &'static str)> = vec![
            ("EU", "The European Union"),
            ("ЕЮ", "The European Union (Cyrillic notation)"),
            ("EEA", "The European Economic Area"),
            ("BENELUX", "Countries of the Benelux"),
            ("5E", "Countries involved in the Five Eyes programme."),
            ("6E", "Countries involved in the Six Eyes programme."),
            ("9E", "Countries involved in the Nine Eyes programme."),
            ("14E", "Countries involved in the Fourteen Eyes programme."),
        ];
        r
    }

    /// Returns the main short notation for a given Region.
    pub fn short(&self) -> (r: &'static str)
        ensures
            r@ == spec_region_short(*self),
    {
        match self {
            Region::EuropeanUnion => "EU",
            Region::EuropeanEconomicArea => "EEA",
            Region::Benelux => "BENELUX",
            Region::FiveEyes => "5E",
            Region::SixEyes => "6E",
            Region::NineEyes => "9E",
            Region::FourteenEyes => "14E",
        }
    }

    /// Returns the fixed list of country codes that make up this region.
    pub fn countries(&self) -> (r: Vec<&'static str>)
        ensures
            r@.map_values(|c: &str| c@) == spec_region_countries(*self),
    {
        let r: Vec<&'static str> = match self {
            Region::EuropeanEconomicArea => vec![
                "AT", "BE", "BG", "HR", "CY", "CZ", "DK", "EE", "FI", "FR", "DE", "GR", "HU", "IE",
                "IT", "LV", "LT", "LU", "MT", "NL", "PL", "PT", "RO", "SK", "SI", "ES", "SE", "NO",
                "LI", "IS",
            ],
            Region::EuropeanUnion => vec![
                "AT", "BE", "BG", "HR", "CY", "CZ", "DK", "EE", "FI", "FR", "DE", "GR", "HU", "IE",
                "IT", "LV", "LT", "LU", "MT", "NL", "PL", "PT", "RO", "SK", "SI", "ES", "SE",
            ],
            Region::Benelux => vec!["BE", "LU", "NL"],
            Region::FiveEyes => vec!["AU", "CA", "NZ", "GB", "US"],
            Region::SixEyes => vec!["AU", "CA", "FR", "NZ", "GB", "US"],
            Region::NineEyes => vec!["AU", "CA", "DK", "FR", "NL", "NO", "NZ", "GB", "US"],
            Region::FourteenEyes => vec![
                "AU", "BE", "CA", "DE", "DK", "ES", "FR", "IT", "NL", "NO", "NZ", "GB", "SE", "US",
            ],
        };
        proof {
            assert(r@.map_values(|c: &str| c@) =~= spec_region_countries(*self));
        }
        r
    }
}

/// Region lookup round-trip: every advertised region code can be looked up
/// again, and every region stands for a non-empty set of countries.
pub proof fn lemma_region_codes_round_trip()
    ensures
        forall|i: int|
            0 <= i < spec_region_code_options().len() ==> #[trigger] spec_region_of(
                spec_region_code_options()[i].0,
            ) is Some,
        forall|r: Region| spec_region_countries(r).len() > 0,
{
    assert forall|i: int|
        0 <= i < spec_region_code_options().len() implies #[trigger] spec_region_of(
        spec_region_code_options()[i].0,
    ) is Some by {
        let code = spec_region_code_options()[i].0;
        if i == 0 {
            assert(code == "EU"@);
        } else if i == 1 {
            assert(code == "ЕЮ"@);
        } else if i == 2 {
            assert(code == "EEA"@);
        } else if i == 3 {
            assert(code == "BENELUX"@);
        } else if i == 4 {
            assert(code == "5E"@);
        } else if i == 5 {
            assert(code == "6E"@);
        } else if i == 6 {
            assert(code == "9E"@);
        } else {
            assert(code == "14E"@);
        }
    }
}

} // verus!
