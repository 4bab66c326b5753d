use vstd::prelude::*;
use crate::shapes::Coord;

verus! {

// The fixed set of countries the precompute pipeline knows, identified by
// ISO alpha-3 code. Each carries a display name and, where one exists, the
// reference point of its capital, written as the same JSON-number texts the
// geometry itself uses.

#[derive(Clone, Copy, PartialEq, Eq, Structural, Hash, Debug)]
pub enum CountryCode {
    Fra,
    Deu,
    Ita,
    Esp,
    Prt,
    Nld,
    Jpn,
    Aus,
    Bra,
    Ata,
}

impl CountryCode {
    /// Display name of the country.
    pub open spec fn spec_name(self) -> Seq<char> {
        match self {
            CountryCode::Fra => "France"@,
            CountryCode::Deu => "Germany"@,
            CountryCode::Ita => "Italy"@,
            CountryCode::Esp => "Spain"@,
            CountryCode::Prt => "Portugal"@,
            CountryCode::Nld => "Netherlands"@,
            CountryCode::Jpn => "Japan"@,
            CountryCode::Aus => "Australia"@,
            CountryCode::Bra => "Brazil"@,
            CountryCode::Ata => "Antarctica"@,
        }
    }

    pub fn country_name(&self) -> (r: &'static str)
        ensures
            r@ == self.spec_name(),
    {
        match self {
            CountryCode::Fra => "France",
            CountryCode::Deu => "Germany",
            CountryCode::Ita => "Italy",
            CountryCode::Esp => "Spain",
            CountryCode::Prt => "Portugal",
            CountryCode::Nld => "Netherlands",
            CountryCode::Jpn => "Japan",
            CountryCode::Aus => "Australia",
            CountryCode::Bra => "Brazil",
            CountryCode::Ata => "Antarctica",
        }
    }

    /// The ISO alpha-3 code as bytes.
    pub open spec fn spec_code_bytes(self) -> Seq<u8> {
        match self {
            CountryCode::Fra => seq![70u8, 82u8, 65u8],
            CountryCode::Deu => seq![68u8, 69u8, 85u8],
            CountryCode::Ita => seq![73u8, 84u8, 65u8],
            CountryCode::Esp => seq![69u8, 83u8, 80u8],
            CountryCode::Prt => seq![80u8, 82u8, 84u8],
            CountryCode::Nld => seq![78u8, 76u8, 68u8],
            CountryCode::Jpn => seq![74u8, 80u8, 78u8],
            CountryCode::Aus => seq![65u8, 85u8, 83u8],
            CountryCode::Bra => seq![66u8, 82u8, 65u8],
            CountryCode::Ata => seq![65u8, 84u8, 65u8],
        }
    }

    pub fn alpha3_bytes(&self) -> (r: Vec<u8>)
        ensures
            r@ == self.spec_code_bytes(),
    {
        let r: Vec<u8> = match self {
            CountryCode::Fra => vec![70u8, 82u8, 65u8],
            CountryCode::Deu => vec![68u8, 69u8, 85u8],
            CountryCode::Ita => vec![73u8, 84u8, 65u8],
            CountryCode::Esp => vec![69u8, 83u8, 80u8],
            CountryCode::Prt => vec![80u8, 82u8, 84u8],
            CountryCode::Nld => vec![78u8, 76u8, 68u8],
            CountryCode::Jpn => vec![74u8, 80u8, 78u8],
            CountryCode::Aus => vec![65u8, 85u8, 83u8],
            CountryCode::Bra => vec![66u8, 82u8, 65u8],
            CountryCode::Ata => vec![65u8, 84u8, 65u8],
        };
        proof {
            assert(CountryCode::Fra.spec_code_bytes() =~= seq![70u8, 82u8, 65u8]);
            assert(CountryCode::Deu.spec_code_bytes() =~= seq![68u8, 69u8, 85u8]);
            assert(CountryCode::Ita.spec_code_bytes() =~= seq![73u8, 84u8, 65u8]);
            assert(CountryCode::Esp.spec_code_bytes() =~= seq![69u8, 83u8, 80u8]);
            assert(CountryCode::Prt.spec_code_bytes() =~= seq![80u8, 82u8, 84u8]);
            assert(CountryCode::Nld.spec_code_bytes() =~= seq![78u8, 76u8, 68u8]);
            assert(CountryCode::Jpn.spec_code_bytes() =~= seq![74u8, 80u8, 78u8]);
            assert(CountryCode::Aus.spec_code_bytes() =~= seq![65u8, 85u8, 83u8]);
            assert(CountryCode::Bra.spec_code_bytes() =~= seq![66u8, 82u8, 65u8]);
            assert(CountryCode::Ata.spec_code_bytes() =~= seq![65u8, 84u8, 65u8]);
        }
        r
    }

    /// Which country a byte text names, if any.
    pub open spec fn spec_from_code(s: Seq<u8>) -> Option<CountryCode> {
        if s == seq![70u8, 82u8, 65u8] {
            Option::Some(CountryCode::Fra)
        } else if s == seq![68u8, 69u8, 85u8] {
            Option::Some(CountryCode::Deu)
        } else if s == seq![73u8, 84u8, 65u8] {
            Option::Some(CountryCode::Ita)
        } else if s == seq![69u8, 83u8, 80u8] {
            Option::Some(CountryCode::Esp)
        } else if s == seq![80u8, 82u8, 84u8] {
            Option::Some(CountryCode::Prt)
        } else if s == seq![78u8, 76u8, 68u8] {
            Option::Some(CountryCode::Nld)
        } else if s == seq![74u8, 80u8, 78u8] {
            Option::Some(CountryCode::Jpn)
        } else if s == seq![65u8, 85u8, 83u8] {
            Option::Some(CountryCode::Aus)
        } else if s == seq![66u8, 82u8, 65u8] {
            Option::Some(CountryCode::Bra)
        } else if s == seq![65u8, 84u8, 65u8] {
            Option::Some(CountryCode::Ata)
        } else {
            Option::None
        }
    }

    /// Parse an ISO alpha-3 code.
    pub fn from_alpha3(s: &Vec<u8>) -> (r: Option<CountryCode>)
        ensures
            r == Self::spec_from_code(s@),
    {
        if s.len() != 3 {
            return Option::None;
        }
        let (a, b, c) = (s[0], s[1], s[2]);
        if a == 70 && b == 82 && c == 65 {
            proof { assert(s@ =~= seq![70u8, 82u8, 65u8]); }
            Option::Some(CountryCode::Fra)
        } else if a == 68 && b == 69 && c == 85 {
            proof { assert(s@ =~= seq![68u8, 69u8, 85u8]); }
            Option::Some(CountryCode::Deu)
        } else if a == 73 && b == 84 && c == 65 {
            proof { assert(s@ =~= seq![73u8, 84u8, 65u8]); }
            Option::Some(CountryCode::Ita)
        } else if a == 69 && b == 83 && c == 80 {
            proof { assert(s@ =~= seq![69u8, 83u8, 80u8]); }
            Option::Some(CountryCode::Esp)
        } else if a == 80 && b == 82 && c == 84 {
            proof { assert(s@ =~= seq![80u8, 82u8, 84u8]); }
            Option::Some(CountryCode::Prt)
        } else if a == 78 && b == 76 && c == 68 {
            proof { assert(s@ =~= seq![78u8, 76u8, 68u8]); }
            Option::Some(CountryCode::Nld)
        } else if a == 74 && b == 80 && c == 78 {
            proof { assert(s@ =~= seq![74u8, 80u8, 78u8]); }
            Option::Some(CountryCode::Jpn)
        } else if a == 65 && b == 85 && c == 83 {
            proof { assert(s@ =~= seq![65u8, 85u8, 83u8]); }
            Option::Some(CountryCode::Aus)
        } else if a == 66 && b == 82 && c == 65 {
            proof { assert(s@ =~= seq![66u8, 82u8, 65u8]); }
            Option::Some(CountryCode::Bra)
        } else if a == 65 && b == 84 && c == 65 {
            proof { assert(s@ =~= seq![65u8, 84u8, 65u8]); }
            Option::Some(CountryCode::Ata)
        } else {
            Option::None
        }
    }

    /// Whether the country has a capital reference point.
    pub open spec fn spec_has_capital(self) -> bool {
        !(self is Ata)
    }

    /// The capital's coordinate, as JSON-number texts (x = longitude,
    /// y = latitude), where the country has one.
    pub fn capital_coords(&self) -> (r: Option<Coord>)
        ensures
            r is Some <==> self.spec_has_capital(),
    {
        match self {
            CountryCode::Fra => Option::Some(
                Coord { x: vec![50u8, 46u8, 51u8, 53u8, 50u8, 50u8], y: vec![52u8, 56u8, 46u8, 56u8, 53u8, 54u8, 54u8] },
            ),
            CountryCode::Deu => Option::Some(
                Coord { x: vec![49u8, 51u8, 46u8, 52u8, 48u8, 53u8], y: vec![53u8, 50u8, 46u8, 53u8, 50u8] },
            ),
            CountryCode::Ita => Option::Some(
                Coord { x: vec![49u8, 50u8, 46u8, 52u8, 57u8, 54u8, 52u8], y: vec![52u8, 49u8, 46u8, 57u8, 48u8, 50u8, 56u8] },
            ),
            CountryCode::Esp => Option::Some(
                Coord { x: vec![45u8, 51u8, 46u8, 55u8, 48u8, 51u8, 56u8], y: vec![52u8, 48u8, 46u8, 52u8, 49u8, 54u8, 56u8] },
            ),
            CountryCode::Prt => Option::Some(
                Coord { x: vec![45u8, 57u8, 46u8, 49u8, 51u8, 57u8, 51u8], y: vec![51u8, 56u8, 46u8, 55u8, 50u8, 50u8, 51u8] },
            ),
            CountryCode::Nld => Option::Some(
                Coord { x: vec![52u8, 46u8, 57u8, 48u8, 52u8, 49u8], y: vec![53u8, 50u8, 46u8, 51u8, 54u8, 55u8, 54u8] },
            ),
            CountryCode::Jpn => Option::Some(
                Coord { x: vec![49u8, 51u8, 57u8, 46u8, 54u8, 57u8, 49u8, 55u8], y: vec![51u8, 53u8, 46u8, 54u8, 56u8, 57u8, 53u8] },
            ),
            CountryCode::Aus => Option::Some(
                Coord { x: vec![49u8, 52u8, 57u8, 46u8, 49u8, 51u8], y: vec![45u8, 51u8, 53u8, 46u8, 50u8, 56u8, 48u8, 57u8] },
            ),
            CountryCode::Bra => Option::Some(
                Coord { x: vec![45u8, 52u8, 55u8, 46u8, 56u8, 56u8, 50u8, 53u8], y: vec![45u8, 49u8, 53u8, 46u8, 55u8, 57u8, 52u8, 50u8] },
            ),
            CountryCode::Ata => Option::None,
        }
    }

    /// Every country, in a fixed order.
    pub open spec fn spec_all() -> Seq<CountryCode> {
        seq![CountryCode::Fra, CountryCode::Deu, CountryCode::Ita, CountryCode::Esp, CountryCode::Prt, CountryCode::Nld, CountryCode::Jpn, CountryCode::Aus, CountryCode::Bra, CountryCode::Ata]
    }

    pub fn all() -> (r: Vec<CountryCode>)
        ensures
            r@ == Self::spec_all(),
    {
        let r: Vec<CountryCode> = vec![CountryCode::Fra, CountryCode::Deu, CountryCode::Ita, CountryCode::Esp, CountryCode::Prt, CountryCode::Nld, CountryCode::Jpn, CountryCode::Aus, CountryCode::Bra, CountryCode::Ata];
        proof {
            assert(r@ =~= Self::spec_all());
        }
        r
    }
}

} // verus!
