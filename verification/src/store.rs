use vstd::prelude::*;
use crate::codec::{FormatError, decode, enc_mp, encode, sp_doc};
use crate::countries::CountryCode;
use crate::shapes::MultiPolygon;

verus! {

// The multi-resolution store: six persisted artifacts, one per resolution
// level, are decoded and cross-checked at startup; afterwards the store
// answers catalog and lookup queries from immutable per-country records.

/// The six resolution levels, in ascending strength of simplification.
#[derive(Clone, Copy, PartialEq, Eq, Structural, Hash, Debug)]
pub enum Simplification {
    Unsimplified,
    Slight,
    Medium,
    Moderate,
    Aggressive,
    Max,
}

impl Simplification {
    /// The level's name, as it appears in artifact file names.
    pub open spec fn spec_name(self) -> Seq<char> {
        match self {
            Simplification::Unsimplified => "none"@,
            Simplification::Slight => "slight"@,
            Simplification::Medium => "medium"@,
            Simplification::Moderate => "moderate"@,
            Simplification::Aggressive => "aggressive"@,
            Simplification::Max => "max"@,
        }
    }

    pub fn name(&self) -> (r: &'static str)
        ensures
            r@ == self.spec_name(),
    {
        match self {
            Simplification::Unsimplified => "none",
            Simplification::Slight => "slight",
            Simplification::Medium => "medium",
            Simplification::Moderate => "moderate",
            Simplification::Aggressive => "aggressive",
            Simplification::Max => "max",
        }
    }

    /// Every level, in ascending order.
    pub open spec fn spec_all() -> Seq<Simplification> {
        seq![
            Simplification::Unsimplified,
            Simplification::Slight,
            Simplification::Medium,
            Simplification::Moderate,
            Simplification::Aggressive,
            Simplification::Max,
        ]
    }

    pub fn all() -> (r: Vec<Simplification>)
        ensures
            r@ == Self::spec_all(),
    {
        let r: Vec<Simplification> = vec![
            Simplification::Unsimplified,
            Simplification::Slight,
            Simplification::Medium,
            Simplification::Moderate,
            Simplification::Aggressive,
            Simplification::Max,
        ];
        proof {
            assert(r@ =~= Self::spec_all());
        }
        r
    }
}

/// One country's record: for each resolution level, the encoded byte size
/// and the geometry at that level.
pub struct SimplifiedBorders {
    pub none: (usize, MultiPolygon),
    pub slight: (usize, MultiPolygon),
    pub medium: (usize, MultiPolygon),
    pub moderate: (usize, MultiPolygon),
    pub aggressive: (usize, MultiPolygon),
    pub max: (usize, MultiPolygon),
}

impl SimplifiedBorders {
    /// The record's entry for one level.
    pub open spec fn spec_level(self, l: Simplification) -> (usize, MultiPolygon) {
        match l {
            Simplification::Unsimplified => self.none,
            Simplification::Slight => self.slight,
            Simplification::Medium => self.medium,
            Simplification::Moderate => self.moderate,
            Simplification::Aggressive => self.aggressive,
            Simplification::Max => self.max,
        }
    }

    /// The six encoded sizes, in ascending level order.
    pub fn sizes(&self) -> (r: (usize, usize, usize, usize, usize, usize))
        ensures
            r.0 == self.none.0,
            r.1 == self.slight.0,
            r.2 == self.medium.0,
            r.3 == self.moderate.0,
            r.4 == self.aggressive.0,
            r.5 == self.max.0,
    {
        (
            self.none.0,
            self.slight.0,
            self.medium.0,
            self.moderate.0,
            self.aggressive.0,
            self.max.0,
        )
    }
}

/// One catalog row: display name and the six sizes.
pub struct CountriesResponse {
    pub name: String,
    pub sizes: (usize, usize, usize, usize, usize, usize),
}

/// Why the store refused to come up.
#[derive(PartialEq, Eq, Structural, Clone, Copy, Debug)]
pub enum StartupError {
    /// Some artifact entry does not decode as a compact geometry.
    Malformed(FormatError),
    /// Some artifact names the same country twice.
    Duplicate,
    /// Some country present at one level is absent at another.
    MissingCountry,
}

/// A lookup asked for a country the store does not hold.
#[derive(PartialEq, Eq, Structural, Clone, Copy, Debug)]
pub struct NotFound;

/// The codes named by one artifact, in artifact order.
pub open spec fn raw_codes(lv: Seq<(CountryCode, Vec<u8>)>) -> Seq<CountryCode> {
    lv.map_values(|e: (CountryCode, Vec<u8>)| e.0)
}

/// Every entry of the artifact decodes.
pub open spec fn level_decodes(lv: Seq<(CountryCode, Vec<u8>)>) -> bool {
    forall|k: int| 0 <= k < lv.len() ==> (sp_doc(#[trigger] lv[k].1@) is Ok)
}

/// No code appears twice.
pub open spec fn distinct_codes(codes: Seq<CountryCode>) -> bool {
    forall|i: int, j: int| 0 <= i < j < codes.len() ==> codes[i] != codes[j]
}

/// Every code of `a` appears in `b`.
pub open spec fn codes_subset(a: Seq<CountryCode>, b: Seq<CountryCode>) -> bool {
    forall|i: int| 0 <= i < a.len() ==> b.contains(#[trigger] a[i])
}

/// The store itself: one record per country, built once, immutable after.
pub struct Store {
    pub entries: Vec<(CountryCode, SimplifiedBorders)>,
}

impl Store {
    /// The countries the store holds, in load order.
    pub open spec fn codes(self) -> Seq<CountryCode> {
        self.entries@.map_values(|e: (CountryCode, SimplifiedBorders)| e.0)
    }

    /// No country twice, and every recorded size is the encoded size of the
    /// recorded geometry, freshly recomputed at load time.
    pub open spec fn wf(self) -> bool {
        &&& distinct_codes(self.codes())
        &&& forall|i: int, l: Simplification|
            0 <= i < self.entries@.len() ==> (#[trigger] self.entries@[i].1.spec_level(l)).0
                == enc_mp(self.entries@[i].1.spec_level(l).1@).len()
    }
}

fn decode_level(lv: &Vec<(CountryCode, Vec<u8>)>) -> (r: Result<
    Vec<(CountryCode, MultiPolygon)>,
    FormatError,
>)
    ensures
        (match r {
            Ok(out) => {
                &&& level_decodes(lv@)
                &&& out@.len() == lv@.len()
                &&& forall|k: int|
                    0 <= k < lv@.len() ==> (#[trigger] out@[k]).0 == lv@[k].0 && sp_doc(lv@[k].1@)
                        == Ok::<_, FormatError>(out@[k].1@)
            },
            Err(e) => !level_decodes(lv@) && exists|k: int|
                0 <= k < lv@.len() && sp_doc(#[trigger] lv@[k].1@) == Err::<
                    Seq<crate::shapes::PolyV>,
                    _,
                >(e),
        }),
{
    let mut out: Vec<(CountryCode, MultiPolygon)> = Vec::new();
    let mut k: usize = 0;
    while k < lv.len()
        invariant
            k <= lv.len(),
            out@.len() == k,
            forall|j: int|
                0 <= j < k ==> (#[trigger] out@[j]).0 == lv@[j].0 && sp_doc(lv@[j].1@) == Ok::<
                    _,
                    FormatError,
                >(out@[j].1@),
        decreases lv.len() - k,
    {
        let (code, bytes) = &lv[k];
        match decode(bytes) {
            Ok(mp) => {
                out.push((*code, mp));
            },
            Err(e) => {
                proof {
                    assert(sp_doc(lv@[k as int].1@) == Err::<Seq<crate::shapes::PolyV>, _>(e));
                }
                return Err(e);
            },
        }
        k += 1;
    }
    proof {
        assert forall|j: int| 0 <= j < lv@.len() implies (sp_doc(#[trigger] lv@[j].1@) is Ok) by {
            assert((out@[j]).0 == lv@[j].0);
        }
    }
    Ok(out)
}

fn find_code(lv: &Vec<(CountryCode, MultiPolygon)>, c: CountryCode) -> (r: Option<usize>)
    ensures
        (match r {
            Some(k) => k < lv@.len() && lv@[k as int].0 == c,
            None => forall|j: int| 0 <= j < lv@.len() ==> (#[trigger] lv@[j]).0 != c,
        }),
{
    let mut k: usize = 0;
    while k < lv.len()
        invariant
            k <= lv.len(),
            forall|j: int| 0 <= j < k ==> (#[trigger] lv@[j]).0 != c,
        decreases lv.len() - k,
    {
        if lv[k].0 == c {
            return Some(k);
        }
        k += 1;
    }
    None
}

fn check_distinct(lv: &Vec<(CountryCode, MultiPolygon)>) -> (r: bool)
    ensures
        r == distinct_codes(lv@.map_values(|e: (CountryCode, MultiPolygon)| e.0)),
{
    let ghost codes = lv@.map_values(|e: (CountryCode, MultiPolygon)| e.0);
    let mut i: usize = 0;
    while i < lv.len()
        invariant
            i <= lv.len(),
            codes == lv@.map_values(|e: (CountryCode, MultiPolygon)| e.0),
            codes.len() == lv@.len(),
            forall|a: int, b: int| 0 <= a < b < lv@.len() && a < i ==> codes[a] != codes[b],
        decreases lv.len() - i,
    {
        let mut j: usize = i + 1;
        while j < lv.len()
            invariant
                i < j <= lv.len() || (i + 1 == j && j > lv.len()),
                i < lv.len(),
                codes == lv@.map_values(|e: (CountryCode, MultiPolygon)| e.0),
                codes.len() == lv@.len(),
                forall|b: int| i < b < j ==> codes[i as int] != codes[b],
            decreases lv.len() - j,
        {
            if lv[i].0 == lv[j].0 {
                proof {
                    assert(codes[i as int] == lv@[i as int].0);
                    assert(codes[j as int] == lv@[j as int].0);
                    assert(!distinct_codes(codes)) by {
                        assert(0 <= i < j < codes.len() && codes[i as int] == codes[j as int]);
                    }
                }
                return false;
            }
            j += 1;
        }
        i += 1;
    }
    true
}

/// The codes of a decoded artifact, in artifact order.
pub open spec fn dec_codes(lv: Seq<(CountryCode, MultiPolygon)>) -> Seq<CountryCode> {
    lv.map_values(|e: (CountryCode, MultiPolygon)| e.0)
}

fn check_subset(a: &Vec<(CountryCode, MultiPolygon)>, b: &Vec<(CountryCode, MultiPolygon)>) -> (r:
    bool)
    ensures
        r == codes_subset(dec_codes(a@), dec_codes(b@)),
{
    let mut i: usize = 0;
    while i < a.len()
        invariant
            i <= a.len(),
            forall|j: int| 0 <= j < i ==> dec_codes(b@).contains(#[trigger] dec_codes(a@)[j]),
        decreases a.len() - i,
    {
        match find_code(b, a[i].0) {
            Some(k) => {
                proof {
                    assert(dec_codes(b@)[k as int] == b@[k as int].0);
                    assert(dec_codes(a@)[i as int] == a@[i as int].0);
                    assert(dec_codes(b@).contains(dec_codes(a@)[i as int]));
                }
            },
            None => {
                proof {
                    let c = dec_codes(a@)[i as int];
                    assert(c == a@[i as int].0);
                    if dec_codes(b@).contains(c) {
                        let j = choose|j: int|
                            0 <= j < dec_codes(b@).len() && dec_codes(b@)[j] == c;
                        assert(b@[j].0 == c);
                    }
                }
                return false;
            },
        }
        i += 1;
    }
    true
}

/// One record entry traces back to one artifact entry for its country: that
/// entry's bytes decode to exactly the recorded geometry.
pub open spec fn entry_from(
    lv: Seq<(CountryCode, Vec<u8>)>,
    c: CountryCode,
    e: (usize, MultiPolygon),
) -> bool {
    exists|k: int|
        0 <= k < lv.len() && (#[trigger] lv[k]).0 == c && sp_doc(lv[k].1@) == Ok::<_, FormatError>(
            e.1@,
        )
}

/// A whole record traces back to the six artifacts.
pub open spec fn record_from(
    l0: Seq<(CountryCode, Vec<u8>)>,
    l1: Seq<(CountryCode, Vec<u8>)>,
    l2: Seq<(CountryCode, Vec<u8>)>,
    l3: Seq<(CountryCode, Vec<u8>)>,
    l4: Seq<(CountryCode, Vec<u8>)>,
    l5: Seq<(CountryCode, Vec<u8>)>,
    c: CountryCode,
    b: SimplifiedBorders,
) -> bool {
    &&& entry_from(l0, c, b.none)
    &&& entry_from(l1, c, b.slight)
    &&& entry_from(l2, c, b.medium)
    &&& entry_from(l3, c, b.moderate)
    &&& entry_from(l4, c, b.aggressive)
    &&& entry_from(l5, c, b.max)
}

/// Every recorded size of the record is the encoded size of its geometry.
pub open spec fn record_sizes_ok(b: SimplifiedBorders) -> bool {
    forall|l: Simplification|
        (#[trigger] b.spec_level(l)).0 == enc_mp(b.spec_level(l).1@).len()
}

/// The condition under which a six-artifact family loads: every entry
/// decodes, no artifact names a country twice, and all six artifacts name
/// exactly the same countries.
pub open spec fn levels_consistent(
    l0: Seq<(CountryCode, Vec<u8>)>,
    l1: Seq<(CountryCode, Vec<u8>)>,
    l2: Seq<(CountryCode, Vec<u8>)>,
    l3: Seq<(CountryCode, Vec<u8>)>,
    l4: Seq<(CountryCode, Vec<u8>)>,
    l5: Seq<(CountryCode, Vec<u8>)>,
) -> bool {
    &&& level_decodes(l0) && level_decodes(l1) && level_decodes(l2) && level_decodes(l3)
        && level_decodes(l4) && level_decodes(l5)
    &&& distinct_codes(raw_codes(l0)) && distinct_codes(raw_codes(l1)) && distinct_codes(
        raw_codes(l2),
    ) && distinct_codes(raw_codes(l3)) && distinct_codes(raw_codes(l4)) && distinct_codes(
        raw_codes(l5),
    )
    &&& codes_subset(raw_codes(l1), raw_codes(l0)) && codes_subset(raw_codes(l0), raw_codes(l1))
    &&& codes_subset(raw_codes(l2), raw_codes(l0)) && codes_subset(raw_codes(l0), raw_codes(l2))
    &&& codes_subset(raw_codes(l3), raw_codes(l0)) && codes_subset(raw_codes(l0), raw_codes(l3))
    &&& codes_subset(raw_codes(l4), raw_codes(l0)) && codes_subset(raw_codes(l0), raw_codes(l4))
    &&& codes_subset(raw_codes(l5), raw_codes(l0)) && codes_subset(raw_codes(l0), raw_codes(l5))
}

impl Store {
    /// Build the store from the six artifacts, one per resolution level in
    /// ascending order. Succeeds exactly when the artifacts are mutually
    /// consistent; the recorded sizes are recomputed here from the decoded
    /// geometry rather than trusted from the artifact.
    pub fn load(
        none_lv: Vec<(CountryCode, Vec<u8>)>,
        slight_lv: Vec<(CountryCode, Vec<u8>)>,
        medium_lv: Vec<(CountryCode, Vec<u8>)>,
        moderate_lv: Vec<(CountryCode, Vec<u8>)>,
        aggressive_lv: Vec<(CountryCode, Vec<u8>)>,
        max_lv: Vec<(CountryCode, Vec<u8>)>,
    ) -> (r: Result<Store, StartupError>)
        ensures
            (r is Ok) <==> levels_consistent(
                none_lv@,
                slight_lv@,
                medium_lv@,
                moderate_lv@,
                aggressive_lv@,
                max_lv@,
            ),
            (match r {
                Ok(st) => {
                    &&& st.wf()
                    &&& st.codes() == raw_codes(none_lv@)
                    &&& forall|i: int|
                        0 <= i < st.entries@.len() ==> record_from(
                            none_lv@,
                            slight_lv@,
                            medium_lv@,
                            moderate_lv@,
                            aggressive_lv@,
                            max_lv@,
                            (#[trigger] st.entries@[i]).0,
                            st.entries@[i].1,
                        )
                },
                Err(e) => true,
            }),
    {
        let d0 = match decode_level(&none_lv) {
            Ok(d) => d,
            Err(e) => {
                return Err(StartupError::Malformed(e));
            },
        };
        let d1 = match decode_level(&slight_lv) {
            Ok(d) => d,
            Err(e) => {
                return Err(StartupError::Malformed(e));
            },
        };
        let d2 = match decode_level(&medium_lv) {
            Ok(d) => d,
            Err(e) => {
                return Err(StartupError::Malformed(e));
            },
        };
        let d3 = match decode_level(&moderate_lv) {
            Ok(d) => d,
            Err(e) => {
                return Err(StartupError::Malformed(e));
            },
        };
        let d4 = match decode_level(&aggressive_lv) {
            Ok(d) => d,
            Err(e) => {
                return Err(StartupError::Malformed(e));
            },
        };
        let d5 = match decode_level(&max_lv) {
            Ok(d) => d,
            Err(e) => {
                return Err(StartupError::Malformed(e));
            },
        };
        proof {
            assert(dec_codes(d0@) =~= raw_codes(none_lv@));
            assert(dec_codes(d1@) =~= raw_codes(slight_lv@));
            assert(dec_codes(d2@) =~= raw_codes(medium_lv@));
            assert(dec_codes(d3@) =~= raw_codes(moderate_lv@));
            assert(dec_codes(d4@) =~= raw_codes(aggressive_lv@));
            assert(dec_codes(d5@) =~= raw_codes(max_lv@));
        }
        if !check_distinct(&d0) || !check_distinct(&d1) || !check_distinct(&d2) || !check_distinct(
            &d3,
        ) || !check_distinct(&d4) || !check_distinct(&d5) {
            return Err(StartupError::Duplicate);
        }
        if !check_subset(&d1, &d0) || !check_subset(&d0, &d1) || !check_subset(&d2, &d0)
            || !check_subset(&d0, &d2) || !check_subset(&d3, &d0) || !check_subset(&d0, &d3)
            || !check_subset(&d4, &d0) || !check_subset(&d0, &d4) || !check_subset(&d5, &d0)
            || !check_subset(&d0, &d5) {
            return Err(StartupError::MissingCountry);
        }
        let mut entries: Vec<(CountryCode, SimplifiedBorders)> = Vec::new();
        let mut i: usize = 0;
        while i < d0.len()
            invariant
                i <= d0.len(),
                entries@.len() == i,
                levels_consistent(
                    none_lv@,
                    slight_lv@,
                    medium_lv@,
                    moderate_lv@,
                    aggressive_lv@,
                    max_lv@,
                ),
                forall|j: int| 0 <= j < i ==> (#[trigger] entries@[j]).0 == d0@[j].0,
                forall|j: int|
                    0 <= j < i ==> record_sizes_ok((#[trigger] entries@[j]).1) && record_from(
                        none_lv@,
                        slight_lv@,
                        medium_lv@,
                        moderate_lv@,
                        aggressive_lv@,
                        max_lv@,
                        entries@[j].0,
                        entries@[j].1,
                    ),
            decreases d0.len() - i,
        {
            let c = d0[i].0;
            proof {
                assert(dec_codes(d0@)[i as int] == c);
                assert(dec_codes(d1@).contains(dec_codes(d0@)[i as int]));
                assert(dec_codes(d2@).contains(dec_codes(d0@)[i as int]));
                assert(dec_codes(d3@).contains(dec_codes(d0@)[i as int]));
                assert(dec_codes(d4@).contains(dec_codes(d0@)[i as int]));
                assert(dec_codes(d5@).contains(dec_codes(d0@)[i as int]));
            }
            let k1 = match find_code(&d1, c) {
                Some(k) => k,
                None => {
                    proof {
                        let j = choose|j: int|
                            0 <= j < dec_codes(d1@).len() && dec_codes(d1@)[j] == c;
                        assert(d1@[j].0 == c);
                    }
                    return Err(StartupError::MissingCountry);
                },
            };
            let k2 = match find_code(&d2, c) {
                Some(k) => k,
                None => {
                    proof {
                        let j = choose|j: int|
                            0 <= j < dec_codes(d2@).len() && dec_codes(d2@)[j] == c;
                        assert(d2@[j].0 == c);
                    }
                    return Err(StartupError::MissingCountry);
                },
            };
            let k3 = match find_code(&d3, c) {
                Some(k) => k,
                None => {
                    proof {
                        let j = choose|j: int|
                            0 <= j < dec_codes(d3@).len() && dec_codes(d3@)[j] == c;
                        assert(d3@[j].0 == c);
                    }
                    return Err(StartupError::MissingCountry);
                },
            };
            let k4 = match find_code(&d4, c) {
                Some(k) => k,
                None => {
                    proof {
                        let j = choose|j: int|
                            0 <= j < dec_codes(d4@).len() && dec_codes(d4@)[j] == c;
                        assert(d4@[j].0 == c);
                    }
                    return Err(StartupError::MissingCountry);
                },
            };
            let k5 = match find_code(&d5, c) {
                Some(k) => k,
                None => {
                    proof {
                        let j = choose|j: int|
                            0 <= j < dec_codes(d5@).len() && dec_codes(d5@)[j] == c;
                        assert(d5@[j].0 == c);
                    }
                    return Err(StartupError::MissingCountry);
                },
            };
            let g0 = d0[i].1.clone();
            let g1 = d1[k1].1.clone();
            let g2 = d2[k2].1.clone();
            let g3 = d3[k3].1.clone();
            let g4 = d4[k4].1.clone();
            let g5 = d5[k5].1.clone();
            let s0 = encode(&g0).len();
            let s1 = encode(&g1).len();
            let s2 = encode(&g2).len();
            let s3 = encode(&g3).len();
            let s4 = encode(&g4).len();
            let s5 = encode(&g5).len();
            let rec = SimplifiedBorders {
                none: (s0, g0),
                slight: (s1, g1),
                medium: (s2, g2),
                moderate: (s3, g3),
                aggressive: (s4, g4),
                max: (s5, g5),
            };
            proof {
                assert forall|l: Simplification| (#[trigger] rec.spec_level(l)).0 == enc_mp(
                    rec.spec_level(l).1@,
                ).len() by {}
                assert(entry_from(none_lv@, c, rec.none)) by {
                    assert(none_lv@[i as int].0 == c && sp_doc(none_lv@[i as int].1@) == Ok::<
                        _,
                        FormatError,
                    >(rec.none.1@));
                }
                assert(entry_from(slight_lv@, c, rec.slight)) by {
                    assert(slight_lv@[k1 as int].0 == c && sp_doc(slight_lv@[k1 as int].1@) == Ok::<
                        _,
                        FormatError,
                    >(rec.slight.1@));
                }
                assert(entry_from(medium_lv@, c, rec.medium)) by {
                    assert(medium_lv@[k2 as int].0 == c && sp_doc(medium_lv@[k2 as int].1@) == Ok::<
                        _,
                        FormatError,
                    >(rec.medium.1@));
                }
                assert(entry_from(moderate_lv@, c, rec.moderate)) by {
                    assert(moderate_lv@[k3 as int].0 == c && sp_doc(moderate_lv@[k3 as int].1@)
                        == Ok::<_, FormatError>(rec.moderate.1@));
                }
                assert(entry_from(aggressive_lv@, c, rec.aggressive)) by {
                    assert(aggressive_lv@[k4 as int].0 == c && sp_doc(aggressive_lv@[k4 as int].1@)
                        == Ok::<_, FormatError>(rec.aggressive.1@));
                }
                assert(entry_from(max_lv@, c, rec.max)) by {
                    assert(max_lv@[k5 as int].0 == c && sp_doc(max_lv@[k5 as int].1@) == Ok::<
                        _,
                        FormatError,
                    >(rec.max.1@));
                }
            }
            entries.push((c, rec));
            i += 1;
        }
        let st = Store { entries };
        proof {
            assert(st.codes() =~= raw_codes(none_lv@));
            assert(distinct_codes(st.codes()));
        }
        Ok(st)
    }

    /// One catalog row per country, in load order: code, display name, and
    /// the six sizes in ascending level order.
    pub fn catalog(&self) -> (r: Vec<(CountryCode, CountriesResponse)>)
        ensures
            r@.len() == self.entries@.len(),
            forall|i: int|
                0 <= i < r@.len() ==> (#[trigger] r@[i]).0 == self.entries@[i].0 && r@[i].1.name@
                    == self.entries@[i].0.spec_name() && r@[i].1.sizes == (
                self.entries@[i].1.none.0,
                self.entries@[i].1.slight.0,
                self.entries@[i].1.medium.0,
                self.entries@[i].1.moderate.0,
                self.entries@[i].1.aggressive.0,
                self.entries@[i].1.max.0,
            ),
    {
        let mut r: Vec<(CountryCode, CountriesResponse)> = Vec::new();
        let mut i: usize = 0;
        while i < self.entries.len()
            invariant
                i <= self.entries.len(),
                r@.len() == i,
                forall|j: int|
                    0 <= j < i ==> (#[trigger] r@[j]).0 == self.entries@[j].0 && r@[j].1.name@
                        == self.entries@[j].0.spec_name() && r@[j].1.sizes == (
                    self.entries@[j].1.none.0,
                    self.entries@[j].1.slight.0,
                    self.entries@[j].1.medium.0,
                    self.entries@[j].1.moderate.0,
                    self.entries@[j].1.aggressive.0,
                    self.entries@[j].1.max.0,
                ),
            decreases self.entries.len() - i,
        {
            let entry = &self.entries[i];
            let name = String::from_str(entry.0.country_name());
            let sizes = entry.1.sizes();
            r.push((entry.0, CountriesResponse { name, sizes }));
            i += 1;
        }
        r
    }

    /// The geometry of one country at one level, or `NotFound` exactly when
    /// the store holds no record for the country.
    pub fn lookup(&self, code: CountryCode, level: Simplification) -> (r: Result<
        &MultiPolygon,
        NotFound,
    >)
        ensures
            (match r {
                Ok(g) => exists|i: int|
                    0 <= i < self.entries@.len() && (#[trigger] self.entries@[i]).0 == code && g
                        == self.entries@[i].1.spec_level(level).1,
                Err(e) => forall|i: int|
                    0 <= i < self.entries@.len() ==> (#[trigger] self.entries@[i]).0 != code,
            }),
    {
        let mut i: usize = 0;
        while i < self.entries.len()
            invariant
                i <= self.entries.len(),
                forall|j: int| 0 <= j < i ==> (#[trigger] self.entries@[j]).0 != code,
            decreases self.entries.len() - i,
        {
            if self.entries[i].0 == code {
                let b = &self.entries[i].1;
                let g = match level {
                    Simplification::Unsimplified => &b.none.1,
                    Simplification::Slight => &b.slight.1,
                    Simplification::Medium => &b.medium.1,
                    Simplification::Moderate => &b.moderate.1,
                    Simplification::Aggressive => &b.aggressive.1,
                    Simplification::Max => &b.max.1,
                };
                return Ok(g);
            }
            i += 1;
        }
        Err(NotFound)
    }
}

} // verus!
