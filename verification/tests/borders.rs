use borders::codec::{FormatError, decode, encode};
use borders::compress::batch_partition;
use borders::countries::CountryCode;
use borders::query::{GetCountryQuery, mainland_filter};
use borders::search::EpsilonSearch;
use borders::shapes::{Coord, MultiPolygon, Polygon};
use borders::store::{Simplification, StartupError, Store};
use geo::{Area, Centroid, Contains, Simplify};

fn coord(x: f64, y: f64) -> Coord {
    Coord { x: serde_json::to_vec(&x).unwrap(), y: serde_json::to_vec(&y).unwrap() }
}

fn ring(pts: &[(f64, f64)]) -> Vec<Coord> {
    pts.iter().map(|&(x, y)| coord(x, y)).collect()
}

fn simple_poly(ext: &[(f64, f64)]) -> Polygon {
    Polygon { exterior: ring(ext), interiors: Vec::new() }
}

fn square(x0: f64, y0: f64, side: f64) -> Vec<(f64, f64)> {
    vec![(x0, y0), (x0, y0 + side), (x0 + side, y0 + side), (x0 + side, y0), (x0, y0)]
}

fn parse_num(v: &[u8]) -> f64 {
    serde_json::from_slice(v).unwrap()
}

fn to_geo(m: &MultiPolygon) -> geo::MultiPolygon<f64> {
    geo::MultiPolygon::new(
        m.polygons
            .iter()
            .map(|p| {
                geo::Polygon::new(
                    geo::LineString::from(
                        p.exterior
                            .iter()
                            .map(|c| (parse_num(&c.x), parse_num(&c.y)))
                            .collect::<Vec<_>>(),
                    ),
                    p.interiors
                        .iter()
                        .map(|r| {
                            geo::LineString::from(
                                r.iter()
                                    .map(|c| (parse_num(&c.x), parse_num(&c.y)))
                                    .collect::<Vec<_>>(),
                            )
                        })
                        .collect(),
                )
            })
            .collect(),
    )
}

fn from_geo(g: &geo::MultiPolygon<f64>) -> MultiPolygon {
    let conv_ring = |ls: &geo::LineString<f64>| -> Vec<Coord> {
        ls.0.iter().map(|c| coord(c.x, c.y)).collect()
    };
    MultiPolygon {
        polygons: g
            .0
            .iter()
            .map(|p| Polygon {
                exterior: conv_ring(p.exterior()),
                interiors: p.interiors().iter().map(conv_ring).collect(),
            })
            .collect(),
    }
}

fn assert_mp_eq(a: &MultiPolygon, b: &MultiPolygon) {
    assert_eq!(a.polygons.len(), b.polygons.len());
    for (pa, pb) in a.polygons.iter().zip(b.polygons.iter()) {
        assert_eq!(pa.exterior.len(), pb.exterior.len());
        for (ca, cb) in pa.exterior.iter().zip(pb.exterior.iter()) {
            assert_eq!(ca.x, cb.x);
            assert_eq!(ca.y, cb.y);
        }
        assert_eq!(pa.interiors.len(), pb.interiors.len());
        for (ra, rb) in pa.interiors.iter().zip(pb.interiors.iter()) {
            assert_eq!(ra.len(), rb.len());
            for (ca, cb) in ra.iter().zip(rb.iter()) {
                assert_eq!(ca.x, cb.x);
                assert_eq!(ca.y, cb.y);
            }
        }
    }
}

#[test]
fn round_trip_multi_polygon_with_hole() {
    let outer = square(0.0, 0.0, 10.0);
    let hole = square(2.5, 2.5, 1.25);
    let m = MultiPolygon {
        polygons: vec![
            Polygon { exterior: ring(&outer), interiors: vec![ring(&hole)] },
            simple_poly(&square(20.0, -3.5, 4.0)),
        ],
    };
    let bytes = encode(&m);
    let back = decode(&bytes).expect("round trip must decode");
    assert_mp_eq(&m, &back);
    assert_eq!(encode(&back), bytes);
}

#[test]
fn well_formedness_checker_accepts_numbers_only() {
    let good = MultiPolygon { polygons: vec![simple_poly(&square(0.0, 0.0, 1.0))] };
    assert!(good.is_well_formed());
    let bad = MultiPolygon {
        polygons: vec![Polygon {
            exterior: vec![Coord { x: b"01".to_vec(), y: b"2".to_vec() }],
            interiors: Vec::new(),
        }],
    };
    assert!(!bad.is_well_formed());
}

#[test]
fn round_trip_negative_and_exponent_texts() {
    let m = MultiPolygon {
        polygons: vec![simple_poly(&[(-3.7038, 40.4168), (1e10, -2.5e-3), (0.0, 0.0)])],
    };
    let back = decode(&encode(&m)).expect("decode");
    assert_mp_eq(&m, &back);
}

#[test]
fn encode_matches_reference_json() {
    let m = MultiPolygon { polygons: vec![simple_poly(&square(0.0, 0.0, 1.0))] };
    let reference: Vec<Vec<Vec<[f64; 2]>>> =
        vec![vec![square(0.0, 0.0, 1.0).iter().map(|&(x, y)| [x, y]).collect()]];
    let expected = serde_json::to_vec(&reference).unwrap();
    assert_eq!(encode(&m), expected);
}

#[test]
fn decode_empty_ring_list_is_missing_exterior() {
    let r = decode(&b"[[]]".to_vec());
    assert_eq!(r.unwrap_err(), FormatError::MissingExterior);
}

#[test]
fn decode_bad_coordinate_arity() {
    assert_eq!(decode(&b"[[[[1,2],[3]]]]".to_vec()).unwrap_err(), FormatError::MalformedCoordinate);
    assert_eq!(
        decode(&b"[[[[1,2,3]]]]".to_vec()).unwrap_err(),
        FormatError::MalformedCoordinate
    );
    assert_eq!(decode(&b"[[[[1,x]]]]".to_vec()).unwrap_err(), FormatError::MalformedCoordinate);
    assert_eq!(decode(&b"[[[[01,2]]]]".to_vec()).unwrap_err(), FormatError::MalformedCoordinate);
}

#[test]
fn decode_rejects_trailing_and_malformed_shape() {
    assert_eq!(decode(&b"".to_vec()).unwrap_err(), FormatError::Syntax);
    assert_eq!(decode(&b"[[[[1,2]]]]x".to_vec()).unwrap_err(), FormatError::Syntax);
    assert_eq!(decode(&b"{}".to_vec()).unwrap_err(), FormatError::Syntax);
    assert!(decode(&b"[]".to_vec()).unwrap().polygons.is_empty());
}

// A geometry whose encoding has an exactly known size: one polygon, one
// exterior ring of k single-digit coordinate pairs encodes to 6k + 5 bytes.
fn sized_geometry(k: usize) -> MultiPolygon {
    let pts: Vec<Coord> =
        (0..k).map(|_| Coord { x: b"1".to_vec(), y: b"2".to_vec() }).collect();
    MultiPolygon { polygons: vec![Polygon { exterior: pts, interiors: Vec::new() }] }
}

#[test]
fn search_stops_at_first_candidate_under_target_and_keeps_first_tie() {
    let mut search = EpsilonSearch::new(20);
    assert_eq!(search.next_candidate(), Some(0));
    search.offer(sized_geometry(3)); // 23 bytes, gap 3
    assert_eq!(search.next_candidate(), Some(1));
    search.offer(sized_geometry(2)); // 17 bytes, gap 3: tie, first kept; under target: stop
    assert_eq!(search.next_candidate(), None);
    let best = search.finish();
    assert_eq!(best.eps_millis, 0);
    assert_eq!(best.size, 23);
    assert_eq!(encode(&best.geometry).len(), 23);
}

#[test]
fn search_tracks_strictly_closer_candidates() {
    let mut search = EpsilonSearch::new(20);
    search.offer(sized_geometry(10)); // 65, gap 45
    search.offer(sized_geometry(6)); // 41, gap 21
    search.offer(sized_geometry(4)); // 29, gap 9
    search.offer(sized_geometry(2)); // 17, gap 3, under: stop
    let best = search.finish();
    assert_eq!(best.eps_millis, 3);
    assert_eq!(best.size, 17);
}

#[test]
fn end_to_end_full_scan_when_nothing_fits() {
    // A small square whose unsimplified encoding is far over 1000 bytes:
    // many collinear high-precision vertices on its edges.
    let base = 1000.0000001;
    let step = 0.0166666666666661;
    let mut pts: Vec<(f64, f64)> = Vec::new();
    for i in 0..60 {
        pts.push((base + i as f64 * step, base + i as f64 * 1.0e-10));
    }
    pts.push((base + 1.0, base));
    pts.push((base + 1.0, base + 1.0));
    pts.push((base, base + 1.0));
    pts.push((base, base));
    let m = MultiPolygon { polygons: vec![simple_poly(&pts)] };
    assert!(encode(&m).len() > 1000);

    let g = to_geo(&m);
    let desired = 40;
    let mut search = EpsilonSearch::new(desired);
    let mut rounds = 0usize;
    while let Some(eps) = search.next_candidate() {
        let simplified = g.simplify(eps as f64 / 1000.0);
        search.offer(from_geo(&simplified));
        rounds += 1;
    }
    assert_eq!(rounds, 1001, "no candidate fits, so the whole range is scanned");
    let best = search.finish();
    assert!(best.size > desired, "degraded answer is still over the target");
    // The selected candidate is the closest the scan ever saw.
    let mut min_gap = usize::MAX;
    for eps in 0..=1000u64 {
        let simplified = g.simplify(eps as f64 / 1000.0);
        let size = encode(&from_geo(&simplified)).len();
        let gap = if size >= desired { size - desired } else { desired - size };
        if gap < min_gap {
            min_gap = gap;
        }
    }
    assert_eq!(best.size - desired, min_gap);
}

fn flags_and_keys(m: &MultiPolygon, point: (f64, f64)) -> (Vec<bool>, Vec<u64>) {
    let g = to_geo(m);
    let p = geo::Point::new(point.0, point.1);
    let flags = g.0.iter().map(|poly| poly.contains(&p)).collect();
    let keys = g.0.iter().map(|poly| poly.unsigned_area().to_bits()).collect();
    (flags, keys)
}

#[test]
fn mainland_keeps_the_containing_polygon() {
    let m = MultiPolygon {
        polygons: vec![simple_poly(&square(0.0, 0.0, 10.0)), simple_poly(&square(100.0, 0.0, 30.0))],
    };
    let (flags, keys) = flags_and_keys(&m, (5.0, 5.0));
    assert_eq!(flags, vec![true, false]);
    let r = mainland_filter(&m, &flags, &keys);
    assert_eq!(r.polygons.len(), 1);
    assert_eq!(encode(&r), encode(&MultiPolygon { polygons: vec![m.polygons[0].clone()] }));
}

#[test]
fn mainland_falls_back_to_largest_area() {
    let m = MultiPolygon {
        polygons: vec![simple_poly(&square(0.0, 0.0, 10.0)), simple_poly(&square(100.0, 0.0, 30.0))],
    };
    let (flags, keys) = flags_and_keys(&m, (-50.0, -50.0));
    assert_eq!(flags, vec![false, false]);
    let r = mainland_filter(&m, &flags, &keys);
    assert_eq!(r.polygons.len(), 1);
    assert_eq!(encode(&r), encode(&MultiPolygon { polygons: vec![m.polygons[1].clone()] }));
}

#[test]
fn centroid_of_symmetric_square() {
    let g = to_geo(&MultiPolygon { polygons: vec![simple_poly(&[
        (0.0, 0.0),
        (0.0, 10.0),
        (10.0, 10.0),
        (10.0, 0.0),
        (0.0, 0.0),
    ])] });
    let c = g.centroid().expect("non-empty geometry has a centroid");
    assert!((c.x() - 5.0).abs() < 1.0e-9);
    assert!((c.y() - 5.0).abs() < 1.0e-9);
}

fn artifact(codes: &[CountryCode], size_hint: usize) -> Vec<(CountryCode, Vec<u8>)> {
    codes
        .iter()
        .map(|&c| (c, encode(&sized_geometry(size_hint))))
        .collect()
}

#[test]
fn store_loads_consistent_artifacts_and_catalogs_them() {
    let codes = [CountryCode::Fra, CountryCode::Deu, CountryCode::Ata];
    let st = Store::load(
        artifact(&codes, 4),
        artifact(&codes, 4),
        artifact(&codes, 3),
        artifact(&codes, 3),
        artifact(&codes, 2),
        artifact(&codes, 2),
    )
    .expect("consistent artifacts load");
    let rows = st.catalog();
    assert_eq!(rows.len(), 3);
    assert_eq!(rows[0].0, CountryCode::Fra);
    assert_eq!(rows[0].1.name, "France");
    let sizes = rows[0].1.sizes;
    assert_eq!(sizes.0, 29); // 6k + 5 with k = 4, recomputed at load time
    assert_eq!(sizes.5, 17);
    let g = st.lookup(CountryCode::Deu, Simplification::Max).expect("present");
    assert_eq!(encode(g).len(), 17);
}

#[test]
fn store_rejects_missing_country() {
    let all = [CountryCode::Fra, CountryCode::Deu];
    let partial = [CountryCode::Fra];
    let r = Store::load(
        artifact(&all, 4),
        artifact(&all, 4),
        artifact(&partial, 4),
        artifact(&all, 4),
        artifact(&all, 4),
        artifact(&all, 4),
    );
    assert_eq!(r.err().unwrap(), StartupError::MissingCountry);
}

#[test]
fn store_rejects_malformed_artifact() {
    let ok = [CountryCode::Fra];
    let mut bad = artifact(&ok, 4);
    bad[0].1 = b"[[]]".to_vec();
    let r = Store::load(
        artifact(&ok, 4),
        artifact(&ok, 4),
        artifact(&ok, 4),
        artifact(&ok, 4),
        artifact(&ok, 4),
        bad,
    );
    assert_eq!(r.err().unwrap(), StartupError::Malformed(FormatError::MissingExterior));
}

#[test]
fn store_rejects_duplicate_country() {
    let dup = [CountryCode::Fra, CountryCode::Fra];
    let ok = [CountryCode::Fra, CountryCode::Deu];
    let r = Store::load(
        artifact(&dup, 4),
        artifact(&ok, 4),
        artifact(&ok, 4),
        artifact(&ok, 4),
        artifact(&ok, 4),
        artifact(&ok, 4),
    );
    assert_eq!(r.err().unwrap(), StartupError::Duplicate);
}

#[test]
fn lookup_unknown_country_is_not_found() {
    let codes = [CountryCode::Fra];
    let st = Store::load(
        artifact(&codes, 2),
        artifact(&codes, 2),
        artifact(&codes, 2),
        artifact(&codes, 2),
        artifact(&codes, 2),
        artifact(&codes, 2),
    )
    .unwrap();
    assert!(st.lookup(CountryCode::Jpn, Simplification::Slight).is_err());
}

#[test]
fn store_serves_back_exactly_what_the_artifacts_held() {
    let outer = square(0.0, 0.0, 10.0);
    let hole = square(2.5, 2.5, 1.25);
    let m = MultiPolygon {
        polygons: vec![Polygon { exterior: ring(&outer), interiors: vec![ring(&hole)] }],
    };
    let bytes = encode(&m);
    let level = vec![(CountryCode::Jpn, bytes.clone())];
    let st = Store::load(
        level.clone(),
        level.clone(),
        level.clone(),
        level.clone(),
        level.clone(),
        level,
    )
    .expect("consistent artifacts load");
    let served = st.lookup(CountryCode::Jpn, Simplification::Moderate).expect("present");
    assert_eq!(encode(served), bytes);
    assert_mp_eq(served, &m);
}

#[test]
fn batch_partition_covers_in_batches_of_32() {
    assert!(batch_partition(0).is_empty());
    assert_eq!(batch_partition(1), vec![(0, 1)]);
    assert_eq!(batch_partition(32), vec![(0, 32)]);
    assert_eq!(batch_partition(33), vec![(0, 32), (32, 33)]);
    assert_eq!(batch_partition(100), vec![(0, 32), (32, 64), (64, 96), (96, 100)]);
}

#[test]
fn country_codes_round_trip_and_carry_capitals() {
    for c in CountryCode::all() {
        let bytes = c.alpha3_bytes();
        assert_eq!(bytes.len(), 3);
        assert_eq!(CountryCode::from_alpha3(&bytes), Some(c));
    }
    assert_eq!(CountryCode::from_alpha3(&b"ZZZ".to_vec()), None);
    assert_eq!(CountryCode::from_alpha3(&b"FR".to_vec()), None);
    assert!(CountryCode::Fra.capital_coords().is_some());
    assert!(CountryCode::Ata.capital_coords().is_none());
    assert_eq!(CountryCode::Fra.country_name(), "France");
    let cap = CountryCode::Fra.capital_coords().unwrap();
    assert!((parse_num(&cap.x) - 2.3522).abs() < 1.0e-9);
    assert!((parse_num(&cap.y) - 48.8566).abs() < 1.0e-9);
}

#[test]
fn query_resolution_applies_defaults() {
    let q = GetCountryQuery { compression: None, only_mainland: None };
    assert_eq!(q.resolve(true), (Simplification::Unsimplified, false));
    let q = GetCountryQuery { compression: Some(Simplification::Max), only_mainland: Some(true) };
    assert_eq!(q.resolve(true), (Simplification::Max, true));
    assert_eq!(q.resolve(false), (Simplification::Max, false));
}

#[test]
fn simplification_levels_and_names() {
    let all = Simplification::all();
    assert_eq!(all.len(), 6);
    let names: Vec<&str> = all.iter().map(|l| l.name()).collect();
    assert_eq!(names, vec!["none", "slight", "medium", "moderate", "aggressive", "max"]);
}
