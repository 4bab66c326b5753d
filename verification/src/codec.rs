use vstd::prelude::*;
use crate::shapes::{
    Coord, CoordV, MultiPolygon, PolyV, Polygon, RingV, ring_view, wf_coord, wf_mp, wf_poly,
    wf_ring,
};

verus! {

// The compact wire form of a geometry: a MultiPolygon is a bracketed,
// comma-separated list of Polygons; a Polygon is such a list of rings whose
// first entry is the exterior; a ring is such a list of coordinate pairs; a
// pair is `[x,y]` with each component a bare JSON number. No field names, no
// whitespace, no metadata: nothing but the nesting and the digits.

/// Wire form of one coordinate pair: `[x,y]`.
pub open spec fn enc_coord(c: CoordV) -> Seq<u8> {
    seq![91u8] + c.x + seq![44u8] + c.y + seq![93u8]
}

/// Comma-separated wire form of the coordinates of a ring, from index `from` on.
pub open spec fn enc_coords(cs: Seq<CoordV>, from: int) -> Seq<u8>
    decreases cs.len() - from,
{
    if from < 0 || from >= cs.len() {
        Seq::empty()
    } else if from == cs.len() - 1 {
        enc_coord(cs[from])
    } else {
        enc_coord(cs[from]) + seq![44u8] + enc_coords(cs, from + 1)
    }
}

/// Wire form of one ring.
pub open spec fn enc_ring(r: RingV) -> Seq<u8> {
    seq![91u8] + enc_coords(r, 0) + seq![93u8]
}

/// The rings of a polygon in wire order: exterior first, then the holes.
pub open spec fn poly_rings(p: PolyV) -> Seq<RingV> {
    seq![p.exterior] + p.interiors
}

/// Comma-separated wire form of a list of rings, from index `from` on.
pub open spec fn enc_rings(rs: Seq<RingV>, from: int) -> Seq<u8>
    decreases rs.len() - from,
{
    if from < 0 || from >= rs.len() {
        Seq::empty()
    } else if from == rs.len() - 1 {
        enc_ring(rs[from])
    } else {
        enc_ring(rs[from]) + seq![44u8] + enc_rings(rs, from + 1)
    }
}

/// Wire form of one polygon.
pub open spec fn enc_poly(p: PolyV) -> Seq<u8> {
    seq![91u8] + enc_rings(poly_rings(p), 0) + seq![93u8]
}

/// Comma-separated wire form of a list of polygons, from index `from` on.
pub open spec fn enc_polys(ps: Seq<PolyV>, from: int) -> Seq<u8>
    decreases ps.len() - from,
{
    if from < 0 || from >= ps.len() {
        Seq::empty()
    } else if from == ps.len() - 1 {
        enc_poly(ps[from])
    } else {
        enc_poly(ps[from]) + seq![44u8] + enc_polys(ps, from + 1)
    }
}

/// Wire form of a whole geometry.
pub open spec fn enc_mp(m: Seq<PolyV>) -> Seq<u8> {
    seq![91u8] + enc_polys(m, 0) + seq![93u8]
}

fn push_bytes(out: &mut Vec<u8>, src: &Vec<u8>)
    ensures
        final(out)@ == old(out)@ + src@,
{
    let mut i: usize = 0;
    while i < src.len()
        invariant
            i <= src.len(),
            out@ == old(out)@ + src@.subrange(0, i as int),
        decreases src.len() - i,
    {
        out.push(src[i]);
        proof {
            assert(src@.subrange(0, i + 1) =~= src@.subrange(0, i as int).push(src@[i as int]));
            assert(old(out)@ + src@.subrange(0, i as int).push(src@[i as int]) =~= (old(out)@
                + src@.subrange(0, i as int)).push(src@[i as int]));
        }
        i += 1;
    }
    proof {
        assert(src@.subrange(0, src@.len() as int) =~= src@);
    }
}

fn encode_coord_into(out: &mut Vec<u8>, c: &Coord)
    ensures
        final(out)@ == old(out)@ + enc_coord(c@),
{
    out.push(91);
    push_bytes(out, &c.x);
    out.push(44);
    push_bytes(out, &c.y);
    out.push(93);
    proof {
        assert(out@ =~= old(out)@ + enc_coord(c@));
    }
}

fn encode_ring_into(out: &mut Vec<u8>, r: &Vec<Coord>)
    ensures
        final(out)@ == old(out)@ + enc_ring(ring_view(r@)),
{
    let ghost rv = ring_view(r@);
    out.push(91);
    let mut i: usize = 0;
    while i < r.len()
        invariant
            i <= r.len(),
            rv == ring_view(r@),
            rv.len() == r@.len(),
            out@ + enc_coords(rv, i as int) =~= old(out)@ + seq![91u8] + enc_coords(rv, 0),
        decreases r.len() - i,
    {
        encode_coord_into(out, &r[i]);
        proof {
            assert(r@[i as int]@ == rv[i as int]);
        }
        if i + 1 < r.len() {
            out.push(44);
            proof {
                assert(enc_coords(rv, i as int) == enc_coord(rv[i as int]) + seq![44u8]
                    + enc_coords(rv, i + 1));
            }
        } else {
            proof {
                assert(enc_coords(rv, i as int) == enc_coord(rv[i as int]));
                assert(enc_coords(rv, i + 1) =~= Seq::<u8>::empty());
            }
        }
        i += 1;
    }
    proof {
        assert(enc_coords(rv, r@.len() as int) =~= Seq::<u8>::empty());
        assert(out@ =~= old(out)@ + seq![91u8] + enc_coords(rv, 0));
    }
    out.push(93);
    proof {
        assert(out@ =~= old(out)@ + enc_ring(rv));
    }
}

fn encode_poly_into(out: &mut Vec<u8>, p: &Polygon)
    ensures
        final(out)@ == old(out)@ + enc_poly(p@),
{
    let ghost rs = poly_rings(p@);
    out.push(91);
    encode_ring_into(out, &p.exterior);
    proof {
        assert(rs[0] == ring_view(p.exterior@));
        assert(rs.len() == 1 + p.interiors@.len());
    }
    if p.interiors.len() > 0 {
        out.push(44);
    }
    proof {
        if p.interiors@.len() == 0 {
            assert(enc_rings(rs, 0) == enc_ring(rs[0]));
        } else {
            assert(enc_rings(rs, 0) == enc_ring(rs[0]) + seq![44u8] + enc_rings(rs, 1));
        }
        assert(out@ + enc_rings(rs, 1) =~= old(out)@ + seq![91u8] + enc_rings(rs, 0));
    }
    let mut i: usize = 0;
    while i < p.interiors.len()
        invariant
            i <= p.interiors.len(),
            rs == poly_rings(p@),
            rs.len() == 1 + p.interiors@.len(),
            out@ + enc_rings(rs, i + 1) =~= old(out)@ + seq![91u8] + enc_rings(rs, 0),
        decreases p.interiors.len() - i,
    {
        encode_ring_into(out, &p.interiors[i]);
        proof {
            assert(rs[i + 1] == ring_view(p.interiors@[i as int]@));
        }
        if i + 1 < p.interiors.len() {
            out.push(44);
            proof {
                assert(enc_rings(rs, i + 1) == enc_ring(rs[i + 1]) + seq![44u8] + enc_rings(
                    rs,
                    i + 2,
                ));
            }
        } else {
            proof {
                assert(enc_rings(rs, i + 1) == enc_ring(rs[i + 1]));
                assert(enc_rings(rs, i + 2) =~= Seq::<u8>::empty());
            }
        }
        i += 1;
    }
    proof {
        assert(enc_rings(rs, rs.len() as int) =~= Seq::<u8>::empty());
        assert(out@ =~= old(out)@ + seq![91u8] + enc_rings(rs, 0));
    }
    out.push(93);
    proof {
        assert(out@ =~= old(out)@ + enc_poly(p@));
    }
}

/// Encode a geometry into its compact wire form.
pub fn encode(mp: &MultiPolygon) -> (r: Vec<u8>)
    ensures
        r@ == enc_mp(mp@),
{
    let ghost ps = mp@;
    let mut out: Vec<u8> = Vec::new();
    out.push(91);
    let mut i: usize = 0;
    while i < mp.polygons.len()
        invariant
            i <= mp.polygons.len(),
            ps == mp@,
            ps.len() == mp.polygons@.len(),
            out@ + enc_polys(ps, i as int) =~= seq![91u8] + enc_polys(ps, 0),
        decreases mp.polygons.len() - i,
    {
        encode_poly_into(&mut out, &mp.polygons[i]);
        proof {
            assert(ps[i as int] == mp.polygons@[i as int]@);
        }
        if i + 1 < mp.polygons.len() {
            out.push(44);
            proof {
                assert(enc_polys(ps, i as int) == enc_poly(ps[i as int]) + seq![44u8] + enc_polys(
                    ps,
                    i + 1,
                ));
            }
        } else {
            proof {
                assert(enc_polys(ps, i as int) == enc_poly(ps[i as int]));
                assert(enc_polys(ps, i + 1) =~= Seq::<u8>::empty());
            }
        }
        i += 1;
    }
    proof {
        assert(enc_polys(ps, ps.len() as int) =~= Seq::<u8>::empty());
        assert(out@ =~= seq![91u8] + enc_polys(ps, 0));
    }
    out.push(93);
    proof {
        assert(out@ =~= enc_mp(ps));
    }
    out
}

// ---------------------------------------------------------------------------
// Decoding. A specification-level parser fixes the meaning of every byte
// sequence; the executable parser below is proved to return exactly what the
// specification parser says.

/// Why a byte sequence is not a valid compact geometry.
#[derive(PartialEq, Eq, Structural, Clone, Copy, Debug)]
pub enum FormatError {
    /// A polygon entry had an empty ring list, so no exterior ring.
    MissingExterior,
    /// A coordinate entry was not exactly two JSON numbers.
    MalformedCoordinate,
    /// The bytes do not follow the nested-list shape.
    Syntax,
}

/// A byte with structural meaning on the wire.
pub open spec fn is_delim(b: u8) -> bool {
    b == 44 || b == 91 || b == 93
}

/// Index of the first structural byte at or after `i`.
pub open spec fn scan_token(s: Seq<u8>, i: int) -> int
    decreases s.len() - i when 0 <= i <= s.len()
{
    if i < s.len() && !is_delim(s[i]) {
        scan_token(s, i + 1)
    } else {
        i
    }
}

pub proof fn lemma_scan_token_bounds(s: Seq<u8>, i: int)
    requires
        0 <= i <= s.len(),
    ensures
        i <= scan_token(s, i) <= s.len(),
    decreases s.len() - i,
{
    if i < s.len() && !is_delim(s[i]) {
        lemma_scan_token_bounds(s, i + 1);
    }
}

/// One number token: the bytes up to the next structural byte, which must
/// form a JSON number.
pub open spec fn sp_num(s: Seq<u8>, i: int) -> Result<(Seq<u8>, int), FormatError> {
    let j = scan_token(s, i);
    let t = s.subrange(i, j);
    if crate::numbers::is_number(t) {
        Ok((t, j))
    } else {
        Err(FormatError::MalformedCoordinate)
    }
}

/// One coordinate pair `[x,y]`.
pub open spec fn sp_coord(s: Seq<u8>, i: int) -> Result<(CoordV, int), FormatError> {
    if i < s.len() && s[i] == 91 {
        match sp_num(s, i + 1) {
            Err(e) => Err(e),
            Ok((x, j)) => if j < s.len() && s[j] == 44 {
                match sp_num(s, j + 1) {
                    Err(e) => Err(e),
                    Ok((y, k)) => if k < s.len() && s[k] == 93 {
                        Ok((CoordV { x, y }, k + 1))
                    } else {
                        Err(FormatError::MalformedCoordinate)
                    },
                }
            } else {
                Err(FormatError::MalformedCoordinate)
            },
        }
    } else {
        Err(FormatError::MalformedCoordinate)
    }
}

/// One or more coordinate pairs, comma-separated, up to and including the
/// closing `]` of the ring.
pub open spec fn sp_coords(s: Seq<u8>, i: int) -> Result<(Seq<CoordV>, int), FormatError>
    decreases s.len() - i when 0 <= i <= s.len()
{
    match sp_coord(s, i) {
        Err(e) => Err(e),
        Ok((c, j)) => if j < s.len() && s[j] == 44 && i < j + 1 {
            match sp_coords(s, j + 1) {
                Err(e) => Err(e),
                Ok((cs, k)) => Ok((seq![c] + cs, k)),
            }
        } else if j < s.len() && s[j] == 93 {
            Ok((seq![c], j + 1))
        } else {
            Err(FormatError::Syntax)
        },
    }
}

/// One ring: `[]` or a bracketed list of coordinate pairs.
pub open spec fn sp_ring(s: Seq<u8>, i: int) -> Result<(RingV, int), FormatError> {
    if i < s.len() && s[i] == 91 {
        if i + 1 < s.len() && s[i + 1] == 93 {
            Ok((Seq::empty(), i + 2))
        } else {
            sp_coords(s, i + 1)
        }
    } else {
        Err(FormatError::Syntax)
    }
}

/// One or more rings, comma-separated, up to and including the closing `]`
/// of the polygon.
pub open spec fn sp_rings(s: Seq<u8>, i: int) -> Result<(Seq<RingV>, int), FormatError>
    decreases s.len() - i when 0 <= i <= s.len()
{
    match sp_ring(s, i) {
        Err(e) => Err(e),
        Ok((r, j)) => if j < s.len() && s[j] == 44 && i < j + 1 {
            match sp_rings(s, j + 1) {
                Err(e) => Err(e),
                Ok((rs, k)) => Ok((seq![r] + rs, k)),
            }
        } else if j < s.len() && s[j] == 93 {
            Ok((seq![r], j + 1))
        } else {
            Err(FormatError::Syntax)
        },
    }
}

/// One polygon: a bracketed, non-empty list of rings. An empty list is the
/// degenerate form the codec refuses: a polygon without an exterior.
pub open spec fn sp_poly(s: Seq<u8>, i: int) -> Result<(PolyV, int), FormatError> {
    if i < s.len() && s[i] == 91 {
        if i + 1 < s.len() && s[i + 1] == 93 {
            Err(FormatError::MissingExterior)
        } else {
            match sp_rings(s, i + 1) {
                Err(e) => Err(e),
                Ok((rs, j)) => Ok((PolyV { exterior: rs[0], interiors: rs.drop_first() }, j)),
            }
        }
    } else {
        Err(FormatError::Syntax)
    }
}

/// One or more polygons, comma-separated, up to and including the closing
/// `]` of the geometry.
pub open spec fn sp_polys(s: Seq<u8>, i: int) -> Result<(Seq<PolyV>, int), FormatError>
    decreases s.len() - i when 0 <= i <= s.len()
{
    match sp_poly(s, i) {
        Err(e) => Err(e),
        Ok((p, j)) => if j < s.len() && s[j] == 44 && i < j + 1 {
            match sp_polys(s, j + 1) {
                Err(e) => Err(e),
                Ok((ps, k)) => Ok((seq![p] + ps, k)),
            }
        } else if j < s.len() && s[j] == 93 {
            Ok((seq![p], j + 1))
        } else {
            Err(FormatError::Syntax)
        },
    }
}

/// A whole geometry: `[]` or a bracketed list of polygons.
pub open spec fn sp_mp(s: Seq<u8>, i: int) -> Result<(Seq<PolyV>, int), FormatError> {
    if i < s.len() && s[i] == 91 {
        if i + 1 < s.len() && s[i + 1] == 93 {
            Ok((Seq::empty(), i + 2))
        } else {
            sp_polys(s, i + 1)
        }
    } else {
        Err(FormatError::Syntax)
    }
}

/// Meaning of a complete byte sequence: one geometry and nothing after it.
pub open spec fn sp_doc(s: Seq<u8>) -> Result<Seq<PolyV>, FormatError> {
    match sp_mp(s, 0) {
        Err(e) => Err(e),
        Ok((m, j)) => if j == s.len() {
            Ok(m)
        } else {
            Err(FormatError::Syntax)
        },
    }
}

/// Prepend already-parsed items to the outcome of parsing the rest of a list.
pub open spec fn prepend_items<T>(
    pre: Seq<T>,
    r: Result<(Seq<T>, int), FormatError>,
) -> Result<(Seq<T>, int), FormatError> {
    match r {
        Err(e) => Err(e),
        Ok((items, k)) => Ok((pre + items, k)),
    }
}

fn p_num(s: &Vec<u8>, i: usize) -> (r: Result<(Vec<u8>, usize), FormatError>)
    requires
        i <= s.len(),
    ensures
        (match r {
            Ok((t, j)) => sp_num(s@, i as int) == Ok::<_, FormatError>((t@, j as int)) && i < j
                <= s.len(),
            Err(e) => sp_num(s@, i as int) == Err::<(Seq<u8>, int), _>(e),
        }),
{
    let mut j = i;
    while j < s.len() && s[j] != 44 && s[j] != 91 && s[j] != 93
        invariant
            i <= j <= s.len(),
            scan_token(s@, i as int) == scan_token(s@, j as int),
        decreases s.len() - j,
    {
        j += 1;
    }
    assert(j as int == scan_token(s@, i as int));
    let mut t: Vec<u8> = Vec::new();
    let mut k = i;
    while k < j
        invariant
            i <= k <= j <= s.len(),
            t@ == s@.subrange(i as int, k as int),
        decreases j - k,
    {
        t.push(s[k]);
        proof {
            assert(s@.subrange(i as int, k + 1) =~= s@.subrange(i as int, k as int).push(
                s@[k as int],
            ));
        }
        k += 1;
    }
    if crate::numbers::check_number(&t) {
        proof {
            crate::numbers::lemma_number_nonempty(t@);
        }
        Ok((t, j))
    } else {
        Err(FormatError::MalformedCoordinate)
    }
}

fn p_coord(s: &Vec<u8>, i: usize) -> (r: Result<(Coord, usize), FormatError>)
    requires
        i <= s.len(),
    ensures
        (match r {
            Ok((c, j)) => sp_coord(s@, i as int) == Ok::<_, FormatError>((c@, j as int)) && i < j
                <= s.len(),
            Err(e) => sp_coord(s@, i as int) == Err::<(CoordV, int), _>(e),
        }),
{
    if i < s.len() && s[i] == 91 {
        match p_num(s, i + 1) {
            Err(e) => Err(e),
            Ok((x, j)) => {
                if j < s.len() && s[j] == 44 {
                    match p_num(s, j + 1) {
                        Err(e) => Err(e),
                        Ok((y, k)) => {
                            if k < s.len() && s[k] == 93 {
                                Ok((Coord { x, y }, k + 1))
                            } else {
                                Err(FormatError::MalformedCoordinate)
                            }
                        },
                    }
                } else {
                    Err(FormatError::MalformedCoordinate)
                }
            },
        }
    } else {
        Err(FormatError::MalformedCoordinate)
    }
}

fn p_coords(s: &Vec<u8>, i: usize) -> (r: Result<(Vec<Coord>, usize), FormatError>)
    requires
        i <= s.len(),
    ensures
        (match r {
            Ok((cs, j)) => sp_coords(s@, i as int) == Ok::<_, FormatError>(
                (ring_view(cs@), j as int),
            ) && i < j <= s.len(),
            Err(e) => sp_coords(s@, i as int) == Err::<(Seq<CoordV>, int), _>(e),
        }),
{
    let mut acc: Vec<Coord> = Vec::new();
    let mut cur = i;
    proof {
        assert(ring_view(acc@) =~= Seq::<CoordV>::empty());
        let r0 = sp_coords(s@, i as int);
        if r0 is Ok {
            assert(Seq::<CoordV>::empty() + r0->Ok_0.0 =~= r0->Ok_0.0);
        }
    }
    loop
        invariant
            i <= cur <= s.len(),
            sp_coords(s@, i as int) == prepend_items(ring_view(acc@), sp_coords(s@, cur as int)),
        decreases s.len() - cur,
    {
        match p_coord(s, cur) {
            Err(e) => {
                return Err(e);
            },
            Ok((c, j)) => {
                if j < s.len() && s[j] == 44 {
                    let ghost cv = c@;
                    let ghost acc0 = acc@;
                    acc.push(c);
                    proof {
                        assert(ring_view(acc@) =~= ring_view(acc0) + seq![cv]);
                        let rn = sp_coords(s@, j + 1);
                        if rn is Ok {
                            assert((ring_view(acc0) + seq![cv]) + rn->Ok_0.0 =~= ring_view(acc0) + (
                            seq![cv] + rn->Ok_0.0));
                        }
                    }
                    cur = j + 1;
                } else if j < s.len() && s[j] == 93 {
                    let ghost cv = c@;
                    let ghost acc0 = acc@;
                    acc.push(c);
                    proof {
                        assert(ring_view(acc@) =~= ring_view(acc0) + seq![cv]);
                    }
                    return Ok((acc, j + 1));
                } else {
                    return Err(FormatError::Syntax);
                }
            },
        }
    }
}

/// Mathematical value of a parsed list of rings.
pub open spec fn rings_view(v: Seq<Vec<Coord>>) -> Seq<RingV> {
    v.map_values(|r: Vec<Coord>| ring_view(r@))
}

fn p_ring(s: &Vec<u8>, i: usize) -> (r: Result<(Vec<Coord>, usize), FormatError>)
    requires
        i <= s.len(),
    ensures
        (match r {
            Ok((cs, j)) => sp_ring(s@, i as int) == Ok::<_, FormatError>(
                (ring_view(cs@), j as int),
            ) && i < j <= s.len(),
            Err(e) => sp_ring(s@, i as int) == Err::<(RingV, int), _>(e),
        }),
{
    if i < s.len() && s[i] == 91 {
        if i + 1 < s.len() && s[i + 1] == 93 {
            let empty: Vec<Coord> = Vec::new();
            proof {
                assert(ring_view(empty@) =~= Seq::<CoordV>::empty());
            }
            Ok((empty, i + 2))
        } else {
            p_coords(s, i + 1)
        }
    } else {
        Err(FormatError::Syntax)
    }
}

fn p_rings(s: &Vec<u8>, i: usize) -> (r: Result<(Vec<Vec<Coord>>, usize), FormatError>)
    requires
        i <= s.len(),
    ensures
        (match r {
            Ok((rs, j)) => sp_rings(s@, i as int) == Ok::<_, FormatError>(
                (rings_view(rs@), j as int),
            ) && i < j <= s.len() && rs@.len() >= 1,
            Err(e) => sp_rings(s@, i as int) == Err::<(Seq<RingV>, int), _>(e),
        }),
{
    let mut acc: Vec<Vec<Coord>> = Vec::new();
    let mut cur = i;
    proof {
        assert(rings_view(acc@) =~= Seq::<RingV>::empty());
        let r0 = sp_rings(s@, i as int);
        if r0 is Ok {
            assert(Seq::<RingV>::empty() + r0->Ok_0.0 =~= r0->Ok_0.0);
        }
    }
    loop
        invariant
            i <= cur <= s.len(),
            cur > i ==> acc@.len() >= 1,
            cur == i ==> acc@.len() == 0,
            sp_rings(s@, i as int) == prepend_items(rings_view(acc@), sp_rings(s@, cur as int)),
        decreases s.len() - cur,
    {
        match p_ring(s, cur) {
            Err(e) => {
                return Err(e);
            },
            Ok((ring, j)) => {
                let ghost rv = ring_view(ring@);
                let ghost acc0 = acc@;
                if j < s.len() && s[j] == 44 {
                    acc.push(ring);
                    proof {
                        assert(rings_view(acc@) =~= rings_view(acc0) + seq![rv]);
                        let rn = sp_rings(s@, j + 1);
                        if rn is Ok {
                            assert((rings_view(acc0) + seq![rv]) + rn->Ok_0.0 =~= rings_view(acc0)
                                + (seq![rv] + rn->Ok_0.0));
                        }
                    }
                    cur = j + 1;
                } else if j < s.len() && s[j] == 93 {
                    acc.push(ring);
                    proof {
                        assert(rings_view(acc@) =~= rings_view(acc0) + seq![rv]);
                    }
                    return Ok((acc, j + 1));
                } else {
                    return Err(FormatError::Syntax);
                }
            },
        }
    }
}

fn p_poly(s: &Vec<u8>, i: usize) -> (r: Result<(Polygon, usize), FormatError>)
    requires
        i <= s.len(),
    ensures
        (match r {
            Ok((p, j)) => sp_poly(s@, i as int) == Ok::<_, FormatError>((p@, j as int)) && i < j
                <= s.len(),
            Err(e) => sp_poly(s@, i as int) == Err::<(PolyV, int), _>(e),
        }),
{
    if i < s.len() && s[i] == 91 {
        if i + 1 < s.len() && s[i + 1] == 93 {
            Err(FormatError::MissingExterior)
        } else {
            match p_rings(s, i + 1) {
                Err(e) => Err(e),
                Ok((mut rings, j)) => {
                    let ghost rsv = rings_view(rings@);
                    let exterior = rings.remove(0);
                    let p = Polygon { exterior, interiors: rings };
                    proof {
                        assert(ring_view(p.exterior@) == rsv[0]);
                        assert(p.interiors@ =~= rings@);
                        assert(p@.interiors =~= rsv.drop_first());
                        assert(p@ =~~= PolyV { exterior: rsv[0], interiors: rsv.drop_first() });
                    }
                    Ok((p, j))
                },
            }
        }
    } else {
        Err(FormatError::Syntax)
    }
}

fn p_polys(s: &Vec<u8>, i: usize) -> (r: Result<(Vec<Polygon>, usize), FormatError>)
    requires
        i <= s.len(),
    ensures
        (match r {
            Ok((ps, j)) => sp_polys(s@, i as int) == Ok::<_, FormatError>(
                (ps@.map_values(|p: Polygon| p@), j as int),
            ) && i < j <= s.len(),
            Err(e) => sp_polys(s@, i as int) == Err::<(Seq<PolyV>, int), _>(e),
        }),
{
    let mut acc: Vec<Polygon> = Vec::new();
    let mut cur = i;
    proof {
        assert(acc@.map_values(|p: Polygon| p@) =~= Seq::<PolyV>::empty());
        let r0 = sp_polys(s@, i as int);
        if r0 is Ok {
            assert(Seq::<PolyV>::empty() + r0->Ok_0.0 =~= r0->Ok_0.0);
        }
    }
    loop
        invariant
            i <= cur <= s.len(),
            sp_polys(s@, i as int) == prepend_items(
                acc@.map_values(|p: Polygon| p@),
                sp_polys(s@, cur as int),
            ),
        decreases s.len() - cur,
    {
        match p_poly(s, cur) {
            Err(e) => {
                return Err(e);
            },
            Ok((poly, j)) => {
                let ghost pv = poly@;
                let ghost acc0 = acc@;
                if j < s.len() && s[j] == 44 {
                    acc.push(poly);
                    proof {
                        assert(acc@.map_values(|p: Polygon| p@) =~= acc0.map_values(
                            |p: Polygon| p@,
                        ) + seq![pv]);
                        let rn = sp_polys(s@, j + 1);
                        if rn is Ok {
                            assert((acc0.map_values(|p: Polygon| p@) + seq![pv]) + rn->Ok_0.0
                                =~= acc0.map_values(|p: Polygon| p@) + (seq![pv] + rn->Ok_0.0));
                        }
                    }
                    cur = j + 1;
                } else if j < s.len() && s[j] == 93 {
                    acc.push(poly);
                    proof {
                        assert(acc@.map_values(|p: Polygon| p@) =~= acc0.map_values(
                            |p: Polygon| p@,
                        ) + seq![pv]);
                    }
                    return Ok((acc, j + 1));
                } else {
                    return Err(FormatError::Syntax);
                }
            },
        }
    }
}

/// Decode a compact wire form back into a geometry. The result is exactly
/// what the specification parser `sp_doc` assigns to the bytes.
pub fn decode(bytes: &Vec<u8>) -> (r: Result<MultiPolygon, FormatError>)
    ensures
        (match r {
            Ok(mp) => sp_doc(bytes@) == Ok::<_, FormatError>(mp@),
            Err(e) => sp_doc(bytes@) == Err::<Seq<PolyV>, _>(e),
        }),
{
    if bytes.len() > 0 && bytes[0] == 91 {
        if bytes.len() > 1 && bytes[1] == 93 {
            if bytes.len() == 2 {
                let mp = MultiPolygon { polygons: Vec::new() };
                proof {
                    assert(mp@ =~= Seq::<PolyV>::empty());
                }
                Ok(mp)
            } else {
                Err(FormatError::Syntax)
            }
        } else {
            match p_polys(bytes, 1) {
                Err(e) => Err(e),
                Ok((polys, j)) => {
                    if j == bytes.len() {
                        Ok(MultiPolygon { polygons: polys })
                    } else {
                        Err(FormatError::Syntax)
                    }
                },
            }
        }
    } else {
        Err(FormatError::Syntax)
    }
}

// ---------------------------------------------------------------------------
// Round trip: decoding an encoding yields the original geometry.

proof fn lemma_region_split(s: Seq<u8>, i: int, a: Seq<u8>, b: Seq<u8>)
    requires
        0 <= i,
        i + a.len() + b.len() <= s.len(),
        s.subrange(i, i + a.len() + b.len()) == a + b,
    ensures
        s.subrange(i, i + a.len()) == a,
        s.subrange(i + a.len(), i + a.len() + b.len()) == b,
{
    let ab = s.subrange(i, i + a.len() + b.len());
    assert forall|k: int| 0 <= k < a.len() implies s.subrange(i, i + a.len())[k] == a[k] by {
        assert(ab[k] == s[i + k]);
        assert(ab[k] == (a + b)[k]);
    }
    assert(s.subrange(i, i + a.len()) =~= a);
    assert forall|k: int| 0 <= k < b.len() implies s.subrange(
        i + a.len(),
        i + a.len() + b.len(),
    )[k] == b[k] by {
        assert(ab[a.len() + k] == s[i + a.len() + k]);
        assert(ab[a.len() + k] == (a + b)[a.len() + k]);
    }
    assert(s.subrange(i + a.len(), i + a.len() + b.len()) =~= b);
}

proof fn lemma_scan_token_at(s: Seq<u8>, i: int, e: int)
    requires
        0 <= i <= e < s.len(),
        forall|k: int| i <= k < e ==> !is_delim(#[trigger] s[k]),
        is_delim(s[e]),
    ensures
        scan_token(s, i) == e,
    decreases e - i,
{
    if i < e {
        lemma_scan_token_at(s, i + 1, e);
    }
}

proof fn lemma_sp_num_at(s: Seq<u8>, i: int, t: Seq<u8>)
    requires
        crate::numbers::is_number(t),
        0 <= i,
        i + t.len() < s.len(),
        s.subrange(i, i + t.len()) == t,
        is_delim(s[i + t.len()]),
    ensures
        sp_num(s, i) == Ok::<_, FormatError>((t, i + t.len())),
{
    crate::numbers::lemma_number_bytes(t);
    assert forall|k: int| i <= k < i + t.len() implies !is_delim(#[trigger] s[k]) by {
        assert(s.subrange(i, i + t.len())[k - i] == s[k]);
        assert(crate::numbers::is_num_byte(t[k - i]));
    }
    lemma_scan_token_at(s, i, i + t.len());
}

proof fn lemma_sp_coord_at(s: Seq<u8>, i: int, c: CoordV)
    requires
        wf_coord(c),
        0 <= i,
        i + enc_coord(c).len() <= s.len(),
        s.subrange(i, i + enc_coord(c).len()) == enc_coord(c),
    ensures
        sp_coord(s, i) == Ok::<_, FormatError>((c, i + enc_coord(c).len())),
{
    let e = enc_coord(c);
    let xl = c.x.len() as int;
    let yl = c.y.len() as int;
    assert(e.len() == 3 + xl + yl);
    assert forall|k: int| 0 <= k < e.len() implies s[i + k] == e[k] by {
        assert(s.subrange(i, i + e.len())[k] == s[i + k]);
    }
    assert(e[0] == 91);
    assert forall|k: int| 0 <= k < xl implies e[1 + k] == c.x[k] by {}
    assert(e[1 + xl] == 44);
    assert forall|k: int| 0 <= k < yl implies e[2 + xl + k] == c.y[k] by {}
    assert(e[2 + xl + yl] == 93);
    assert(s[i] == 91);
    assert(s.subrange(i + 1, i + 1 + xl) =~= c.x);
    assert(s[i + 1 + xl] == 44);
    lemma_sp_num_at(s, i + 1, c.x);
    assert(s.subrange(i + 2 + xl, i + 2 + xl + yl) =~= c.y);
    assert(s[i + 2 + xl + yl] == 93);
    lemma_sp_num_at(s, i + 2 + xl, c.y);
}

proof fn lemma_sp_coords_at(s: Seq<u8>, i: int, cs: Seq<CoordV>, from: int)
    requires
        wf_ring(cs),
        0 <= from < cs.len(),
        0 <= i,
        i + enc_coords(cs, from).len() < s.len(),
        s.subrange(i, i + enc_coords(cs, from).len()) == enc_coords(cs, from),
        s[i + enc_coords(cs, from).len()] == 93,
    ensures
        sp_coords(s, i) == Ok::<_, FormatError>(
            (cs.subrange(from, cs.len() as int), i + enc_coords(cs, from).len() + 1),
        ),
    decreases cs.len() - from,
{
    let whole = enc_coords(cs, from);
    let ec = enc_coord(cs[from]);
    if from == cs.len() - 1 {
        assert(whole == ec);
        lemma_sp_coord_at(s, i, cs[from]);
        let j = i + ec.len();
        assert(s[j] == 93);
        assert(sp_coords(s, i) == Ok::<_, FormatError>((seq![cs[from]], j + 1)));
        assert(seq![cs[from]] =~= cs.subrange(from, cs.len() as int));
    } else {
        let rest = enc_coords(cs, from + 1);
        assert(whole == ec + (seq![44u8] + rest));
        lemma_region_split(s, i, ec, seq![44u8] + rest);
        lemma_sp_coord_at(s, i, cs[from]);
        let j = i + ec.len();
        lemma_region_split(s, j, seq![44u8], rest);
        assert(s.subrange(j, j + 1)[0] == s[j]);
        assert(s[j] == 44);
        assert(i < j + 1);
        assert(s.subrange(j + 1, j + 1 + rest.len()) == rest);
        assert(j + 1 + rest.len() == i + whole.len());
        lemma_sp_coords_at(s, j + 1, cs, from + 1);
        assert(sp_coords(s, j + 1) == Ok::<_, FormatError>(
            (cs.subrange(from + 1, cs.len() as int), i + whole.len() + 1),
        ));
        assert(seq![cs[from]] + cs.subrange(from + 1, cs.len() as int) =~= cs.subrange(
            from,
            cs.len() as int,
        ));
    }
}

proof fn lemma_sp_ring_at(s: Seq<u8>, i: int, r: RingV)
    requires
        wf_ring(r),
        0 <= i,
        i + enc_ring(r).len() <= s.len(),
        s.subrange(i, i + enc_ring(r).len()) == enc_ring(r),
    ensures
        sp_ring(s, i) == Ok::<_, FormatError>((r, i + enc_ring(r).len())),
{
    let e = enc_ring(r);
    let body = enc_coords(r, 0);
    assert forall|k: int| 0 <= k < e.len() implies s[i + k] == e[k] by {
        assert(s.subrange(i, i + e.len())[k] == s[i + k]);
    }
    assert(e[0] == 91);
    assert(s[i] == 91);
    assert(e[e.len() - 1] == 93);
    if r.len() == 0 {
        assert(body =~= Seq::<u8>::empty());
        assert(e.len() == 2);
        assert(s[i + 1] == 93);
        assert(sp_ring(s, i) == Ok::<_, FormatError>((Seq::<CoordV>::empty(), i + 2)));
        assert(r =~= Seq::<CoordV>::empty());
    } else {
        assert(body[0] == enc_coord(r[0])[0]) by {
            if r.len() == 1 {
                assert(body == enc_coord(r[0]));
            } else {
                assert(body == enc_coord(r[0]) + seq![44u8] + enc_coords(r, 1));
            }
        }
        assert(enc_coord(r[0])[0] == 91);
        assert(s[i + 1] == body[0]) by {
            assert(e[1] == (seq![91u8] + body)[1]);
        }
        assert(s[i + 1] == 91);
        assert(seq![91u8] + (body + seq![93u8]) =~= e);
        lemma_region_split(s, i, seq![91u8], body + seq![93u8]);
        lemma_region_split(s, i + 1, body, seq![93u8]);
        assert(s.subrange(i + 1 + body.len(), i + 1 + body.len() + 1)[0] == s[i + 1 + body.len()]);
        assert(s[i + 1 + body.len()] == 93);
        lemma_sp_coords_at(s, i + 1, r, 0);
        assert(r.subrange(0, r.len() as int) =~= r);
    }
}

proof fn lemma_sp_rings_at(s: Seq<u8>, i: int, rs: Seq<RingV>, from: int)
    requires
        forall|k: int| 0 <= k < rs.len() ==> wf_ring(#[trigger] rs[k]),
        0 <= from < rs.len(),
        0 <= i,
        i + enc_rings(rs, from).len() < s.len(),
        s.subrange(i, i + enc_rings(rs, from).len()) == enc_rings(rs, from),
        s[i + enc_rings(rs, from).len()] == 93,
    ensures
        sp_rings(s, i) == Ok::<_, FormatError>(
            (rs.subrange(from, rs.len() as int), i + enc_rings(rs, from).len() + 1),
        ),
    decreases rs.len() - from,
{
    let whole = enc_rings(rs, from);
    let er = enc_ring(rs[from]);
    if from == rs.len() - 1 {
        assert(whole == er);
        lemma_sp_ring_at(s, i, rs[from]);
        let j = i + er.len();
        assert(s[j] == 93);
        assert(seq![rs[from]] =~= rs.subrange(from, rs.len() as int));
    } else {
        let rest = enc_rings(rs, from + 1);
        assert(whole == er + (seq![44u8] + rest));
        lemma_region_split(s, i, er, seq![44u8] + rest);
        lemma_sp_ring_at(s, i, rs[from]);
        let j = i + er.len();
        lemma_region_split(s, j, seq![44u8], rest);
        assert(s.subrange(j, j + 1)[0] == s[j]);
        assert(s[j] == 44);
        assert(s.subrange(j + 1, j + 1 + rest.len()) == rest);
        assert(j + 1 + rest.len() == i + whole.len());
        lemma_sp_rings_at(s, j + 1, rs, from + 1);
        assert(seq![rs[from]] + rs.subrange(from + 1, rs.len() as int) =~= rs.subrange(
            from,
            rs.len() as int,
        ));
    }
}

proof fn lemma_sp_poly_at(s: Seq<u8>, i: int, p: PolyV)
    requires
        wf_poly(p),
        0 <= i,
        i + enc_poly(p).len() <= s.len(),
        s.subrange(i, i + enc_poly(p).len()) == enc_poly(p),
    ensures
        sp_poly(s, i) == Ok::<_, FormatError>((p, i + enc_poly(p).len())),
{
    let e = enc_poly(p);
    let rs = poly_rings(p);
    let body = enc_rings(rs, 0);
    assert(rs.len() >= 1);
    assert forall|k: int| 0 <= k < rs.len() implies wf_ring(#[trigger] rs[k]) by {
        if k == 0 {
            assert(rs[k] == p.exterior);
        } else {
            assert(rs[k] == p.interiors[k - 1]);
        }
    }
    assert forall|k: int| 0 <= k < e.len() implies s[i + k] == e[k] by {
        assert(s.subrange(i, i + e.len())[k] == s[i + k]);
    }
    assert(e[0] == 91);
    assert(s[i] == 91);
    assert(body[0] == enc_ring(rs[0])[0]) by {
        if rs.len() == 1 {
            assert(body == enc_ring(rs[0]));
        } else {
            assert(body == enc_ring(rs[0]) + seq![44u8] + enc_rings(rs, 1));
        }
    }
    assert(enc_ring(rs[0])[0] == 91);
    assert(s[i + 1] == body[0]) by {
        assert(e[1] == (seq![91u8] + body)[1]);
    }
    assert(s[i + 1] == 91);
    assert(seq![91u8] + (body + seq![93u8]) =~= e);
    lemma_region_split(s, i, seq![91u8], body + seq![93u8]);
    lemma_region_split(s, i + 1, body, seq![93u8]);
    assert(s.subrange(i + 1 + body.len(), i + 1 + body.len() + 1)[0] == s[i + 1 + body.len()]);
    assert(s[i + 1 + body.len()] == 93);
    lemma_sp_rings_at(s, i + 1, rs, 0);
    assert(sp_rings(s, i + 1) == Ok::<_, FormatError>(
        (rs.subrange(0, rs.len() as int), i + e.len()),
    ));
    let got = rs.subrange(0, rs.len() as int);
    assert(got =~= rs);
    assert(got[0] == p.exterior);
    assert(got.drop_first() =~= p.interiors);
    assert(PolyV { exterior: got[0], interiors: got.drop_first() } =~~= p);
}

proof fn lemma_sp_polys_at(s: Seq<u8>, i: int, ps: Seq<PolyV>, from: int)
    requires
        wf_mp(ps),
        0 <= from < ps.len(),
        0 <= i,
        i + enc_polys(ps, from).len() < s.len(),
        s.subrange(i, i + enc_polys(ps, from).len()) == enc_polys(ps, from),
        s[i + enc_polys(ps, from).len()] == 93,
    ensures
        sp_polys(s, i) == Ok::<_, FormatError>(
            (ps.subrange(from, ps.len() as int), i + enc_polys(ps, from).len() + 1),
        ),
    decreases ps.len() - from,
{
    let whole = enc_polys(ps, from);
    let ep = enc_poly(ps[from]);
    if from == ps.len() - 1 {
        assert(whole == ep);
        lemma_sp_poly_at(s, i, ps[from]);
        let j = i + ep.len();
        assert(s[j] == 93);
        assert(seq![ps[from]] =~= ps.subrange(from, ps.len() as int));
    } else {
        let rest = enc_polys(ps, from + 1);
        assert(whole == ep + (seq![44u8] + rest));
        lemma_region_split(s, i, ep, seq![44u8] + rest);
        lemma_sp_poly_at(s, i, ps[from]);
        let j = i + ep.len();
        lemma_region_split(s, j, seq![44u8], rest);
        assert(s.subrange(j, j + 1)[0] == s[j]);
        assert(s[j] == 44);
        assert(s.subrange(j + 1, j + 1 + rest.len()) == rest);
        assert(j + 1 + rest.len() == i + whole.len());
        lemma_sp_polys_at(s, j + 1, ps, from + 1);
        assert(seq![ps[from]] + ps.subrange(from + 1, ps.len() as int) =~= ps.subrange(
            from,
            ps.len() as int,
        ));
    }
}

/// Losslessness of the codec: decoding the encoding of any well-formed
/// geometry gives back exactly that geometry, same polygon order, same ring
/// order, same coordinate texts.
pub proof fn lemma_round_trip(m: Seq<PolyV>)
    requires
        wf_mp(m),
    ensures
        sp_doc(enc_mp(m)) == Ok::<_, FormatError>(m),
{
    let s = enc_mp(m);
    let body = enc_polys(m, 0);
    assert(s == seq![91u8] + body + seq![93u8]);
    assert(s[0] == 91);
    if m.len() == 0 {
        assert(body =~= Seq::<u8>::empty());
        assert(s.len() == 2);
        assert(s[1] == 93);
        assert(sp_mp(s, 0) == Ok::<_, FormatError>((Seq::<PolyV>::empty(), 2int)));
        assert(m =~= Seq::<PolyV>::empty());
    } else {
        assert(body[0] == enc_poly(m[0])[0]) by {
            if m.len() == 1 {
                assert(body == enc_poly(m[0]));
            } else {
                assert(body == enc_poly(m[0]) + seq![44u8] + enc_polys(m, 1));
            }
        }
        assert(enc_poly(m[0])[0] == 91);
        assert(s[1] == body[0]) by {
            assert(s[1] == (seq![91u8] + body)[1]);
        }
        assert(s[1] == 91);
        assert(s.subrange(0, s.len() as int) =~= s);
        assert(seq![91u8] + (body + seq![93u8]) =~= s);
        lemma_region_split(s, 0, seq![91u8], body + seq![93u8]);
        lemma_region_split(s, 1, body, seq![93u8]);
        let b = body.len() as int;
        assert(s.subrange(1 + b, 1 + b + 1)[0] == s[1 + b]);
        assert(s[1 + b] == 93);
        lemma_sp_polys_at(s, 1, m, 0);
        assert(m.subrange(0, m.len() as int) =~= m);
    }
}

} // verus!
