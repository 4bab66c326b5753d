use vstd::prelude::*;
use crate::numbers::is_number;

verus! {

// Geometry as the codec and the simplifier see it: every coordinate component
// is held as the byte text of a JSON number, the form it takes on the wire.
// The floating-point arithmetic that produces such texts lives outside the
// library; here a geometry is a plain tree of byte sequences.

/// One vertex: x (longitude) and y (latitude), each the text of a JSON number.
#[derive(Debug)]
pub struct Coord {
    pub x: Vec<u8>,
    pub y: Vec<u8>,
}

/// Mathematical value of a `Coord`.
#[verifier::ext_equal]
pub ghost struct CoordV {
    pub x: Seq<u8>,
    pub y: Seq<u8>,
}

impl View for Coord {
    type V = CoordV;

    open spec fn view(&self) -> CoordV {
        CoordV { x: self.x@, y: self.y@ }
    }
}

/// Mathematical value of a ring: its vertices in order.
pub type RingV = Seq<CoordV>;

pub open spec fn ring_view(r: Seq<Coord>) -> RingV {
    r.map_values(|c: Coord| c@)
}

/// One polygon: an exterior ring and zero or more interior rings (holes).
#[derive(Debug)]
pub struct Polygon {
    pub exterior: Vec<Coord>,
    pub interiors: Vec<Vec<Coord>>,
}

/// Mathematical value of a `Polygon`.
#[verifier::ext_equal]
pub ghost struct PolyV {
    pub exterior: RingV,
    pub interiors: Seq<RingV>,
}

impl View for Polygon {
    type V = PolyV;

    open spec fn view(&self) -> PolyV {
        PolyV {
            exterior: ring_view(self.exterior@),
            interiors: self.interiors@.map_values(|r: Vec<Coord>| ring_view(r@)),
        }
    }
}

/// An ordered sequence of polygons; the order carries no meaning but is
/// preserved exactly by the codec.
#[derive(Debug)]
pub struct MultiPolygon {
    pub polygons: Vec<Polygon>,
}

impl View for MultiPolygon {
    type V = Seq<PolyV>;

    open spec fn view(&self) -> Seq<PolyV> {
        self.polygons@.map_values(|p: Polygon| p@)
    }
}

impl Clone for Coord {
    fn clone(&self) -> (r: Self)
        ensures
            r@ == self@,
    {
        let r = Coord { x: self.x.clone(), y: self.y.clone() };
        proof {
            assert(r.x@ =~= self.x@);
            assert(r.y@ =~= self.y@);
        }
        r
    }
}

fn clone_ring(r: &Vec<Coord>) -> (out: Vec<Coord>)
    ensures
        ring_view(out@) == ring_view(r@),
{
    let mut out: Vec<Coord> = Vec::new();
    let mut i: usize = 0;
    while i < r.len()
        invariant
            i <= r.len(),
            out@.len() == i,
            forall|k: int| 0 <= k < i ==> #[trigger] out@[k]@ == r@[k]@,
        decreases r.len() - i,
    {
        out.push(r[i].clone());
        i += 1;
    }
    proof {
        assert(ring_view(out@) =~= ring_view(r@));
    }
    out
}

impl Clone for Polygon {
    fn clone(&self) -> (r: Self)
        ensures
            r@ == self@,
    {
        let exterior = clone_ring(&self.exterior);
        let mut interiors: Vec<Vec<Coord>> = Vec::new();
        let mut i: usize = 0;
        while i < self.interiors.len()
            invariant
                i <= self.interiors.len(),
                interiors@.len() == i,
                forall|k: int|
                    0 <= k < i ==> ring_view(#[trigger] interiors@[k]@) == ring_view(
                        self.interiors@[k]@,
                    ),
            decreases self.interiors.len() - i,
        {
            interiors.push(clone_ring(&self.interiors[i]));
            i += 1;
        }
        let r = Polygon { exterior, interiors };
        proof {
            assert(r@ =~~= self@);
        }
        r
    }
}

impl Clone for MultiPolygon {
    fn clone(&self) -> (r: Self)
        ensures
            r@ == self@,
    {
        let mut polygons: Vec<Polygon> = Vec::new();
        let mut i: usize = 0;
        while i < self.polygons.len()
            invariant
                i <= self.polygons.len(),
                polygons@.len() == i,
                forall|k: int| 0 <= k < i ==> #[trigger] polygons@[k]@ == self.polygons@[k]@,
            decreases self.polygons.len() - i,
        {
            polygons.push(self.polygons[i].clone());
            i += 1;
        }
        let r = MultiPolygon { polygons };
        proof {
            assert(r@ =~~= self@);
        }
        r
    }
}

/// Both components of a vertex are valid JSON number texts.
pub open spec fn wf_coord(c: CoordV) -> bool {
    is_number(c.x) && is_number(c.y)
}

pub open spec fn wf_ring(r: RingV) -> bool {
    forall|i: int| 0 <= i < r.len() ==> wf_coord(#[trigger] r[i])
}

pub open spec fn wf_poly(p: PolyV) -> bool {
    wf_ring(p.exterior) && forall|i: int|
        0 <= i < p.interiors.len() ==> wf_ring(#[trigger] p.interiors[i])
}

/// A well-formed geometry: every coordinate text is a JSON number.
pub open spec fn wf_mp(m: Seq<PolyV>) -> bool {
    forall|i: int| 0 <= i < m.len() ==> wf_poly(#[trigger] m[i])
}

fn ring_wf(r: &Vec<Coord>) -> (ok: bool)
    ensures
        ok == wf_ring(ring_view(r@)),
{
    let ghost rv = ring_view(r@);
    let mut i: usize = 0;
    while i < r.len()
        invariant
            i <= r.len(),
            rv == ring_view(r@),
            forall|j: int| 0 <= j < i ==> wf_coord(#[trigger] rv[j]),
        decreases r.len() - i,
    {
        let c = &r[i];
        if !(crate::numbers::check_number(&c.x) && crate::numbers::check_number(&c.y)) {
            proof {
                assert(rv[i as int] == r@[i as int]@);
                assert(!wf_coord(rv[i as int]));
            }
            return false;
        }
        proof {
            assert(rv[i as int] == r@[i as int]@);
        }
        i += 1;
    }
    true
}

fn poly_wf(p: &Polygon) -> (ok: bool)
    ensures
        ok == wf_poly(p@),
{
    if !ring_wf(&p.exterior) {
        return false;
    }
    let mut i: usize = 0;
    while i < p.interiors.len()
        invariant
            i <= p.interiors.len(),
            wf_ring(p@.exterior),
            forall|j: int| 0 <= j < i ==> wf_ring(#[trigger] p@.interiors[j]),
        decreases p.interiors.len() - i,
    {
        if !ring_wf(&p.interiors[i]) {
            proof {
                assert(p@.interiors[i as int] == ring_view(p.interiors@[i as int]@));
            }
            return false;
        }
        proof {
            assert(p@.interiors[i as int] == ring_view(p.interiors@[i as int]@));
        }
        i += 1;
    }
    true
}

impl MultiPolygon {
    /// Whether every coordinate text of the geometry is a valid JSON number.
    /// For a geometry that passes this check, decoding its encoding returns
    /// it unchanged (`codec::lemma_round_trip`).
    pub fn is_well_formed(&self) -> (ok: bool)
        ensures
            ok == wf_mp(self@),
    {
        let mut i: usize = 0;
        while i < self.polygons.len()
            invariant
                i <= self.polygons.len(),
                forall|j: int| 0 <= j < i ==> wf_poly(#[trigger] self@[j]),
            decreases self.polygons.len() - i,
        {
            if !poly_wf(&self.polygons[i]) {
                proof {
                    assert(self@[i as int] == self.polygons@[i as int]@);
                    assert(!wf_poly(self@[i as int]));
                }
                return false;
            }
            proof {
                assert(self@[i as int] == self.polygons@[i as int]@);
            }
            i += 1;
        }
        true
    }
}

} // verus!
