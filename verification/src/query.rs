use vstd::prelude::*;
use crate::shapes::{MultiPolygon, PolyV, Polygon};
use crate::store::Simplification;

verus! {

// Border-query helpers: resolving a request's options, and the mainland
// filter. Whether a polygon contains the capital, and how large its area is,
// are judgements of plane geometry made outside the library; they reach the
// filter as one flag and one order key per polygon, and everything the
// filter decides from them is verified.

/// Options of one border request, as the serving layer hands them over.
pub struct GetCountryQuery {
    pub compression: Option<Simplification>,
    pub only_mainland: Option<bool>,
}

impl GetCountryQuery {
    /// Apply the defaults: no simplification unless asked, and mainland
    /// filtering only when asked for and the country has a capital.
    pub fn resolve(&self, has_capital: bool) -> (r: (Simplification, bool))
        ensures
            r.0 == (match self.compression {
                Option::Some(c) => c,
                Option::None => Simplification::Unsimplified,
            }),
            r.1 == ((match self.only_mainland {
                Option::Some(b) => b,
                Option::None => false,
            }) && has_capital),
    {
        let compression = match &self.compression {
            Option::Some(c) => *c,
            Option::None => Simplification::Unsimplified,
        };
        let only = match &self.only_mainland {
            Option::Some(b) => *b,
            Option::None => false,
        };
        (compression, only && has_capital)
    }
}

/// The polygons whose flag is set, in their original order, from `from` on.
pub open spec fn filtered_from(polys: Seq<PolyV>, flags: Seq<bool>, from: int) -> Seq<PolyV>
    decreases polys.len() - from,
{
    if from < 0 || from >= polys.len() {
        Seq::empty()
    } else {
        (if from < flags.len() && flags[from] {
            seq![polys[from]]
        } else {
            Seq::empty()
        }) + filtered_from(polys, flags, from + 1)
    }
}

/// The polygons whose flag is set, in their original order.
pub open spec fn filtered(polys: Seq<PolyV>, flags: Seq<bool>) -> Seq<PolyV> {
    filtered_from(polys, flags, 0)
}

/// Index of the last greatest key among the first `n`.
pub open spec fn best_idx_upto(keys: Seq<u64>, n: int) -> int
    decreases n,
{
    if n <= 1 {
        0
    } else {
        let p = best_idx_upto(keys, n - 1);
        if keys[n - 1] >= keys[p] {
            n - 1
        } else {
            p
        }
    }
}

/// The selected index is in range, carries the greatest key, and is the last
/// index to do so.
pub proof fn lemma_best_idx(keys: Seq<u64>, n: int)
    requires
        1 <= n <= keys.len(),
    ensures
        0 <= best_idx_upto(keys, n) < n,
        forall|j: int| 0 <= j < n ==> #[trigger] keys[j] <= keys[best_idx_upto(keys, n)],
        forall|j: int|
            best_idx_upto(keys, n) < j < n ==> #[trigger] keys[j] < keys[best_idx_upto(keys, n)],
    decreases n,
{
    if n > 1 {
        lemma_best_idx(keys, n - 1);
    }
}

/// Retain the polygons flagged as containing the reference point; if none
/// is, fall back to the single polygon with the greatest area key (the last
/// one, if several share it). A non-empty geometry never filters to nothing.
pub fn mainland_filter(mp: &MultiPolygon, contains_point: &Vec<bool>, area_keys: &Vec<u64>) -> (r:
    MultiPolygon)
    requires
        contains_point@.len() == mp@.len(),
        area_keys@.len() == mp@.len(),
        mp@.len() > 0,
    ensures
        (exists|i: int| 0 <= i < mp@.len() && #[trigger] contains_point@[i]) ==> r@ == filtered(
            mp@,
            contains_point@,
        ),
        !(exists|i: int| 0 <= i < mp@.len() && #[trigger] contains_point@[i]) ==> r@ == seq![
            mp@[best_idx_upto(area_keys@, mp@.len() as int)],
        ],
        r@.len() > 0,
{
    let ghost polys = mp@;
    let ghost flags = contains_point@;
    let n = mp.polygons.len();
    let mut kept: Vec<Polygon> = Vec::new();
    let mut any = false;
    let mut i: usize = 0;
    while i < n
        invariant
            i <= n,
            n == mp.polygons@.len(),
            polys == mp@,
            flags == contains_point@,
            flags.len() == n,
            any == exists|j: int| 0 <= j < i && #[trigger] flags[j],
            kept@.map_values(|p: Polygon| p@) + filtered_from(polys, flags, i as int) =~= filtered(
                polys,
                flags,
            ),
        decreases n - i,
    {
        let ghost kv = kept@.map_values(|p: Polygon| p@);
        if contains_point[i] {
            kept.push(mp.polygons[i].clone());
            any = true;
            proof {
                assert(flags[i as int]);
                assert(kept@.map_values(|p: Polygon| p@) =~= kv + seq![polys[i as int]]);
                assert((kv + seq![polys[i as int]]) + filtered_from(polys, flags, i + 1) =~= kv + (
                seq![polys[i as int]] + filtered_from(polys, flags, i + 1)));
            }
        } else {
            proof {
                assert(filtered_from(polys, flags, i as int) =~= Seq::<PolyV>::empty()
                    + filtered_from(polys, flags, i + 1));
            }
        }
        i += 1;
    }
    proof {
        assert(filtered_from(polys, flags, n as int) =~= Seq::<PolyV>::empty());
        assert(kept@.map_values(|p: Polygon| p@) =~= filtered(polys, flags));
    }
    if any {
        proof {
            let j = choose|j: int| 0 <= j < n && #[trigger] flags[j];
            lemma_filtered_keeps(polys, flags, 0, j);
        }
        MultiPolygon { polygons: kept }
    } else {
        let mut best: usize = 0;
        let mut k: usize = 1;
        while k < n
            invariant
                1 <= k <= n,
                n == area_keys@.len(),
                best as int == best_idx_upto(area_keys@, k as int),
                best < k,
            decreases n - k,
        {
            if area_keys[k] >= area_keys[best] {
                best = k;
            }
            k += 1;
        }
        let one = mp.polygons[best].clone();
        let r = MultiPolygon { polygons: vec![one] };
        proof {
            assert(r@ =~= seq![polys[best_idx_upto(area_keys@, n as int)]]);
        }
        r
    }
}

/// A set flag keeps its polygon: the filtered sequence is non-empty as soon
/// as one flag in range is set.
proof fn lemma_filtered_keeps(polys: Seq<PolyV>, flags: Seq<bool>, from: int, j: int)
    requires
        flags.len() == polys.len(),
        0 <= from <= j < polys.len(),
        flags[j],
    ensures
        filtered_from(polys, flags, from).len() > 0,
    decreases j - from,
{
    if from < j {
        lemma_filtered_keeps(polys, flags, from + 1, j);
    }
}

/// When exactly one polygon contains the reference point, the filter keeps
/// exactly that polygon.
pub proof fn lemma_filter_unique_container(polys: Seq<PolyV>, flags: Seq<bool>, i: int)
    requires
        flags.len() == polys.len(),
        0 <= i < flags.len(),
        flags[i],
        forall|j: int| 0 <= j < flags.len() && j != i ==> !(#[trigger] flags[j]),
    ensures
        filtered(polys, flags) == seq![polys[i]],
{
    lemma_filter_unique_from(polys, flags, 0, i);
}

proof fn lemma_filter_unique_from(polys: Seq<PolyV>, flags: Seq<bool>, from: int, i: int)
    requires
        flags.len() == polys.len(),
        0 <= from <= i < flags.len(),
        flags[i],
        forall|j: int| 0 <= j < flags.len() && j != i ==> !(#[trigger] flags[j]),
    ensures
        filtered_from(polys, flags, from) == seq![polys[i]],
    decreases i - from,
{
    if from == i {
        lemma_filter_empty_from(polys, flags, from + 1, i);
        assert(filtered_from(polys, flags, from) =~= seq![polys[i]]);
    } else {
        lemma_filter_unique_from(polys, flags, from + 1, i);
        assert(filtered_from(polys, flags, from) =~= seq![polys[i]]);
    }
}

proof fn lemma_filter_empty_from(polys: Seq<PolyV>, flags: Seq<bool>, from: int, i: int)
    requires
        flags.len() == polys.len(),
        0 <= i < flags.len(),
        0 <= from,
        forall|j: int| 0 <= j < flags.len() && j != i ==> !(#[trigger] flags[j]),
        from > i,
    ensures
        filtered_from(polys, flags, from) == Seq::<PolyV>::empty(),
    decreases polys.len() - from,
{
    if from < polys.len() {
        lemma_filter_empty_from(polys, flags, from + 1, i);
        assert(filtered_from(polys, flags, from) =~= Seq::<PolyV>::empty());
    }
}

} // verus!
