use vstd::prelude::*;
use crate::codec::{enc_mp, encode};
use crate::shapes::MultiPolygon;

verus! {

/// Absolute difference between a desired byte size and an achieved one.
pub open spec fn size_gap(desired: int, size: int) -> int {
    if size >= desired {
        size - desired
    } else {
        desired - size
    }
}

/// Executable counterpart of `size_gap`.
pub fn gap(desired: usize, size: usize) -> (r: usize)
    ensures
        r == size_gap(desired as int, size as int),
{
    if size >= desired {
        size - desired
    } else {
        desired - size
    }
}

// The resolution simplifier scans simplification strengths ("epsilon", in
// thousandths from 0 to 1000) in ascending order. The geometry for each
// candidate strength is produced outside the library; this state machine
// receives the candidates one by one, measures each by its encoded size,
// keeps the one whose size lies closest to the target (earliest on ties),
// and calls the scan off as soon as a candidate drops under the target.

/// Number of candidate strengths: thousandths of the range [0, 1].
pub open spec fn candidate_count() -> int {
    1001
}

/// One examined candidate: its strength, its encoded size, its geometry.
pub struct Candidate {
    pub eps_millis: u64,
    pub size: usize,
    pub geometry: MultiPolygon,
}

/// The state of one scan.
pub struct EpsilonSearch {
    pub desired: usize,
    pub next_eps: u64,
    pub done: bool,
    pub best: Option<Candidate>,
    pub sizes: Ghost<Seq<int>>,
}

impl EpsilonSearch {
    /// Everything the scan guarantees about its own state. `sizes` records
    /// the encoded size of every candidate examined so far, in order of
    /// ascending strength.
    pub open spec fn wf(self) -> bool {
        &&& self.next_eps == self.sizes@.len()
        &&& self.next_eps <= 1001
        &&& (forall|k: int| 0 <= k < self.sizes@.len() ==> #[trigger] self.sizes@[k] >= 0)
        &&& match self.best {
            Option::None => self.sizes@.len() == 0,
            Option::Some(b) => {
                &&& b.eps_millis < self.sizes@.len()
                &&& b.size == self.sizes@[b.eps_millis as int]
                &&& enc_mp(b.geometry@).len() == b.size
                &&& (forall|k: int|
                    0 <= k < self.sizes@.len() ==> size_gap(self.desired as int, b.size as int)
                        <= size_gap(self.desired as int, #[trigger] self.sizes@[k]))
                &&& (forall|k: int|
                    0 <= k < b.eps_millis ==> size_gap(self.desired as int, b.size as int)
                        < size_gap(self.desired as int, #[trigger] self.sizes@[k]))
            },
        }
        &&& (forall|k: int|
            0 <= k < self.sizes@.len() - 1 ==> #[trigger] self.sizes@[k] >= self.desired)
        &&& self.done <==> (self.next_eps == 1001 || (self.sizes@.len() > 0 && self.sizes@.last()
            < self.desired))
    }

    /// Begin a scan toward the given target byte size.
    pub fn new(desired: usize) -> (s: Self)
        ensures
            s.wf(),
            s.desired == desired,
            s.sizes@ == Seq::<int>::empty(),
            !s.done,
    {
        EpsilonSearch {
            desired,
            next_eps: 0,
            done: false,
            best: Option::None,
            sizes: Ghost(Seq::empty()),
        }
    }

    /// The strength, in thousandths, of the next candidate the scan wants,
    /// or nothing if the scan is over.
    pub fn next_candidate(&self) -> (r: Option<u64>)
        requires
            self.wf(),
        ensures
            (match r {
                Option::Some(e) => !self.done && e == self.next_eps && e <= 1000,
                Option::None => self.done,
            }),
    {
        if self.done {
            Option::None
        } else {
            Option::Some(self.next_eps)
        }
    }

    /// Take in the geometry simplified at the strength `next_candidate`
    /// asked for. Its encoded size is measured here; the candidate is kept
    /// exactly when it beats every earlier candidate's distance to the
    /// target, and the scan ends once a candidate's size drops under the
    /// target or the range is exhausted.
    pub fn offer(&mut self, geometry: MultiPolygon)
        requires
            old(self).wf(),
            !old(self).done,
        ensures
            final(self).wf(),
            final(self).desired == old(self).desired,
            final(self).next_eps == old(self).next_eps + 1,
            final(self).sizes@ == old(self).sizes@.push(enc_mp(geometry@).len() as int),
            final(self).done == (old(self).next_eps + 1 == 1001 || enc_mp(geometry@).len() < old(
                self,
            ).desired),
            (match old(self).best {
                Option::None => false,
                Option::Some(b) => size_gap(
                    old(self).desired as int,
                    enc_mp(geometry@).len() as int,
                ) >= size_gap(old(self).desired as int, b.size as int),
            }) ==> final(self).best == old(self).best,
            (match old(self).best {
                Option::None => true,
                Option::Some(b) => size_gap(
                    old(self).desired as int,
                    enc_mp(geometry@).len() as int,
                ) < size_gap(old(self).desired as int, b.size as int),
            }) ==> (final(self).best matches Option::Some(nb) && nb.eps_millis == old(self).next_eps
                && nb.size == enc_mp(geometry@).len() && nb.geometry@ == geometry@),
    {
        let bytes = encode(&geometry);
        let sz = bytes.len();
        let ghost szi = sz as int;
        let d = self.desired;
        let g = gap(d, sz);
        let improves = match &self.best {
            Option::None => true,
            Option::Some(b) => g < gap(d, b.size),
        };
        let ghost old_sizes = self.sizes@;
        let eps = self.next_eps;
        if improves {
            self.best = Option::Some(Candidate { eps_millis: eps, size: sz, geometry });
        }
        proof {
            self.sizes@ = old_sizes.push(szi);
        }
        self.next_eps = eps + 1;
        self.done = sz < d || self.next_eps == 1001;
        proof {
            let ns = self.sizes@;
            assert(ns.len() == old_sizes.len() + 1);
            assert(ns.last() == szi);
            assert(forall|k: int| 0 <= k < old_sizes.len() ==> ns[k] == #[trigger] old_sizes[k]);
            match &self.best {
                Option::None => {
                    assert(false);
                },
                Option::Some(b) => {
                    if improves {
                        assert(b.size == szi);
                        match old(self).best {
                            Option::None => {
                                assert(old_sizes.len() == 0);
                            },
                            Option::Some(ob) => {
                                assert(forall|k: int|
                                    0 <= k < old_sizes.len() ==> size_gap(d as int, ob.size as int)
                                        <= size_gap(d as int, #[trigger] old_sizes[k]));
                            },
                        }
                    }
                },
            }
        }
    }

    /// Hand out the selected candidate once the scan is over. The scan never
    /// fails: as long as at least one candidate was examined there is a
    /// selected one, whether or not any candidate met the target.
    pub fn finish(self) -> (r: Candidate)
        requires
            self.wf(),
            self.done,
        ensures
            Option::Some(r) == self.best,
    {
        self.best.unwrap()
    }
}

/// If the scan is over and some examined candidate encoded under the target,
/// the selected candidate's encoded size never exceeds the size of the
/// unsimplified (strength zero) candidate: the scan cannot settle on a
/// strictly worse answer than "no simplification" when a better one exists.
pub proof fn lemma_selected_not_above_origin(s: EpsilonSearch)
    requires
        s.wf(),
        s.done,
        exists|k: int| 0 <= k < s.sizes@.len() && #[trigger] s.sizes@[k] < s.desired,
    ensures
        s.best matches Option::Some(b) && b.size <= s.sizes@[0],
{
    let k = choose|k: int| 0 <= k < s.sizes@.len() && #[trigger] s.sizes@[k] < s.desired;
    assert(s.sizes@.len() > 0);
    let b = s.best->Some_0;
    if s.sizes@[0] < s.desired {
        if s.sizes@.len() > 1 {
            assert(s.sizes@[0] >= s.desired);
        }
        assert(s.sizes@.len() == 1);
        assert(b.eps_millis == 0);
    } else {
        if b.size > s.sizes@[0] {
            assert(size_gap(s.desired as int, b.size as int) > size_gap(
                s.desired as int,
                s.sizes@[0],
            ));
            assert(size_gap(s.desired as int, b.size as int) <= size_gap(
                s.desired as int,
                s.sizes@[0],
            ));
        }
    }
}

/// If no candidate in the whole range encodes under the target, the scan
/// still ends after examining every candidate and selects, without error,
/// the candidate whose encoded size lies closest to the target, the
/// earliest such on ties.
pub proof fn lemma_full_scan_selects_closest(s: EpsilonSearch)
    requires
        s.wf(),
        s.done,
        forall|k: int| 0 <= k < s.sizes@.len() ==> #[trigger] s.sizes@[k] >= s.desired,
    ensures
        s.sizes@.len() == candidate_count(),
        s.best matches Option::Some(b) && (forall|k: int|
            0 <= k < candidate_count() ==> size_gap(s.desired as int, b.size as int) <= size_gap(
                s.desired as int,
                #[trigger] s.sizes@[k],
            )) && (forall|k: int|
            0 <= k < b.eps_millis ==> size_gap(s.desired as int, b.size as int) < size_gap(
                s.desired as int,
                #[trigger] s.sizes@[k],
            )),
{
    if s.sizes@.len() > 0 && s.sizes@.last() < s.desired {
        assert(s.sizes@[s.sizes@.len() - 1] >= s.desired);
    }
    assert(s.next_eps == 1001);
}

} // verus!
