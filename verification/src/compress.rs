use vstd::prelude::*;

verus! {

// The batch precompute runner fans the simplifier out over the country set
// in fixed-size batches, one worker per batch. The partition itself is
// decided here; running the workers is the caller's business.

/// Countries per worker batch.
pub const BATCH_SIZE: usize = 32;

/// Split `0..n` into consecutive half-open ranges of at most `BATCH_SIZE`
/// items: all full but possibly the last, and exactly
/// ceil(n / BATCH_SIZE) of them.
pub fn batch_partition(n: usize) -> (r: Vec<(usize, usize)>)
    ensures
        n == 0 ==> r@.len() == 0,
        n > 0 ==> r@.len() == ((n + 31) / 32),
        forall|k: int|
            0 <= k < r@.len() ==> (#[trigger] r@[k]).0 == 32 * k && r@[k].1 == (if 32 * k + 32 <= n {
                32 * k + 32
            } else {
                n as int
            }),
{
    let mut r: Vec<(usize, usize)> = Vec::new();
    let mut start: usize = 0;
    while start < n
        invariant
            start <= n,
            start as int == 32 * r@.len(),
            forall|k: int|
                0 <= k < r@.len() ==> (#[trigger] r@[k]).0 == 32 * k && r@[k].1 == (if 32 * k + 32
                    <= n {
                    32 * k + 32
                } else {
                    n as int
                }),
        decreases n - start,
    {
        if n - start < BATCH_SIZE {
            r.push((start, n));
            proof {
                let m = r@.len() as int;
                assert(32 * (m - 1) < n <= 32 * m);
                assert(m == (n + 31) / 32);
            }
            return r;
        }
        r.push((start, start + BATCH_SIZE));
        start = start + BATCH_SIZE;
    }
    proof {
        if n > 0 {
            let m = r@.len() as int;
            assert(n == 32 * m);
            assert(32 * (m - 1) < n <= 32 * m);
            assert(m == (n + 31) / 32);
        }
    }
    r
}

} // verus!
