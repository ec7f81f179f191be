//! The paged-scan arithmetic of the driver loop. Each epoch splits the
//! table into one contiguous range per core; each range is read in ordered
//! sub-pages of at most a thousand rows, by successive LIMIT/OFFSET windows.
//!
//! The source table is assumed quiescent during a scan: offsets, not keys,
//! partition it, so rows inserted mid-scan may be seen inconsistently.

use vstd::prelude::*;

verus! {

/// The rows one page read covers in one epoch.
pub fn epoch_chunk_size(rows: usize, cores: usize) -> (r: usize)
    requires
        cores > 0,
    ensures
        r == rows as int / cores as int,
{
    rows / cores
}

/// One LIMIT/OFFSET window of a paged read.
#[derive(Debug, Clone, Copy, PartialEq, Eq, Structural)]
pub struct Window {
    pub offset: usize,
    pub limit: usize,
}

/// The windows one paged reader issues for its chunk: they start at
/// `page * chunk_size`, run consecutively, each carries at most a thousand
/// rows, and together they cover exactly `chunk_size` rows.
pub fn scan_windows(chunk_size: usize, page: usize) -> (r: Vec<Window>)
    requires
        (page + 1) * chunk_size <= usize::MAX,
    ensures
        r@.len() == (chunk_size + 999) / 1000,
        forall|k: int| 0 <= k < r@.len() ==> (#[trigger] r@[k]).offset == page * chunk_size + k
            * 1000,
        forall|k: int| 0 <= k < r@.len() ==> (#[trigger] r@[k]).limit == (if chunk_size - k * 1000
            < 1000 {
            chunk_size - k * 1000
        } else {
            1000
        }),
{
    proof {
        assert((page + 1) * chunk_size == page * chunk_size + chunk_size) by (nonlinear_arith);
    }
    let base = page * chunk_size;
    let mut out: Vec<Window> = Vec::new();
    let mut remaining: usize = chunk_size;
    while remaining > 0
        invariant
            remaining <= chunk_size,
            base == page * chunk_size,
            base + chunk_size <= usize::MAX,
            chunk_size - remaining == out@.len() * 1000 || remaining == 0,
            remaining == 0 ==> out@.len() == ((chunk_size + 999) / 1000),
            forall|k: int| 0 <= k < out@.len() ==> (#[trigger] out@[k]).offset == page
                * chunk_size + k * 1000,
            forall|k: int| 0 <= k < out@.len() ==> (#[trigger] out@[k]).limit == (if chunk_size
                - k * 1000 < 1000 {
                chunk_size - k * 1000
            } else {
                1000
            }),
        decreases remaining,
    {
        let ghost k = out@.len() as int;
        let step = if remaining < 1000 {
            remaining
        } else {
            1000usize
        };
        out.push(Window { offset: base + (chunk_size - remaining), limit: step });
        proof {
            assert(chunk_size - remaining == k * 1000);
            assert(out@[k].offset == page * chunk_size + k * 1000);
        }
        remaining = remaining - step;
        proof {
            if remaining == 0 {
                assert(out@.len() == k + 1);
                assert(chunk_size == k * 1000 + step);
                assert(1 <= step <= 1000);
                assert((chunk_size + 999) / 1000 == k + 1) by (nonlinear_arith)
                    requires
                        chunk_size == k * 1000 + step,
                        1 <= step <= 1000,
                        k >= 0,
                ;
            }
        }
    }
    proof {
        if chunk_size == 0 {
            assert(out@.len() == 0);
        }
    }
    out
}

} // verus!
