//! How the renderer divides an image into work.
use vstd::prelude::*;

verus! {

/// The rows `start..end` of band `k` when an image `height` rows high is cut
/// into bands of `band` rows, the last band holding what is left.
pub open spec fn band_rows(k: int, band: int, height: int) -> (int, int) {
    let start = k * band;
    let end = if start + band <= height {
        start + band
    } else {
        height
    };
    (start, end)
}

/// Cuts the rows `0..height` of an image into bands of `band` rows, top to
/// bottom, the last band holding what is left: band `k` holds the rows from
/// `k * band` up to `(k + 1) * band` or `height`, whichever comes first, and
/// there are just enough bands to cover every row.
pub fn row_bands(height: u32, band: u32) -> (r: Vec<(u32, u32)>)
    requires
        band > 0,
    ensures
        r@.len() * band >= height,
        r@.len() == 0 || (r@.len() - 1) * band < height,
        forall|k: int|
            0 <= k < r@.len() ==> (#[trigger] r@[k]).0 as int == band_rows(k, band as int, height as int).0
                && r@[k].1 as int == band_rows(k, band as int, height as int).1,
{
    let mut bands: Vec<(u32, u32)> = Vec::new();
    let mut start: u64 = 0;
    let mut k: u64 = 0;
    while start < height as u64
        invariant
            band > 0,
            bands@.len() == k,
            start == k * band,
            k <= start,
            start <= height as u64 + band as u64,
            k == 0 || (k - 1) * band < height,
            forall|j: int|
                0 <= j < bands@.len() ==> (#[trigger] bands@[j]).0 as int == band_rows(
                    j,
                    band as int,
                    height as int,
                ).0 && bands@[j].1 as int == band_rows(j, band as int, height as int).1,
        decreases height as int + band as int - start as int,
    {
        let end: u64 = if start + band as u64 <= height as u64 {
            start + band as u64
        } else {
            height as u64
        };
        bands.push((start as u32, end as u32));
        proof {
            assert((k + 1) * band == k * band + band) by (nonlinear_arith);
            assert(k + 1 <= (k + 1) * band) by (nonlinear_arith)
                requires
                    band > 0,
            ;
        }
        start = start + band as u64;
        k = k + 1;
    }
    bands
}

} // verus!
