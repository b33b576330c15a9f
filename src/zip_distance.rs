//! A distance between byte strings from the sizes of their compressed forms.

use vstd::prelude::*;

verus! {

/// Distances are fixed-point numbers: this many units make a distance of one.
pub const SCALE: u64 = 1000000;

/// The zlib stream that flate2 writes for `data` at the default level.
pub uninterp spec fn zlib_of(data: Seq<u8>) -> Seq<u8>;

/// Relies on flate2's `ZlibEncoder` at `Compression::default()`: writing `d` into
/// an encoder over a `Vec` and finishing it gives the zlib stream of `d`, which
/// depends on the bytes alone. Neither step can fail: writes into a `Vec` always
/// succeed, and the backend reports errors only for bad parameters or a failed
/// callback, neither of which the default level over a `Vec` uses.
#[verifier::external_body]
fn zlib_encode(d: &[u8]) -> (r: Vec<u8>)
    ensures
        r@ == zlib_of(d@),
{
    let mut e = flate2::write::ZlibEncoder::new(Vec::new(), flate2::Compression::default());
    std::io::Write::write_all(&mut e, d).expect("writing into a Vec does not fail");
    e.finish().expect("finishing into a Vec does not fail")
}

/// The size of `d` once compressed.
pub fn compress(d: &[u8]) -> (r: usize)
    ensures
        r == zlib_of(d@).len(),
{
    zlib_encode(d).len()
}

/// The compressed size of `a` with the default backend.
pub fn compressed_bytes(a: &[u8]) -> (r: usize)
    ensures
        r == zlib_of(a@).len(),
{
    compress(a)
}

/// The normalized compression distance in units of `1 / SCALE`, rounded down:
/// `(lab - min(la, lb)) / max(la, lb)`, where `la` and `lb` are the compressed
/// sizes of two strings and `lab` that of their concatenation. A concatenation that
/// compresses below the smaller size counts as distance zero. `None` when both
/// sizes are zero, where the ratio is undefined, or when it does not fit a `u64`.
pub open spec fn ncd(la: int, lb: int, lab: int) -> Option<u64> {
    let lo = if la <= lb { la } else { lb };
    let hi = if la <= lb { lb } else { la };
    let q = if lab >= lo { (lab - lo) * SCALE / hi } else { 0 };
    if hi == 0 || q > u64::MAX {
        None
    } else {
        Some(q as u64)
    }
}

/// The distance for given compressed sizes; see `ncd`.
pub fn distance_from_sizes(la: usize, lb: usize, lab: usize) -> (r: Option<u64>)
    ensures
        r == ncd(la as int, lb as int, lab as int),
{
    let lo = if la <= lb { la } else { lb };
    let hi = if la <= lb { lb } else { la };
    if hi == 0 {
        return None;
    }
    let num: u128 = if lab >= lo { ((lab - lo) as u128) * (SCALE as u128) } else { 0 };
    let q: u128 = num / (hi as u128);
    if q > u64::MAX as u128 {
        None
    } else {
        Some(q as u64)
    }
}

/// The distance between `a` and `b`: `ncd` of the compressed sizes of `a`, of `b`
/// and of `a` followed by `b`. `None` exactly where `ncd` is undefined.
pub fn distance(a: &[u8], b: &[u8]) -> (r: Option<u64>)
    ensures
        r == ncd(zlib_of(a@).len() as int, zlib_of(b@).len() as int, zlib_of(a@ + b@).len() as int),
{
    let mut ab: Vec<u8> = Vec::new();
    ab.extend_from_slice(a);
    ab.extend_from_slice(b);
    assert(ab@ =~= a@ + b@);
    let la = compressed_bytes(a);
    let lb = compressed_bytes(b);
    let lab = compressed_bytes(ab.as_slice());
    distance_from_sizes(la, lb, lab)
}

} // verus!
