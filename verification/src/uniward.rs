//! Index arithmetic of the wavelet filtering used by the J-UNIWARD cost.
use vstd::prelude::*;

verus! {

/// The index that "reflect" padding reads for position `idx` of a signal of
/// length `n`: positions before the start mirror to `-idx - 1`, positions past
/// the end mirror to `2n - idx - 1`, and the result is clamped to `[0, n)`.
pub open spec fn reflected(idx: int, n: int) -> int {
    let i1 = if idx < 0 {
        -idx - 1
    } else {
        idx
    };
    let i2 = if i1 >= n {
        2 * n - i1 - 1
    } else {
        i1
    };
    if i2 < 0 {
        0
    } else if i2 > n - 1 {
        n - 1
    } else {
        i2
    }
}

/// Index with "reflect" padding (mirrored borders) for a signal of length `n`.
pub fn reflect_index(idx: isize, n: usize) -> (r: usize)
    requires
        0 < n <= isize::MAX,
        idx > isize::MIN,
        (if idx < 0 { -idx - 1 } else { idx as int }) >= n ==> 2 * n <= isize::MAX,
    ensures
        r as int == reflected(idx as int, n as int),
        r < n,
        0 <= idx < n ==> r == idx,
{
    let n = n as isize;
    let idx = if idx < 0 {
        -idx - 1
    } else {
        idx
    };
    let idx = if idx >= n {
        2 * n - idx - 1
    } else {
        idx
    };
    let clamped = if idx < 0 {
        0
    } else if idx > n - 1 {
        n - 1
    } else {
        idx
    };
    clamped as usize
}

} // verus!
