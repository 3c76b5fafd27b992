use vstd::prelude::*;

verus! {

/// The number of whole or partial windows of `w` samples in a buffer of
/// `n` samples: `n / w` rounded up.
pub open spec fn ceil_div(n: int, w: int) -> int {
    (n + w - 1) / w
}

/// The `k`-th window of width `w` over the buffer `s`: the slice starting
/// at `k * w`, truncated at the end of the buffer.
pub open spec fn window<T>(s: Seq<T>, w: int, k: int) -> Seq<T> {
    s.subrange(
        k * w,
        if k * w + w <= s.len() {
            k * w + w
        } else {
            s.len() as int
        },
    )
}

/// Cutting a buffer of `n` samples into windows of `w` samples yields
/// exactly `ceil_div(n, w)` windows: `k` is that count precisely when the
/// `k`-th window would start at or past the end while the `(k - 1)`-th
/// starts before it.
pub proof fn lemma_window_count(n: int, w: int, k: int)
    requires
        w > 0,
        k >= 1,
        (k - 1) * w < n,
        n <= k * w,
    ensures
        k == ceil_div(n, w),
{
    let r = n + w - 1 - k * w;
    assert((k - 1) * w == k * w - w) by (nonlinear_arith);
    vstd::arithmetic::div_mod::lemma_fundamental_div_mod_converse_div(n + w - 1, w, k, r);
}

} // verus!
