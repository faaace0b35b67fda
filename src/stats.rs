//! Exact statistics of the pixels of a region.
use vstd::prelude::*;
use vstd::arithmetic::div_mod::lemma_fundamental_div_mod_converse;
use crate::buffer::{GrayImage, Region, region_values, MAX_INTENSITY, MAX_PIXELS};

verus! {

/// Sum of the values of `s`.
pub open spec fn sum_of(s: Seq<int>) -> int
    decreases s.len(),
{
    if s.len() == 0 {
        0
    } else {
        sum_of(s.drop_last()) + s.last()
    }
}

/// Sum of the squares of the values of `s`.
pub open spec fn sum_sq_of(s: Seq<int>) -> int
    decreases s.len(),
{
    if s.len() == 0 {
        0
    } else {
        sum_sq_of(s.drop_last()) + s.last() * s.last()
    }
}

/// Sum of `(a * v - b)^2` over the values `v` of `s`.
pub open spec fn sum_sq_dev(s: Seq<int>, a: int, b: int) -> int
    decreases s.len(),
{
    if s.len() == 0 {
        0
    } else {
        sum_sq_dev(s.drop_last(), a, b) + (a * s.last() - b) * (a * s.last() - b)
    }
}

/// Count, sum and sum of squares of a set of intensities.
///
/// The mean is `sum / count` and the population variance is
/// `spread() / count^2`, both as exact fractions.
#[derive(Clone, Copy, PartialEq, Eq, Debug, Structural)]
pub struct Stats {
    pub count: u64,
    pub sum: u64,
    pub sum_sq: u128,
}

impl Stats {
    /// The statistics are those of the values `s`.
    pub open spec fn describes(self, s: Seq<int>) -> bool {
        &&& self.count == s.len()
        &&& self.sum == sum_of(s)
        &&& self.sum_sq == sum_sq_of(s)
    }

    /// `count^2` times the population variance.
    pub open spec fn spread(self) -> int {
        self.count * self.sum_sq - self.sum * self.sum
    }
}

/// The square deviations from the mean, scaled by `n = s.len()`, add up to
/// `n * (n * sum_sq - sum^2)`: so `(n * sum_sq - sum^2) / n^2` is the mean
/// of the squared deviations from the mean, and it is never negative.
pub proof fn lemma_spread_is_squared_deviation(s: Seq<int>)
    ensures
        sum_sq_dev(s, s.len() as int, sum_of(s)) == s.len() * (s.len() * sum_sq_of(s) - sum_of(s)
            * sum_of(s)),
        s.len() * sum_sq_of(s) - sum_of(s) * sum_of(s) >= 0,
{
    let n = s.len() as int;
    let t = sum_of(s);
    lemma_sq_dev_expand(s, n, t);
    lemma_sq_dev_nonneg(s, n, t);
    let q = sum_sq_of(s);
    assert(n * (n * q - t * t) == n * n * q - 2 * n * t * t + t * t * n) by (nonlinear_arith);
    if n > 0 {
        assert(n * q - t * t >= 0) by (nonlinear_arith)
            requires
                n > 0,
                n * (n * q - t * t) >= 0,
        ;
    } else {
        assert(s.len() == 0);
    }
}

proof fn lemma_sq_dev_expand(s: Seq<int>, a: int, b: int)
    ensures
        sum_sq_dev(s, a, b) == a * a * sum_sq_of(s) - 2 * a * b * sum_of(s) + b * b * s.len(),
    decreases s.len(),
{
    if s.len() > 0 {
        let t = s.drop_last();
        lemma_sq_dev_expand(t, a, b);
        let p = s.last();
        let d0 = sum_sq_dev(t, a, b);
        let q0 = sum_sq_of(t);
        let s0 = sum_of(t);
        let n0 = t.len() as int;
        assert(d0 + (a * p - b) * (a * p - b) == a * a * (q0 + p * p) - 2 * a * b * (s0 + p) + b * b
            * (n0 + 1)) by (nonlinear_arith)
            requires
                d0 == a * a * q0 - 2 * a * b * s0 + b * b * n0,
        ;
    }
}

proof fn lemma_sq_dev_nonneg(s: Seq<int>, a: int, b: int)
    ensures
        sum_sq_dev(s, a, b) >= 0,
    decreases s.len(),
{
    if s.len() > 0 {
        lemma_sq_dev_nonneg(s.drop_last(), a, b);
        let d = a * s.last() - b;
        assert(d * d >= 0) by (nonlinear_arith);
    }
}

/// A region of constant intensity `c` has mean `c` and variance 0.
pub proof fn lemma_constant_stats(s: Seq<int>, c: int)
    requires
        forall|i: int| 0 <= i < s.len() ==> s[i] == c,
    ensures
        sum_of(s) == c * s.len(),
        sum_sq_of(s) == c * c * s.len(),
        s.len() * sum_sq_of(s) - sum_of(s) * sum_of(s) == 0,
    decreases s.len(),
{
    if s.len() > 0 {
        let t = s.drop_last();
        lemma_constant_stats(t, c);
        let n = s.len() as int;
        assert(c * (n - 1) + c == c * n) by (nonlinear_arith);
        assert(c * c * (n - 1) + c * c == c * c * n) by (nonlinear_arith);
    }
    let n = s.len() as int;
    assert(n * (c * c * n) - (c * n) * (c * n) == 0) by (nonlinear_arith);
}

/// Statistics of the pixels of region `r` of `img`.
pub fn region_stats(img: &GrayImage, r: Region) -> (st: Stats)
    requires
        img.wf(),
        r.within(img.width as int, img.height as int),
    ensures
        st.describes(region_values(img.pixels@, img.width as int, r)),
        st.count <= MAX_PIXELS,
        st.sum <= MAX_INTENSITY * st.count,
        st.sum_sq <= MAX_INTENSITY * MAX_INTENSITY * st.count,
{
    let ghost vals = region_values(img.pixels@, img.width as int, r);
    assert((r.width as int) * (r.height as int) <= (img.width as int) * (img.height as int))
        by (nonlinear_arith)
        requires
            r.width <= img.width,
            r.height <= img.height,
    ;
    let mut count: u64 = 0;
    let mut sum: u64 = 0;
    let mut sum_sq: u128 = 0;
    let mut j: u32 = 0;
    while j < r.height
        invariant
            img.wf(),
            r.within(img.width as int, img.height as int),
            vals == region_values(img.pixels@, img.width as int, r),
            vals.len() <= MAX_PIXELS,
            j <= r.height,
            count == j * r.width,
            sum == sum_of(vals.take(count as int)),
            sum_sq == sum_sq_of(vals.take(count as int)),
            sum <= MAX_INTENSITY * count,
            sum_sq <= MAX_INTENSITY * MAX_INTENSITY * count,
        decreases r.height - j,
    {
        let mut k: u32 = 0;
        while k < r.width
            invariant
                img.wf(),
                r.within(img.width as int, img.height as int),
                vals == region_values(img.pixels@, img.width as int, r),
                vals.len() <= MAX_PIXELS,
                j < r.height,
                k <= r.width,
                count == j * r.width + k,
                sum == sum_of(vals.take(count as int)),
                sum_sq == sum_sq_of(vals.take(count as int)),
                sum <= MAX_INTENSITY * count,
                sum_sq <= MAX_INTENSITY * MAX_INTENSITY * count,
            decreases r.width - k,
        {
            let p = img.get_pixel(r.x + k, r.y + j);
            proof {
                let n = count as int;
                let w = r.width as int;
                assert(j * w + k < w * r.height) by (nonlinear_arith)
                    requires
                        j < r.height,
                        k < w,
                ;
                lemma_fundamental_div_mod_converse(n, w, j as int, k as int);
                assert(n + 1 <= vals.len());
                assert(vals[n] == p as int);
                assert(vals.take(n + 1).drop_last() =~= vals.take(n));
            }
            let pv = p as u64;
            assert(pv * pv <= MAX_INTENSITY * MAX_INTENSITY) by (nonlinear_arith)
                requires
                    pv <= MAX_INTENSITY,
            ;
            assert(sum_sq + pv * pv <= MAX_INTENSITY * MAX_INTENSITY * (count + 1)) by (nonlinear_arith)
                requires
                    sum_sq <= MAX_INTENSITY * MAX_INTENSITY * count,
                    pv * pv <= MAX_INTENSITY * MAX_INTENSITY,
            ;
            assert(MAX_INTENSITY * MAX_INTENSITY * (count + 1) <= u128::MAX) by (nonlinear_arith)
                requires
                    count < MAX_PIXELS,
            ;
            count = count + 1;
            sum = sum + pv;
            sum_sq = sum_sq + (pv as u128) * (pv as u128);
            k = k + 1;
        }
        assert(count == (j + 1) * r.width) by (nonlinear_arith)
            requires
                count == j * r.width + r.width,
        ;
        j = j + 1;
    }
    proof {
        assert(count == vals.len()) by (nonlinear_arith)
            requires
                count == r.height * r.width,
                vals.len() == r.width * r.height,
        ;
        assert(vals.take(count as int) =~= vals);
    }
    Stats { count, sum, sum_sq }
}

} // verus!
