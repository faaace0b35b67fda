//! Contrast reduction and the recursive partitioner.
use vstd::prelude::*;
use vstd::arithmetic::div_mod::lemma_fundamental_div_mod;
use crate::buffer::{
    Axis, GrayImage, Region, region_values, lemma_cell_index, cell_index, MAX_INTENSITY,
    MAX_PIXELS,
};
use crate::cut::{best_coord, best_hcut, best_vcut, cut_score, frac_less, frac_lt};
use crate::stats::sum_of;

verus! {

/// A contrast factor, the fraction `num / den`.
///
/// Factors in `(0, 1]` pull pixels toward their region's mean; others are
/// accepted and stretch or flip the deviations.
#[derive(Clone, Copy, PartialEq, Eq, Debug, Structural)]
pub struct Contrast {
    pub num: i32,
    pub den: u32,
}

impl Contrast {
    /// The denominator is positive.
    pub open spec fn wf(self) -> bool {
        self.den >= 1
    }

    /// The factor `num / den`; `None` where `den` is 0.
    pub fn new(num: i32, den: u32) -> (r: Option<Contrast>)
        ensures
            r is Some <==> den >= 1,
            r matches Some(c) ==> c.num == num && c.den == den,
    {
        if den >= 1 {
            Some(Contrast { num, den })
        } else {
            None
        }
    }
}

/// Pixel `p` pulled toward the mean `msum / mcount` by the factor `c`: the
/// real value `m + (p - m) * c` truncated toward zero, then saturated to the
/// range of a 16-bit intensity.
pub open spec fn reduced(p: int, msum: int, mcount: int, c: Contrast) -> int {
    let t = msum * c.den + (p * mcount - msum) * c.num;
    let d = mcount * c.den;
    if t <= 0 {
        0
    } else if t / d > MAX_INTENSITY {
        MAX_INTENSITY as int
    } else {
        t / d
    }
}

/// The buffer `pix`, `w` pixels wide, with every pixel of region `r` pulled
/// toward the mean `msum / mcount` by the factor `c`.
pub open spec fn reduce_region(
    pix: Seq<u16>,
    w: int,
    r: Region,
    msum: int,
    mcount: int,
    c: Contrast,
) -> Seq<u16> {
    Seq::new(
        pix.len(),
        |i: int|
            if r.contains(i % w, i / w) {
                reduced(pix[i] as int, msum, mcount, c) as u16
            } else {
                pix[i]
            },
    )
}

/// A factor of exactly one leaves every pixel as it is.
pub proof fn lemma_unit_contrast_is_identity(
    pix: Seq<u16>,
    w: int,
    r: Region,
    msum: int,
    mcount: int,
    c: Contrast,
)
    requires
        mcount >= 1,
        c.den >= 1,
        c.num == c.den,
    ensures
        reduce_region(pix, w, r, msum, mcount, c) == pix,
{
    assert forall|i: int| 0 <= i < pix.len() implies reduced(
        #[trigger] pix[i] as int,
        msum,
        mcount,
        c,
    ) == pix[i] as int by {
        let p = pix[i] as int;
        let d = mcount * c.den;
        assert(msum * c.den + (p * mcount - msum) * c.num == p * d) by (nonlinear_arith)
            requires
                c.num == c.den,
                d == mcount * c.den,
        ;
        assert(d > 0) by (nonlinear_arith)
            requires
                mcount >= 1,
                c.den >= 1,
                d == mcount * c.den,
        ;
        assert((p * d) / d == p) by (nonlinear_arith)
            requires
                d > 0,
        ;
        if p == 0 {
            assert(p * d == 0) by (nonlinear_arith)
                requires
                    p == 0,
            ;
        } else {
            assert(p * d > 0) by (nonlinear_arith)
                requires
                    p > 0,
                    d > 0,
            ;
        }
    }
    assert(reduce_region(pix, w, r, msum, mcount, c) =~= pix);
}

/// One pixel of contrast reduction, computed exactly.
fn reduce_pixel(p: u16, msum: u64, mcount: u64, c: Contrast) -> (v: u16)
    requires
        1 <= mcount <= MAX_PIXELS,
        msum <= MAX_INTENSITY * mcount,
        c.wf(),
    ensures
        v as int == reduced(p as int, msum as int, mcount as int, c),
{
    let ghost (pi, si, ni, cn, cd) = (
        p as int,
        msum as int,
        mcount as int,
        c.num as int,
        c.den as int,
    );
    proof {
        assert(0 <= si * cd <= 0x1_0000_0000_0000_0000_0000) by (nonlinear_arith)
            requires
                0 <= si <= 0xffff * ni,
                1 <= ni <= 0xffff_ffff,
                1 <= cd <= 0xffff_ffff,
        ;
        assert(0 <= pi * ni <= 0x1_0000_0000_0000) by (nonlinear_arith)
            requires
                0 <= pi <= 0xffff,
                1 <= ni <= 0xffff_ffff,
        ;
        let e = pi * ni - si;
        assert(-0x1_0000_0000_0000_0000_0000 <= e * cn <= 0x1_0000_0000_0000_0000_0000)
            by (nonlinear_arith)
            requires
                -0x1_0000_0000_0000 <= e <= 0x1_0000_0000_0000,
                -0x8000_0000 <= cn <= 0x8000_0000,
        ;
        assert(1 <= ni * cd <= 0xffff_ffff * 0xffff_ffff) by (nonlinear_arith)
            requires
                1 <= ni <= 0xffff_ffff,
                1 <= cd <= 0xffff_ffff,
        ;
    }
    let t: i128 = (msum as i128) * (c.den as i128) + ((p as i128) * (mcount as i128)
        - (msum as i128)) * (c.num as i128);
    if t <= 0 {
        0
    } else {
        let d: u128 = (mcount as u128) * (c.den as u128);
        let q: u128 = (t as u128) / d;
        if q > 0xffff {
            0xffff
        } else {
            q as u16
        }
    }
}

/// Pulls every pixel of region `r` toward the mean `mean_sum / mean_count`
/// by the factor `contrast`; the other pixels keep their values.
pub fn decontrast(
    img: &mut GrayImage,
    r: Region,
    mean_sum: u64,
    mean_count: u64,
    contrast: Contrast,
)
    requires
        old(img).wf(),
        r.within(old(img).width as int, old(img).height as int),
        1 <= mean_count <= MAX_PIXELS,
        mean_sum <= MAX_INTENSITY * mean_count,
        contrast.wf(),
    ensures
        final(img).width == old(img).width,
        final(img).height == old(img).height,
        final(img).pixels@ == reduce_region(
            old(img).pixels@,
            old(img).width as int,
            r,
            mean_sum as int,
            mean_count as int,
            contrast,
        ),
{
    let ghost pix = img.pixels@;
    let ghost w = img.width as int;
    let ghost h = img.height as int;
    let mut j: u32 = 0;
    while j < r.height
        invariant
            img.wf(),
            img.width == w,
            img.height == h,
            pix.len() == img.pixels@.len(),
            r.within(w, h),
            1 <= mean_count <= MAX_PIXELS,
            mean_sum <= MAX_INTENSITY * mean_count,
            contrast.wf(),
            j <= r.height,
            forall|i: int|
                0 <= i < pix.len() ==> #[trigger] img.pixels@[i] == if r.contains(i % w, i / w)
                    && i / w - r.y < j {
                    reduced(pix[i] as int, mean_sum as int, mean_count as int, contrast) as u16
                } else {
                    pix[i]
                },
        decreases r.height - j,
    {
        let mut k: u32 = 0;
        while k < r.width
            invariant
                img.wf(),
                img.width == w,
                img.height == h,
                pix.len() == img.pixels@.len(),
                r.within(w, h),
                1 <= mean_count <= MAX_PIXELS,
                mean_sum <= MAX_INTENSITY * mean_count,
                contrast.wf(),
                j < r.height,
                k <= r.width,
                forall|i: int|
                    0 <= i < pix.len() ==> #[trigger] img.pixels@[i] == if r.contains(i % w, i / w)
                        && (i / w - r.y < j || (i / w - r.y == j && i % w - r.x < k)) {
                        reduced(pix[i] as int, mean_sum as int, mean_count as int, contrast)
                            as u16
                    } else {
                        pix[i]
                    },
            decreases r.width - k,
        {
            let px = r.x + k;
            let py = r.y + j;
            let ghost t = cell_index(w, px as int, py as int);
            proof {
                lemma_cell_index(w, h, px as int, py as int);
            }
            let p = img.get_pixel(px, py);
            let v = reduce_pixel(p, mean_sum, mean_count, contrast);
            let ghost before = img.pixels@;
            img.put_pixel(px, py, v);
            proof {
                assert forall|i: int| 0 <= i < pix.len() && i != t implies (#[trigger] (i % w)
                    != px || i / w != py) by {
                    lemma_fundamental_div_mod(i, w);
                    lemma_fundamental_div_mod(t, w);
                }
            }
            k = k + 1;
        }
        j = j + 1;
    }
    proof {
        assert(img.pixels@ =~= reduce_region(
            pix,
            w,
            r,
            mean_sum as int,
            mean_count as int,
            contrast,
        ));
    }
}

/// The axis of the cut the partitioner applies to region `r`: horizontal
/// where the best horizontal cut scores strictly below the best vertical one,
/// vertical otherwise.
pub open spec fn chosen_axis(pix: Seq<u16>, w: int, r: Region) -> Axis {
    let kh = best_coord(pix, w, r, Axis::Horizontal);
    let kv = best_coord(pix, w, r, Axis::Vertical);
    if frac_lt(cut_score(pix, w, r, Axis::Horizontal, kh), cut_score(pix, w, r, Axis::Vertical, kv)) {
        Axis::Horizontal
    } else {
        Axis::Vertical
    }
}

/// The buffer `pix`, `w` pixels wide, after partitioning region `r` to
/// `depth` levels with the factor `c`. A region narrower or lower than 5
/// pixels, or reached with depth 0, is left as it is. Otherwise it is cut at
/// the best coordinate of the chosen axis; each part in turn, first then
/// second, is pulled toward its own mean (taken before any change) and then
/// partitioned to `depth - 1` levels.
pub open spec fn geometrized(pix: Seq<u16>, w: int, r: Region, depth: nat, c: Contrast) -> Seq<
    u16,
>
    decreases depth,
{
    if depth == 0 || r.width < 5 || r.height < 5 {
        pix
    } else {
        let axis = chosen_axis(pix, w, r);
        let k = best_coord(pix, w, r, axis);
        let a = r.first_part(axis, k);
        let b = r.second_part(axis, k);
        let va = region_values(pix, w, a);
        let vb = region_values(pix, w, b);
        let p1 = reduce_region(pix, w, a, sum_of(va), va.len() as int, c);
        let p2 = geometrized(p1, w, a, (depth - 1) as nat, c);
        let p3 = reduce_region(p2, w, b, sum_of(vb), vb.len() as int, c);
        geometrized(p3, w, b, (depth - 1) as nat, c)
    }
}

/// Partitions region `r` of `img` to `depth` levels with the factor
/// `contrast`.
pub fn geometrize_region(img: &mut GrayImage, r: Region, depth: usize, contrast: Contrast)
    requires
        old(img).wf(),
        r.within(old(img).width as int, old(img).height as int),
        contrast.wf(),
    ensures
        final(img).wf(),
        final(img).width == old(img).width,
        final(img).height == old(img).height,
        final(img).pixels@ == geometrized(
            old(img).pixels@,
            old(img).width as int,
            r,
            depth as nat,
            contrast,
        ),
        depth == 0 || r.width < 5 || r.height < 5 ==> final(img).pixels@ == old(img).pixels@,
        forall|i: int|
            0 <= i < old(img).pixels@.len() && !r.contains(
                i % (old(img).width as int),
                i / (old(img).width as int),
            ) ==> #[trigger] final(img).pixels@[i] == old(img).pixels@[i],
    decreases depth,
{
    if depth == 0 || r.width < 5 || r.height < 5 {
        return;
    }
    let hcut = best_hcut(img, r);
    let vcut = best_vcut(img, r);
    let (axis, cut) = if frac_less(hcut.score_num, hcut.score_den, vcut.score_num, vcut.score_den) {
        (Axis::Horizontal, hcut)
    } else {
        (Axis::Vertical, vcut)
    };
    let (a, b) = r.split(axis, cut.coord);
    let ghost w = img.width as int;
    let ghost s0 = img.pixels@;
    decontrast(img, a, cut.first.sum, cut.first.count, contrast);
    let ghost s1 = img.pixels@;
    geometrize_region(img, a, depth - 1, contrast);
    let ghost s2 = img.pixels@;
    decontrast(img, b, cut.second.sum, cut.second.count, contrast);
    let ghost s3 = img.pixels@;
    geometrize_region(img, b, depth - 1, contrast);
    proof {
        assert forall|i: int|
            0 <= i < s0.len() && !r.contains(i % w, i / w) implies #[trigger] img.pixels@[i]
            == s0[i] by {
            assert(!a.contains(i % w, i / w) && !b.contains(i % w, i / w));
            assert(s1[i] == s0[i]);
            assert(s2[i] == s1[i]);
            assert(s3[i] == s2[i]);
        }
    }
}

/// Partitions the whole of `img` to `depth` levels with the factor
/// `contrast`.
pub fn geometrize(img: &mut GrayImage, depth: usize, contrast: Contrast)
    requires
        old(img).wf(),
        contrast.wf(),
    ensures
        final(img).wf(),
        final(img).width == old(img).width,
        final(img).height == old(img).height,
        final(img).pixels@ == geometrized(
            old(img).pixels@,
            old(img).width as int,
            Region { x: 0, y: 0, width: old(img).width, height: old(img).height },
            depth as nat,
            contrast,
        ),
{
    let r = img.full_region();
    geometrize_region(img, r, depth, contrast);
}

} // verus!
