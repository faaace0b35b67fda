//! The global intensity stretch applied after partitioning.
use vstd::prelude::*;
use crate::buffer::{GrayImage, MAX_INTENSITY};

verus! {

/// Smallest value of `s` (0 for an empty sequence).
pub open spec fn seq_min(s: Seq<u16>) -> int
    decreases s.len(),
{
    if s.len() == 0 {
        0
    } else if s.len() == 1 {
        s[0] as int
    } else {
        let m = seq_min(s.drop_last());
        if (s.last() as int) < m {
            s.last() as int
        } else {
            m
        }
    }
}

/// Largest value of `s` (0 for an empty sequence).
pub open spec fn seq_max(s: Seq<u16>) -> int
    decreases s.len(),
{
    if s.len() == 0 {
        0
    } else if s.len() == 1 {
        s[0] as int
    } else {
        let m = seq_max(s.drop_last());
        if (s.last() as int) > m {
            s.last() as int
        } else {
            m
        }
    }
}

/// Intensity `p` mapped affinely from `[lo, hi]` onto the full 16-bit range,
/// rounded down; where `hi == lo` nothing can be stretched and `p` stays.
pub open spec fn stretched(p: int, lo: int, hi: int) -> int {
    if hi <= lo {
        p
    } else {
        (p - lo) * MAX_INTENSITY / (hi - lo)
    }
}

/// Stretches the intensities of `img` linearly so that its darkest pixel
/// becomes 0 and its brightest 65535; an image of a single intensity is left
/// as it is.
pub fn image_expand_luma(img: &mut GrayImage)
    requires
        old(img).wf(),
    ensures
        final(img).width == old(img).width,
        final(img).height == old(img).height,
        final(img).pixels@.len() == old(img).pixels@.len(),
        forall|i: int|
            0 <= i < old(img).pixels@.len() ==> #[trigger] final(img).pixels@[i] as int == stretched(
                old(img).pixels@[i] as int,
                seq_min(old(img).pixels@),
                seq_max(old(img).pixels@),
            ),
{
    let ghost pix = img.pixels@;
    let n = img.pixels.len();
    if n == 0 {
        return;
    }
    let mut lo: u16 = img.pixels[0];
    let mut hi: u16 = img.pixels[0];
    let mut i: usize = 1;
    while i < n
        invariant
            pix == img.pixels@,
            n == pix.len(),
            1 <= i <= n,
            lo == seq_min(pix.take(i as int)),
            hi == seq_max(pix.take(i as int)),
            forall|j: int| 0 <= j < i ==> lo <= #[trigger] pix[j] <= hi,
        decreases n - i,
    {
        proof {
            assert(pix.take(i as int + 1).drop_last() =~= pix.take(i as int));
        }
        let p = img.pixels[i];
        if p < lo {
            lo = p;
        }
        if p > hi {
            hi = p;
        }
        i = i + 1;
    }
    proof {
        assert(pix.take(n as int) =~= pix);
    }
    let mut i: usize = 0;
    while i < n
        invariant
            img.wf(),
            img.width == old(img).width,
            img.height == old(img).height,
            n == pix.len(),
            n == img.pixels@.len(),
            i <= n,
            lo == seq_min(pix),
            hi == seq_max(pix),
            forall|j: int| 0 <= j < n ==> lo <= #[trigger] pix[j] <= hi,
            forall|j: int|
                0 <= j < n ==> #[trigger] img.pixels@[j] as int == if j < i {
                    stretched(pix[j] as int, lo as int, hi as int)
                } else {
                    pix[j] as int
                },
        decreases n - i,
    {
        if hi > lo {
            let p = img.pixels[i];
            let ghost (pi, li, hi_) = (p as int, lo as int, hi as int);
            proof {
                assert(pix[i as int] == p);
                assert(0 <= (pi - li) * 0xffff <= (hi_ - li) * 0xffff) by (nonlinear_arith)
                    requires
                        li <= pi <= hi_,
                ;
                assert((pi - li) * 0xffff / (hi_ - li) <= 0xffff) by (nonlinear_arith)
                    requires
                        0 <= (pi - li) * 0xffff <= (hi_ - li) * 0xffff,
                        hi_ - li > 0,
                ;
            }
            let v: u32 = ((p - lo) as u32) * 0xffff / ((hi - lo) as u32);
            img.pixels.set(i, v as u16);
        }
        i = i + 1;
    }
}

} // verus!
