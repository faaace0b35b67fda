//! Scoring of cuts and the search for the best cut along an axis.
use vstd::prelude::*;
use vstd::arithmetic::div_mod::{lemma_fundamental_div_mod, lemma_mod_pos_bound};
use crate::buffer::{Axis, GrayImage, Region, region_values, MAX_INTENSITY, MAX_PIXELS};
use crate::stats::{Stats, region_stats, sum_of, sum_sq_of, lemma_spread_is_squared_deviation};

verus! {

/// The fraction `x.0 / x.1` is below `y.0 / y.1` (both denominators positive).
pub open spec fn frac_lt(x: (int, int), y: (int, int)) -> bool {
    x.0 * y.1 < y.0 * x.1
}

/// Score of splitting a region into parts of values `a` and `b`, as the
/// fraction `num / den`: the variance of each part weighted by its size along
/// the cut axis, summed, over the region's extent along that axis. With
/// `n` the part sizes and `spread = n * sum_sq - sum^2`, this is
/// `(n_b * spread_a + n_a * spread_b) / (n_a * n_b * (n_a + n_b))`.
pub open spec fn score_of(a: Seq<int>, b: Seq<int>) -> (int, int) {
    let na = a.len() as int;
    let nb = b.len() as int;
    (
        nb * (na * sum_sq_of(a) - sum_of(a) * sum_of(a)) + na * (nb * sum_sq_of(b) - sum_of(b)
            * sum_of(b)),
        na * nb * (na + nb),
    )
}

/// Compares the fractions `a / b` and `c / d` exactly, without forming the
/// cross products: equal integer parts pass the question on to the remainders.
pub fn frac_less(a: u128, b: u128, c: u128, d: u128) -> (r: bool)
    requires
        b > 0,
        d > 0,
    ensures
        r == frac_lt((a as int, b as int), (c as int, d as int)),
    decreases b + d,
{
    let q1 = a / b;
    let r1 = a % b;
    let q2 = c / d;
    let r2 = c % d;
    proof {
        lemma_fundamental_div_mod(a as int, b as int);
        lemma_fundamental_div_mod(c as int, d as int);
        lemma_mod_pos_bound(a as int, b as int);
        lemma_mod_pos_bound(c as int, d as int);
    }
    let ghost ai = a as int;
    let ghost bi = b as int;
    let ghost ci = c as int;
    let ghost di = d as int;
    let ghost lt = ai * di < ci * bi;
    assert(ai == bi * (q1 as int) + r1 as int);
    assert(ci == di * (q2 as int) + r2 as int);
    assert(0 <= r1 < b && 0 <= r2 < d);
    if q1 != q2 {
        proof {
            let (q1, q2, r1, r2) = (q1 as int, q2 as int, r1 as int, r2 as int);
            if q1 < q2 {
                assert(ai * di < ci * bi) by (nonlinear_arith)
                    requires
                        ai == bi * q1 + r1,
                        ci == di * q2 + r2,
                        0 <= r1 < bi,
                        0 <= r2,
                        q1 + 1 <= q2,
                        di > 0,
                ;
            } else {
                assert(ci * bi < ai * di) by (nonlinear_arith)
                    requires
                        ai == bi * q1 + r1,
                        ci == di * q2 + r2,
                        0 <= r2 < di,
                        0 <= r1,
                        q2 + 1 <= q1,
                        bi > 0,
                ;
            }
        }
        assert((q1 < q2) == lt);
        q1 < q2
    } else {
        proof {
            let (q, r1, r2) = (q1 as int, r1 as int, r2 as int);
            assert(lt == (di * r1 < bi * r2)) by (nonlinear_arith)
                requires
                    ai == bi * q + r1,
                    ci == di * q + r2,
                    lt == (ai * di < ci * bi),
            ;
            assert(di * r1 >= 0 && bi * r2 >= 0) by (nonlinear_arith)
                requires
                    r1 >= 0,
                    r2 >= 0,
                    bi > 0,
                    di > 0,
            ;
            if r2 > 0 {
                assert(bi * r2 > 0) by (nonlinear_arith)
                    requires
                        r2 > 0,
                        bi > 0,
                ;
            }
        }
        if r2 == 0 {
            assert(!lt);
            false
        } else if r1 == 0 {
            assert(lt);
            true
        } else {
            let x = frac_less(d, r2, b, r1);
            assert(x == lt);
            x
        }
    }
}

/// Exact score of two parts from their statistics: the numerator and
/// denominator of `score_of`.
fn score_parts(a: Stats, b: Stats) -> (r: (u128, u128))
    requires
        a.count >= 1,
        b.count >= 1,
        a.count + b.count <= MAX_PIXELS,
        a.sum <= MAX_INTENSITY * a.count,
        b.sum <= MAX_INTENSITY * b.count,
        a.sum_sq <= MAX_INTENSITY * MAX_INTENSITY * a.count,
        b.sum_sq <= MAX_INTENSITY * MAX_INTENSITY * b.count,
        a.spread() >= 0,
        b.spread() >= 0,
    ensures
        r.0 == b.count * a.spread() + a.count * b.spread(),
        r.1 == a.count * b.count * (a.count + b.count),
{
    let ghost m: int = MAX_INTENSITY as int;
    let ghost na: int = a.count as int;
    let ghost nb: int = b.count as int;
    let ghost n: int = na + nb;
    proof {
        assert(na * a.sum_sq <= m * m * na * na && a.sum * a.sum <= na * a.sum_sq) by (nonlinear_arith)
            requires
                a.sum_sq <= m * m * na,
                na >= 0,
                na * a.sum_sq - a.sum * a.sum >= 0,
        ;
        assert(nb * b.sum_sq <= m * m * nb * nb && b.sum * b.sum <= nb * b.sum_sq) by (nonlinear_arith)
            requires
                b.sum_sq <= m * m * nb,
                nb >= 0,
                nb * b.sum_sq - b.sum * b.sum >= 0,
        ;
        assert(m * m * na * na <= 0x1_0000_0000_0000_0000_0000_0000 && m * m * nb * nb
            <= 0x1_0000_0000_0000_0000_0000_0000) by (nonlinear_arith)
            requires
                m == 0xffff,
                0 <= na <= 0xffff_ffff,
                0 <= nb <= 0xffff_ffff,
        ;
    }
    let pa: u128 = (a.count as u128) * a.sum_sq - (a.sum as u128) * (a.sum as u128);
    let pb: u128 = (b.count as u128) * b.sum_sq - (b.sum as u128) * (b.sum as u128);
    proof {
        let (pa, pb) = (pa as int, pb as int);
        assert(4 * na * nb <= n * n) by (nonlinear_arith)
            requires
                n == na + nb,
        ;
        assert(na * nb * n * 4 <= n * n * n) by (nonlinear_arith)
            requires
                4 * na * nb <= n * n,
                n >= 0,
        ;
        assert(n * n * n <= 0xffff_ffff * 0xffff_ffff * 0xffff_ffff) by (nonlinear_arith)
            requires
                0 <= n <= 0xffff_ffff,
        ;
        assert(nb * pa + na * pb <= m * m * (na * nb * n)) by (nonlinear_arith)
            requires
                0 <= pa <= m * m * na * na,
                0 <= pb <= m * m * nb * nb,
                na >= 0,
                nb >= 0,
                n == na + nb,
        ;
        assert(m * m * (na * nb * n) <= 0xffff * 0xffff * (0xffff_ffff * 0xffff_ffff * 0xffff_ffff
            / 4)) by (nonlinear_arith)
            requires
                m == 0xffff,
                na * nb * n * 4 <= 0xffff_ffff * 0xffff_ffff * 0xffff_ffff,
                na * nb * n >= 0,
        ;
        assert(na * nb * n <= 0xffff_ffff * 0xffff_ffff * 0xffff_ffff / 4);
        assert(nb * pa >= 0 && na * pb >= 0) by (nonlinear_arith)
            requires
                pa >= 0,
                pb >= 0,
                na >= 0,
                nb >= 0,
        ;
        assert(na * nb >= 0 && na * nb <= na * nb * n) by (nonlinear_arith)
            requires
                na >= 1,
                nb >= 1,
                n == na + nb,
        ;
    }
    let na_ = a.count as u128;
    let nb_ = b.count as u128;
    let num = nb_ * pa + na_ * pb;
    let den = na_ * nb_ * (na_ + nb_);
    (num, den)
}

/// Score of the cut at `k` along `axis` of region `r` of the row-major
/// buffer `pix`, `w` pixels wide.
pub open spec fn cut_score(pix: Seq<u16>, w: int, r: Region, axis: Axis, k: int) -> (int, int) {
    score_of(
        region_values(pix, w, r.first_part(axis, k)),
        region_values(pix, w, r.second_part(axis, k)),
    )
}

/// The first coordinate in `[1, k)` whose cut has the lowest score.
pub open spec fn best_coord_below(pix: Seq<u16>, w: int, r: Region, axis: Axis, k: int) -> int
    decreases k,
{
    if k <= 2 {
        1
    } else {
        let b = best_coord_below(pix, w, r, axis, k - 1);
        if frac_lt(cut_score(pix, w, r, axis, k - 1), cut_score(pix, w, r, axis, b)) {
            k - 1
        } else {
            b
        }
    }
}

/// The first interior coordinate whose cut along `axis` has the lowest score.
pub open spec fn best_coord(pix: Seq<u16>, w: int, r: Region, axis: Axis) -> int {
    best_coord_below(pix, w, r, axis, r.extent(axis) - 1)
}

/// A cut of region `r`: its coordinate along the axis, the statistics of its
/// two parts, and its score `score_num / score_den`.
#[derive(Clone, Copy, PartialEq, Eq, Debug, Structural)]
pub struct Cut {
    pub coord: u32,
    pub first: Stats,
    pub second: Stats,
    pub score_num: u128,
    pub score_den: u128,
}

impl Cut {
    /// The score as a fraction.
    pub open spec fn score(self) -> (int, int) {
        (self.score_num as int, self.score_den as int)
    }

    /// Both parts hold at least one pixel, and their sums are those of
    /// 16-bit intensities.
    pub open spec fn wf(self) -> bool {
        &&& 1 <= self.first.count <= MAX_PIXELS
        &&& 1 <= self.second.count <= MAX_PIXELS
        &&& self.first.sum <= MAX_INTENSITY * self.first.count
        &&& self.second.sum <= MAX_INTENSITY * self.second.count
    }

    /// This is the cut at `coord` along `axis` of region `r` of `pix`.
    pub open spec fn is_cut_of(self, pix: Seq<u16>, w: int, r: Region, axis: Axis) -> bool {
        &&& self.first.describes(region_values(pix, w, r.first_part(axis, self.coord as int)))
        &&& self.second.describes(region_values(pix, w, r.second_part(axis, self.coord as int)))
        &&& self.score() == cut_score(pix, w, r, axis, self.coord as int)
    }
}

/// The two parts of an interior cut are non-empty and share out the region's
/// pixels.
pub(crate) proof fn lemma_part_areas(r: Region, axis: Axis, k: int)
    requires
        1 <= k < r.extent(axis),
        r.width >= 1,
        r.height >= 1,
    ensures
        r.first_part(axis, k).area() >= 1,
        r.second_part(axis, k).area() >= 1,
        r.first_part(axis, k).area() + r.second_part(axis, k).area() == r.area(),
{
    let (wd, ht) = (r.width as int, r.height as int);
    match axis {
        Axis::Horizontal => {
            assert(wd * k >= 1 && wd * (ht - k) >= 1 && wd * k + wd * (ht - k) == wd * ht)
                by (nonlinear_arith)
                requires
                    wd >= 1,
                    1 <= k < ht,
            ;
        },
        Axis::Vertical => {
            assert(k * ht >= 1 && (wd - k) * ht >= 1 && k * ht + (wd - k) * ht == wd * ht)
                by (nonlinear_arith)
                requires
                    ht >= 1,
                    1 <= k < wd,
            ;
        },
    }
}

/// Every interior cut of a non-empty region has a positive score denominator.
proof fn lemma_cut_score_den_positive(pix: Seq<u16>, w: int, r: Region, axis: Axis, k: int)
    requires
        1 <= k < r.extent(axis),
        r.width >= 1,
        r.height >= 1,
    ensures
        cut_score(pix, w, r, axis, k).1 > 0,
{
    lemma_part_areas(r, axis, k);
    let na = r.first_part(axis, k).area();
    let nb = r.second_part(axis, k).area();
    assert(na * nb * (na + nb) > 0) by (nonlinear_arith)
        requires
            na > 0,
            nb > 0,
    ;
}

proof fn lemma_frac_lt_trans(x: (int, int), y: (int, int), z: (int, int))
    requires
        x.1 > 0,
        y.1 > 0,
        z.1 > 0,
        frac_lt(x, y),
        !frac_lt(z, y),
    ensures
        frac_lt(x, z),
{
    assert(x.0 * y.1 * z.1 < y.0 * x.1 * z.1) by (nonlinear_arith)
        requires
            x.0 * y.1 < y.0 * x.1,
            z.1 > 0,
    ;
    assert(y.0 * z.1 * x.1 <= z.0 * y.1 * x.1) by (nonlinear_arith)
        requires
            y.0 * z.1 <= z.0 * y.1,
            x.1 > 0,
    ;
    assert(x.0 * z.1 < z.0 * x.1) by (nonlinear_arith)
        requires
            x.0 * y.1 * z.1 < y.0 * x.1 * z.1,
            y.0 * z.1 * x.1 <= z.0 * y.1 * x.1,
            y.1 > 0,
    ;
}

/// The search over `[1, k)` keeps the first coordinate of lowest score.
proof fn lemma_best_coord_below(pix: Seq<u16>, w: int, r: Region, axis: Axis, k: int)
    requires
        2 <= k <= r.extent(axis),
        r.width >= 1,
        r.height >= 1,
    ensures
        1 <= best_coord_below(pix, w, r, axis, k) < k,
        forall|j: int|
            1 <= j < k ==> !frac_lt(
                #[trigger] cut_score(pix, w, r, axis, j),
                cut_score(pix, w, r, axis, best_coord_below(pix, w, r, axis, k)),
            ),
        forall|j: int|
            1 <= j < best_coord_below(pix, w, r, axis, k) ==> frac_lt(
                cut_score(pix, w, r, axis, best_coord_below(pix, w, r, axis, k)),
                #[trigger] cut_score(pix, w, r, axis, j),
            ),
    decreases k,
{
    if k > 2 {
        lemma_best_coord_below(pix, w, r, axis, k - 1);
        let b = best_coord_below(pix, w, r, axis, k - 1);
        let cb = cut_score(pix, w, r, axis, b);
        let ck = cut_score(pix, w, r, axis, k - 1);
        if frac_lt(ck, cb) {
            assert forall|j: int| 1 <= j < k - 1 implies frac_lt(
                ck,
                #[trigger] cut_score(pix, w, r, axis, j),
            ) by {
                lemma_cut_score_den_positive(pix, w, r, axis, j);
                lemma_cut_score_den_positive(pix, w, r, axis, b);
                lemma_cut_score_den_positive(pix, w, r, axis, k - 1);
                lemma_frac_lt_trans(ck, cb, cut_score(pix, w, r, axis, j));
            }
        }
    }
}

/// Exhaustive search, first minimum: no interior cut along `axis` scores
/// below the chosen one, and every cut before it scores strictly above it,
/// so of two coordinates with equal scores the lower one is chosen.
pub proof fn lemma_best_coord_is_first_minimum(pix: Seq<u16>, w: int, r: Region, axis: Axis)
    requires
        r.extent(axis) >= 3,
        r.width >= 1,
        r.height >= 1,
    ensures
        1 <= best_coord(pix, w, r, axis) < r.extent(axis) - 1,
        forall|j: int|
            1 <= j < r.extent(axis) - 1 ==> !frac_lt(
                #[trigger] cut_score(pix, w, r, axis, j),
                cut_score(pix, w, r, axis, best_coord(pix, w, r, axis)),
            ),
        forall|j: int|
            1 <= j < best_coord(pix, w, r, axis) ==> frac_lt(
                cut_score(pix, w, r, axis, best_coord(pix, w, r, axis)),
                #[trigger] cut_score(pix, w, r, axis, j),
            ),
{
    lemma_best_coord_below(pix, w, r, axis, r.extent(axis) - 1);
}

/// Evaluates the cut at `k` along `axis` of region `r`.
pub fn evaluate_cut(img: &GrayImage, r: Region, axis: Axis, k: u32) -> (c: Cut)
    requires
        img.wf(),
        r.within(img.width as int, img.height as int),
        1 <= k < r.extent(axis),
        r.width >= 1,
        r.height >= 1,
    ensures
        c.coord == k,
        c.is_cut_of(img.pixels@, img.width as int, r, axis),
        c.wf(),
        c.score_den > 0,
{
    let (a, b) = r.split(axis, k);
    let sa = region_stats(img, a);
    let sb = region_stats(img, b);
    proof {
        let ghost pix = img.pixels@;
        let ghost w = img.width as int;
        lemma_spread_is_squared_deviation(region_values(pix, w, a));
        lemma_spread_is_squared_deviation(region_values(pix, w, b));
        lemma_cut_score_den_positive(pix, w, r, axis, k as int);
        lemma_part_areas(r, axis, k as int);
        assert(r.width * r.height <= img.width * img.height) by (nonlinear_arith)
            requires
                r.width <= img.width,
                r.height <= img.height,
        ;
        assert(a.area() + b.area() == r.area());
    }
    let (num, den) = score_parts(sa, sb);
    Cut { coord: k, first: sa, second: sb, score_num: num, score_den: den }
}

/// The best cut along `axis`: of all interior coordinates `k` in
/// `[1, extent - 1)`, the first one whose score is lowest.
pub fn best_cut(img: &GrayImage, r: Region, axis: Axis) -> (c: Cut)
    requires
        img.wf(),
        r.within(img.width as int, img.height as int),
        r.extent(axis) >= 3,
        r.width >= 1,
        r.height >= 1,
    ensures
        c.coord == best_coord(img.pixels@, img.width as int, r, axis),
        c.is_cut_of(img.pixels@, img.width as int, r, axis),
        c.wf(),
        c.score_den > 0,
        1 <= c.coord < r.extent(axis) - 1,
        forall|j: int|
            1 <= j < r.extent(axis) - 1 ==> !frac_lt(
                #[trigger] cut_score(img.pixels@, img.width as int, r, axis, j),
                c.score(),
            ),
        forall|j: int|
            1 <= j < c.coord ==> frac_lt(
                c.score(),
                #[trigger] cut_score(img.pixels@, img.width as int, r, axis, j),
            ),
{
    let ghost pix = img.pixels@;
    let ghost w = img.width as int;
    let extent = match axis {
        Axis::Horizontal => r.height,
        Axis::Vertical => r.width,
    };
    let mut best = evaluate_cut(img, r, axis, 1);
    let mut k: u32 = 2;
    while k < extent - 1
        invariant
            img.wf(),
            r.within(img.width as int, img.height as int),
            pix == img.pixels@,
            w == img.width as int,
            extent == r.extent(axis),
            extent >= 3,
            r.width >= 1,
            r.height >= 1,
            2 <= k <= extent - 1,
            best.coord == best_coord_below(pix, w, r, axis, k as int),
            best.is_cut_of(pix, w, r, axis),
            best.wf(),
            best.score_den > 0,
        decreases extent - k,
    {
        let cand = evaluate_cut(img, r, axis, k);
        if frac_less(cand.score_num, cand.score_den, best.score_num, best.score_den) {
            best = cand;
        }
        k = k + 1;
    }
    proof {
        lemma_best_coord_is_first_minimum(pix, w, r, axis);
    }
    best
}

/// The best cut between two rows of region `r`.
pub fn best_hcut(img: &GrayImage, r: Region) -> (c: Cut)
    requires
        img.wf(),
        r.within(img.width as int, img.height as int),
        r.width >= 1,
        r.height >= 3,
    ensures
        c.coord == best_coord(img.pixels@, img.width as int, r, Axis::Horizontal),
        c.is_cut_of(img.pixels@, img.width as int, r, Axis::Horizontal),
        c.wf(),
        c.score_den > 0,
        1 <= c.coord < r.height - 1,
{
    best_cut(img, r, Axis::Horizontal)
}

/// The best cut between two columns of region `r`.
pub fn best_vcut(img: &GrayImage, r: Region) -> (c: Cut)
    requires
        img.wf(),
        r.within(img.width as int, img.height as int),
        r.width >= 3,
        r.height >= 1,
    ensures
        c.coord == best_coord(img.pixels@, img.width as int, r, Axis::Vertical),
        c.is_cut_of(img.pixels@, img.width as int, r, Axis::Vertical),
        c.wf(),
        c.score_den > 0,
        1 <= c.coord < r.width - 1,
{
    best_cut(img, r, Axis::Vertical)
}

} // verus!
