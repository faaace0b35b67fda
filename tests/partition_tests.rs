use geometrize::buffer::{Axis, GrayImage, Region};
use geometrize::cut::{best_cut, best_hcut, best_vcut, evaluate_cut, frac_less};
use geometrize::partition::{decontrast, geometrize, geometrize_region, Contrast};
use geometrize::stats::region_stats;
use geometrize::stretch::image_expand_luma;

fn image(width: u32, height: u32, f: impl Fn(u32, u32) -> u16) -> GrayImage {
    let mut pixels = Vec::new();
    for y in 0..height {
        for x in 0..width {
            pixels.push(f(x, y));
        }
    }
    GrayImage::from_raw(width, height, pixels).unwrap()
}

fn half() -> Contrast {
    Contrast::new(1, 2).unwrap()
}

#[test]
fn constant_region_has_its_value_as_mean_and_no_variance() {
    let img = image(7, 5, |_, _| 1234);
    let r = Region { x: 1, y: 1, width: 4, height: 3 };
    let st = region_stats(&img, r);
    assert_eq!(st.count, 12);
    assert_eq!(st.sum, 1234 * 12);
    assert_eq!(st.sum_sq, 1234 * 1234 * 12);
    assert_eq!(st.count as u128 * st.sum_sq - (st.sum as u128) * (st.sum as u128), 0);
}

#[test]
fn stats_of_a_small_region() {
    let img = image(3, 2, |x, y| (x + 3 * y) as u16);
    let st = region_stats(&img, Region { x: 1, y: 0, width: 2, height: 2 });
    // pixels 1, 2, 4, 5
    assert_eq!(st.count, 4);
    assert_eq!(st.sum, 12);
    assert_eq!(st.sum_sq, 1 + 4 + 16 + 25);
}

#[test]
fn cut_parts_are_disjoint_and_cover_the_region() {
    let r = Region { x: 2, y: 3, width: 5, height: 6 };
    for (axis, extent) in [(Axis::Horizontal, 6), (Axis::Vertical, 5)] {
        for k in 0..=extent {
            let (a, b) = r.split(axis, k);
            for px in 0..10u32 {
                for py in 0..12u32 {
                    let inside = |q: &Region| {
                        q.x <= px && px < q.x + q.width && q.y <= py && py < q.y + q.height
                    };
                    assert!(!(inside(&a) && inside(&b)));
                    assert_eq!(inside(&a) || inside(&b), inside(&r));
                }
            }
        }
    }
}

#[test]
fn score_of_a_cut_is_exact() {
    let img = image(1, 3, |_, y| if y == 2 { 6 } else { 0 });
    let r = Region { x: 0, y: 0, width: 1, height: 3 };
    let c = evaluate_cut(&img, r, Axis::Horizontal, 1);
    assert_eq!(c.coord, 1);
    assert_eq!(c.first.sum, 0);
    assert_eq!(c.second.sum, 6);
    // (0 * 1 + 9 * 2) / 3 = 6
    assert_eq!(c.score_num, 36);
    assert_eq!(c.score_den, 6);
}

#[test]
fn best_cut_is_no_worse_than_any_other() {
    let img = image(6, 6, |x, y| ((x * 7919 + y * 104729 + x * y * 31) % 65536) as u16);
    let r = Region { x: 0, y: 0, width: 6, height: 6 };
    for axis in [Axis::Horizontal, Axis::Vertical] {
        let best = best_cut(&img, r, axis);
        assert!(1 <= best.coord && best.coord < 5);
        for k in 1..5 {
            let c = evaluate_cut(&img, r, axis, k);
            assert!(!frac_less(c.score_num, c.score_den, best.score_num, best.score_den));
            if k < best.coord {
                assert!(frac_less(best.score_num, best.score_den, c.score_num, c.score_den));
            }
        }
    }
}

#[test]
fn equal_scores_keep_the_first_coordinate() {
    // Rows 0, 0, 9, 9, 0, 0: the cuts at 2 and 4 mirror each other and tie.
    let img = image(1, 6, |_, y| if y == 2 || y == 3 { 9 } else { 0 });
    let r = Region { x: 0, y: 0, width: 1, height: 6 };
    let c2 = evaluate_cut(&img, r, Axis::Horizontal, 2);
    let c4 = evaluate_cut(&img, r, Axis::Horizontal, 4);
    assert_eq!(c2.score_num as u128 * c4.score_den, c4.score_num * c2.score_den as u128);
    assert_eq!(best_hcut(&img, r).coord, 2);
    // Every cut of a constant image scores 0.
    let flat = image(5, 5, |_, _| 77);
    let whole = flat.full_region();
    assert_eq!(best_hcut(&flat, whole).coord, 1);
    assert_eq!(best_vcut(&flat, whole).coord, 1);
}

#[test]
fn depth_zero_or_small_regions_are_left_alone() {
    let img = image(9, 9, |x, y| (x * 1000 + y * 37) as u16);
    let before = img.pixels.clone();
    let mut a = image(9, 9, |x, y| (x * 1000 + y * 37) as u16);
    geometrize(&mut a, 0, half());
    assert_eq!(a.pixels, before);
    let mut b = image(9, 9, |x, y| (x * 1000 + y * 37) as u16);
    geometrize_region(&mut b, Region { x: 2, y: 2, width: 4, height: 7 }, 3, half());
    assert_eq!(b.pixels, before);
    let mut c = image(4, 9, |x, y| (x * 1000 + y * 37) as u16);
    let before_c = c.pixels.clone();
    geometrize(&mut c, 5, half());
    assert_eq!(c.pixels, before_c);
}

#[test]
fn unit_contrast_changes_nothing() {
    let mut img = image(5, 4, |x, y| (x * 13001 + y * 7) as u16);
    let before = img.pixels.clone();
    let r = img.full_region();
    let st = region_stats(&img, r);
    decontrast(&mut img, r, st.sum, st.count, Contrast::new(1, 1).unwrap());
    assert_eq!(img.pixels, before);
    decontrast(&mut img, r, st.sum, st.count, Contrast::new(7, 7).unwrap());
    assert_eq!(img.pixels, before);
}

#[test]
fn contrast_reduction_truncates_and_saturates() {
    let mut img = image(2, 1, |x, _| if x == 0 { 0 } else { 10 });
    let r = img.full_region();
    decontrast(&mut img, r, 10, 2, half());
    // 5 - 2.5 = 2.5 and 5 + 2.5 = 7.5, truncated
    assert_eq!(img.pixels, vec![2, 7]);

    let mut flip = image(2, 1, |x, _| if x == 0 { 0 } else { 10 });
    decontrast(&mut flip, r, 10, 2, Contrast::new(-1, 1).unwrap());
    assert_eq!(flip.pixels, vec![10, 0]);

    let mut wide = image(2, 1, |x, _| if x == 0 { 0 } else { 65535 });
    decontrast(&mut wide, r, 65535, 2, Contrast::new(2, 1).unwrap());
    assert_eq!(wide.pixels, vec![0, 65535]);
}

#[test]
fn contrast_reduction_touches_only_its_region() {
    let mut img = image(4, 3, |_, _| 100);
    img.put_pixel(1, 1, 200);
    decontrast(&mut img, Region { x: 1, y: 1, width: 2, height: 1 }, 300, 2, half());
    // mean 150: 200 -> 175, 100 -> 125
    assert_eq!(img.get_pixel(1, 1), 175);
    assert_eq!(img.get_pixel(2, 1), 125);
    assert_eq!(img.get_pixel(0, 1), 100);
    assert_eq!(img.get_pixel(1, 0), 100);
    assert_eq!(img.get_pixel(3, 2), 100);
}

#[test]
fn bright_top_dark_bottom_is_cut_between_the_halves_and_kept() {
    let mut img = image(8, 8, |_, y| if y < 4 { 60000 } else { 100 });
    let before = img.pixels.clone();
    let r = img.full_region();
    let h = best_hcut(&img, r);
    assert_eq!(h.coord, 4);
    assert_eq!(h.score_num, 0);
    let v = best_vcut(&img, r);
    assert!(frac_less(h.score_num, h.score_den, v.score_num, v.score_den));
    geometrize(&mut img, 1, half());
    assert_eq!(img.pixels, before);
}

#[test]
fn partition_flattens_each_part() {
    // Left half noisy around 1000, right half noisy around 50000.
    let mut img = image(8, 6, |x, y| {
        let noise = ((x * 3 + y * 5) % 4) as u16 * 10;
        if x < 4 { 1000 + noise } else { 50000 + noise }
    });
    let r = img.full_region();
    let v = best_vcut(&img, r);
    assert_eq!(v.coord, 4);
    geometrize(&mut img, 1, half());
    for y in 0..6 {
        for x in 0..8 {
            let p = img.get_pixel(x, y);
            if x < 4 {
                assert!((1000..=1030).contains(&p));
            } else {
                assert!((50000..=50030).contains(&p));
            }
        }
    }
    // Deviations are halved: the extreme 1030 is pulled toward the mean.
    assert!(img.pixels.iter().all(|&p| p != 1030 && p != 50030));
}

#[test]
fn frac_less_compares_exactly() {
    assert!(frac_less(1, 3, 1, 2));
    assert!(!frac_less(1, 2, 1, 3));
    assert!(!frac_less(2, 4, 1, 2));
    assert!(!frac_less(1, 2, 2, 4));
    assert!(frac_less(0, 5, 1, 1_000_000));
    let big = 1u128 << 120;
    assert!(frac_less(big - 1, big, big, big + 1));
    assert!(!frac_less(big, big + 1, big - 1, big));
    assert!(frac_less(big - 2, big - 1, big - 1, big));
}

#[test]
fn from_raw_checks_the_length() {
    assert!(GrayImage::from_raw(3, 2, vec![0; 6]).is_some());
    assert!(GrayImage::from_raw(3, 2, vec![0; 5]).is_none());
    assert!(GrayImage::from_raw(0, 2, vec![]).is_some());
    let img = GrayImage::from_raw(2, 2, vec![1, 2, 3, 4]).unwrap();
    assert_eq!(img.get_pixel(1, 0), 2);
    assert_eq!(img.get_pixel(0, 1), 3);
    assert_eq!(img.into_raw(), vec![1, 2, 3, 4]);
}

#[test]
fn contrast_needs_a_positive_denominator() {
    assert!(Contrast::new(1, 0).is_none());
    assert_eq!(Contrast::new(-3, 4), Some(Contrast { num: -3, den: 4 }));
}

#[test]
fn stretch_maps_extremes_to_the_full_range() {
    let mut img = GrayImage::from_raw(3, 1, vec![200, 100, 300]).unwrap();
    image_expand_luma(&mut img);
    assert_eq!(img.pixels, vec![32767, 0, 65535]);
    let mut flat = GrayImage::from_raw(2, 1, vec![9, 9]).unwrap();
    image_expand_luma(&mut flat);
    assert_eq!(flat.pixels, vec![9, 9]);
    let mut empty = GrayImage::from_raw(0, 0, vec![]).unwrap();
    image_expand_luma(&mut empty);
    assert!(empty.pixels.is_empty());
}
