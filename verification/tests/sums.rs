use streaming_quantiles::{Estimate, Histogram, Wide};

// The coarsest tick that holds every observation of these tests.
const TICKS_PER_UNIT: f64 = 2.0;

fn ticks(x: f64) -> i32 {
    (x * TICKS_PER_UNIT).round() as i32
}

fn histogram_of(capacity: usize, observations: &[i32]) -> Histogram {
    let mut h = Histogram::new(capacity);
    for obs in observations {
        h.add(*obs);
    }
    h
}

fn float(w: Wide) -> f64 {
    w.high as f64 * 2.0f64.powi(128) + w.low as f64
}

fn value(e: Estimate) -> f64 {
    float(e.numerator) / float(e.denominator)
}

// The numerator and the denominator, where both fit into 128 bits.
fn fraction(e: Estimate) -> (u128, u128) {
    assert_eq!((e.numerator.high, e.denominator.high), (0, 0));
    (e.numerator.low, e.denominator.low)
}

fn moments(h: &Histogram) -> Vec<(i64, u32)> {
    h.buckets().iter().map(|b| (b.moment, b.weight)).collect()
}

fn assert_sum_within(h: &Histogram, expected: f64, leq: f64, margin: f64) {
    let value = value(h.sum(ticks(leq)));
    let lb = expected - margin;
    let ub = expected + margin;
    assert!(
        lb <= value && value < ub,
        "Wanted is {:.3} <= h.sum({:.3})={:.3} < {:.3}; from histogram: {:?}",
        lb,
        leq,
        value,
        ub,
        h
    );
}

#[test]
fn trival_empty() {
    let h = Histogram::new(5);
    assert_sum_within(&h, 0.0, 0.0, 0.001);
}

#[test]
fn trival_single_observation_point_off_right() {
    let mut h = Histogram::new(5);
    h.add(ticks(0.0));
    assert_sum_within(&h, 1.0, 1.0, 0.5);
}

#[test]
fn trival_single_observation_point_at_center() {
    let mut h = Histogram::new(5);
    h.add(ticks(0.0));
    assert_sum_within(&h, 1.0, 0.0, 0.5);
}

#[test]
fn trival_single_observation_point_off_left() {
    let mut h = Histogram::new(5);
    h.add(ticks(1.0));
    assert_sum_within(&h, 0.0, 0.0, 0.5);
}

#[test]
fn trival_three_observation_point_on_mid_point() {
    let mut h = Histogram::new(5);
    h.add(ticks(1.0));
    h.add(ticks(2.0));
    h.add(ticks(3.0));
    assert_sum_within(&h, 2.0, 2.0, 0.5);
}

// The last bucket has nothing but the far end to its right, so next to
// nothing of the segment beyond it lies below the threshold: only the half
// of the bucket that counts as lying to its left is added.
#[test]
fn trival_three_observation_point_at_rightmost_point() {
    let mut h = Histogram::new(5);
    h.add(ticks(1.0));
    h.add(ticks(2.0));
    h.add(ticks(2.0));
    assert_sum_within(&h, 3.0, 2.0, 1.0);
}

#[test]
fn trival_three_wide_gulf() {
    let mut h = Histogram::new(5);
    h.add(ticks(1.0));
    h.add(ticks(2.0));
    h.add(ticks(12.0));
    assert_sum_within(&h, 2.5, 7.0, 0.5);
}

#[test]
fn compression() {
    let mut h = Histogram::new(3);
    h.add(ticks(1.0));
    h.add(ticks(1.5));
    h.add(ticks(2.0));
    h.add(ticks(5.0));
    assert_sum_within(&h, 3.0, 2.0, 0.5);
}

#[test]
fn paper_appendix_example() {
    let mut h = Histogram::new(5);
    let mut k = Histogram::new(5);
    for (i, obs) in [23, 19, 10, 16, 36, 2, 9].iter().cloned().enumerate() {
        h.add(ticks(obs as f64));
        println!("{}: Added: {}; {:?}", i, obs, h);
    }
    k.add(ticks(32.));
    k.add(ticks(30.));
    k.add(ticks(45.));
    h.merge_from(&k);
    println!("Merged in: {:?}", k);
    println!("Result => {:?}", h);

    assert_sum_within(&h, 3.28, 15.0, 0.01);
}

#[test]
fn merged_fixture_at_one_tick_per_unit() {
    let mut h = histogram_of(5, &[23, 19, 10, 16, 36, 2, 9]);
    let k = histogram_of(5, &[32, 30, 45]);
    h.merge_from(&k);
    // Buckets at 2, 9.5, 58/3, 98/3 and 45.
    assert_eq!(moments(&h), vec![(2, 1), (19, 2), (58, 3), (98, 3), (45, 1)]);
    assert_eq!(moments(&k), vec![(30, 1), (32, 1), (45, 1)]);
    // The bucket at 2 in full, then 33/59 of the way from 9.5 to 58/3.
    let e = h.sum(15);
    assert_eq!(fraction(e), (22801, 6962));
    let v = value(e);
    assert!(3.27 <= v && v <= 3.29, "{}", v);
    assert!((v - 22801.0 / 6962.0).abs() < 1e-12, "{}", v);
}

#[test]
fn merged_fixture_is_the_same_at_every_tick() {
    for scale in [1, 2, 6, 1000, 40_000_000] {
        let mut h = Histogram::new(5);
        let mut k = Histogram::new(5);
        for obs in [23, 19, 10, 16, 36, 2, 9] {
            h.add(obs * scale);
        }
        for obs in [32, 30, 45] {
            k.add(obs * scale);
        }
        h.merge_from(&k);
        let s = scale as i64;
        assert_eq!(
            moments(&h),
            vec![(2 * s, 1), (19 * s, 2), (58 * s, 3), (98 * s, 3), (45 * s, 1)]
        );
        let v = value(h.sum(15 * scale));
        assert!((v - 22801.0 / 6962.0).abs() < 1e-12, "{} at {}", v, scale);
    }
}

#[test]
fn seventh_addition_fuses_two_pairs_at_their_means() {
    let mut h = histogram_of(5, &[23, 19, 10, 16, 36, 2]);
    assert_eq!(moments(&h), vec![(2, 1), (10, 1), (35, 2), (23, 1), (36, 1)]);
    h.add(9);
    // Buckets at 2, 9.5, 17.5, 23 and 36.
    assert_eq!(moments(&h), vec![(2, 1), (19, 2), (35, 2), (23, 1), (36, 1)]);
}

#[test]
fn two_observations_in_one_bucket_stand_at_their_mean() {
    let h = histogram_of(1, &[0, 1]);
    // One bucket of weight two at one half.
    assert_eq!(moments(&h), vec![(1, 2)]);
    let mut a = histogram_of(1, &[0]);
    let b = histogram_of(1, &[1]);
    a.merge_from(&b);
    assert_eq!(moments(&a), vec![(1, 2)]);
}

#[test]
fn merge_fuses_to_the_weighted_mean() {
    let mut s = histogram_of(2, &[0, 4]);
    let o = histogram_of(5, &[1, 1, 1, 9]);
    s.merge_from(&o);
    // (0,1) and (1,3) give (0.75,4); that and (4,1) give (1.4,5).
    assert_eq!(moments(&s), vec![(7, 5), (9, 1)]);
    assert_eq!(moments(&o), vec![(3, 3), (9, 1)]);
}

#[test]
fn empty_histogram_sums_to_zero_everywhere() {
    let h = Histogram::new(5);
    for leq in [i32::MIN, -1_000_000, -1, 0, 1, 1_000_000, i32::MAX - 1, i32::MAX] {
        let e = h.sum(leq);
        assert_eq!((e.numerator.high, e.numerator.low), (0, 0));
        assert!(e.denominator.high > 0 || e.denominator.low > 0);
        assert_eq!(value(e), 0.0);
    }
}

#[test]
fn single_observation_around_its_position() {
    let h = histogram_of(5, &[0]);
    let right = value(h.sum(1));
    assert!((right - 1.0).abs() <= 0.5);
    let at = value(h.sum(0));
    assert!((at - 0.0).abs() <= 0.5);
    assert_eq!(at, 0.5);
}

#[test]
fn three_observations_at_the_middle_one() {
    let h = histogram_of(5, &[1, 2, 3]);
    let e = h.sum(2);
    assert_eq!(fraction(e), (3, 2));
    assert!((value(e) - 2.0).abs() <= 0.5);
    assert_eq!(value(e), 1.5);
}

#[test]
fn wide_gap_interpolates_across_the_gap() {
    let h = histogram_of(5, &[1000, 2000, 12000]);
    // One bucket in full, half of the second, and a twentieth of the gap
    // between two buckets of weight one.
    let e = h.sum(2500);
    assert_eq!(fraction(e), (310_000_000, 200_000_000));
    assert_eq!(value(e), 1.55);
    // Halfway across the gap.
    assert_eq!(value(h.sum(7000)), 2.0);
}

#[test]
fn one_compression_fuses_the_leftmost_closest_pair() {
    // Half units: 1, 1.5, 2 and 5.
    let h = histogram_of(3, &[2, 3, 4, 10]);
    // Buckets at 1.25, 2 and 5.
    assert_eq!(moments(&h), vec![(5, 2), (4, 1), (10, 1)]);
    assert_eq!(value(h.sum(4)), 2.5);
    // A third of the way from 2 to 5.
    let e = h.sum(6);
    assert_eq!(fraction(e), (204, 72));
    assert!((value(e) - 17.0 / 6.0).abs() < 1e-12);
}

#[test]
fn additions_keep_count_order_weight_and_moment() {
    for capacity in 1..6usize {
        let mut h = Histogram::new(capacity);
        let mut x: i32 = 17;
        let mut sum: i64 = 0;
        for n in 1..200u32 {
            x = (x.wrapping_mul(1_103_515_245).wrapping_add(12_345)) % 1_000_003;
            h.add(x);
            sum += x as i64;
            assert!(h.len() <= capacity);
            assert_eq!(h.capacity(), capacity);
            assert_eq!(h.total_weight(), n);
            let b = h.buckets();
            assert_eq!(b.iter().map(|b| b.moment).sum::<i64>(), sum);
            for i in 1..b.len() {
                let left = b[i - 1].moment as i128 * b[i].weight as i128;
                let right = b[i].moment as i128 * b[i - 1].weight as i128;
                assert!(left < right);
            }
        }
    }
}

#[test]
fn equal_observations_share_one_bucket() {
    let mut h = Histogram::new(4);
    for _ in 0..10 {
        h.add(42);
    }
    assert_eq!(moments(&h), vec![(420, 10)]);
}

#[test]
fn observations_are_kept_in_ascending_order() {
    let h = histogram_of(8, &[5, -3, 9, 0, -7]);
    assert_eq!(moments(&h), vec![(-7, 1), (-3, 1), (0, 1), (5, 1), (9, 1)]);
}

#[test]
fn equal_gaps_fuse_the_leftmost_pair() {
    let h = histogram_of(2, &[0, 10, 20]);
    assert_eq!(moments(&h), vec![(10, 2), (20, 1)]);
}

#[test]
fn closest_pair_is_found_among_fractional_positions() {
    // 0 and 1 fuse to 1/2; then 1/2, 2 and 4: the gap of 3/2 is the smaller.
    let h = histogram_of(2, &[0, 1, 4, 2]);
    assert_eq!(moments(&h), vec![(3, 3), (4, 1)]);
    // Gaps of 8/3 and of 1 beside a bucket at 1/3: thirds compare exactly.
    let mut a = histogram_of(2, &[0, 0, 1]);
    a.merge_from(&histogram_of(3, &[3, 4, 4]));
    // 0(2) 1 3 4(2) -> 1/3(3) 3 4(2) -> 1/3(3) 11/3(3)
    assert_eq!(moments(&a), vec![(1, 3), (11, 3)]);
}

#[test]
fn mean_is_weighted_and_exact() {
    let mut h = Histogram::new(1);
    h.add(-3);
    h.add(0);
    assert_eq!(moments(&h), vec![(-3, 2)]);
    h.add(10);
    assert_eq!(moments(&h), vec![(7, 3)]);
    h.add(-9);
    assert_eq!(moments(&h), vec![(-2, 4)]);
}

#[test]
fn merge_adds_weights_at_equal_positions() {
    let mut h = histogram_of(4, &[1, 5, 9]);
    let k = histogram_of(2, &[5, 5, 7]);
    h.merge_from(&k);
    assert_eq!(moments(&h), vec![(1, 1), (15, 3), (7, 1), (9, 1)]);
    assert_eq!(h.total_weight(), 6);
    assert_eq!(h.capacity(), 4);
}

#[test]
fn merge_adds_weights_at_equal_fractional_positions() {
    // Both hold one bucket at one half, of weight two and of weight four.
    let mut h = histogram_of(1, &[0, 1]);
    let k = histogram_of(1, &[0, 0, 1, 1]);
    assert_eq!(moments(&k), vec![(2, 4)]);
    let mut wide = histogram_of(3, &[-5, 0, 1]);
    h.merge_from(&k);
    assert_eq!(moments(&h), vec![(3, 6)]);
    // Here the bucket at one half joins two buckets that lie elsewhere.
    let mut t = histogram_of(3, &[-5, 9]);
    t.merge_from(&k);
    assert_eq!(moments(&t), vec![(-5, 1), (2, 4), (9, 1)]);
    t.merge_from(&h);
    assert_eq!(moments(&t), vec![(-5, 1), (5, 10), (9, 1)]);
    wide.merge_from(&t);
    assert_eq!(wide.total_weight(), 15);
    assert_eq!(wide.buckets().iter().map(|b| b.moment).sum::<i64>(), 5);
}

#[test]
fn merge_compresses_to_the_capacity_of_the_receiver() {
    let mut h = histogram_of(2, &[0, 100]);
    let k = histogram_of(5, &[10, 50, 90]);
    h.merge_from(&k);
    // 0 10 50 90 100 -> 5(2) 50 90 100 -> 5(2) 50 95(2) -> 20(3) 95(2):
    // the last step finds two gaps of 45 and fuses the left pair.
    assert_eq!(moments(&h), vec![(60, 3), (190, 2)]);
    assert_eq!(k.len(), 3);
}

#[test]
fn merge_of_an_empty_histogram_changes_nothing() {
    let mut h = histogram_of(3, &[4, 8]);
    let k = Histogram::new(0);
    h.merge_from(&k);
    assert_eq!(moments(&h), vec![(4, 1), (8, 1)]);
    let mut z = Histogram::new(0);
    z.merge_from(&k);
    assert_eq!(z.len(), 0);
    assert_eq!(z.capacity(), 0);
}

#[test]
fn merge_keeps_weight_and_moment() {
    let a = [-40, -5, 0, 7, 7, 30, 12, 100, -100];
    let b = [3, 3, 8, -60, 1000, 41];
    let mut h = histogram_of(4, &a);
    let k = histogram_of(3, &b);
    h.merge_from(&k);
    assert!(h.len() <= 4);
    assert_eq!(h.total_weight(), 15);
    let all: i64 = a.iter().chain(b.iter()).map(|x| *x as i64).sum();
    assert_eq!(h.buckets().iter().map(|b| b.moment).sum::<i64>(), all);
}

#[test]
fn sum_is_zero_at_the_lowest_and_the_total_at_the_highest_threshold() {
    let h = histogram_of(4, &[-2_000_000_000, -5, 0, 7, 7, 2_000_000_000, 12]);
    let low = h.sum(i32::MIN);
    assert_eq!((low.numerator.high, low.numerator.low), (0, 0));
    assert_eq!(value(low), 0.0);
    let high = h.sum(i32::MAX);
    assert_eq!(fraction(high), (14, 2));
    assert_eq!(value(high), 7.0);
}

#[test]
fn sum_does_not_fall_as_the_threshold_rises() {
    let h = histogram_of(4, &[-40, -5, 0, 7, 7, 30, 12, 100, -100]);
    let total = h.total_weight() as f64;
    let mut last = 0.0f64;
    let mut leq: i32 = -300;
    while leq <= 300 {
        let v = value(h.sum(leq));
        assert!(v + 1e-9 >= last, "{} after {} at {}", v, last, leq);
        assert!(v <= total + 1e-9);
        last = v;
        leq += 1;
    }
    // Within one segment the denominators agree and the numerators compare.
    let a = fraction(h.sum(1));
    let b = fraction(h.sum(2));
    assert_eq!(a.1, b.1);
    assert!(a.0 < b.0);
}

#[test]
fn sum_at_a_bucket_counts_half_of_it() {
    let h = histogram_of(5, &[10, 20, 20, 20, 30]);
    // One bucket in full and half of the three at 20.
    let e = h.sum(20);
    assert_eq!(fraction(e), (5 * 30 * 30, 2 * 30 * 30));
    assert_eq!(value(e), 2.5);
}

#[test]
fn sum_between_fused_buckets_is_exact() {
    // Buckets at 1/2 (weight 2) and 7/2 (weight 2); the threshold 1 lies a
    // sixth of the way from one to the other.
    let h = histogram_of(2, &[0, 1, 3, 4]);
    assert_eq!(moments(&h), vec![(1, 2), (7, 2)]);
    let e = h.sum(1);
    // Width 12 and offset 2, in quarters: (0 + 2) * 144 + 2 * 22 * 2 + 2 * 4.
    assert_eq!(fraction(e), (384, 288));
    assert!((value(e) - (1.0 + 2.0 / 6.0)).abs() < 1e-12);
}

#[test]
fn sum_between_heavy_buckets_outgrows_128_bits() {
    // Two buckets of 2^28 observations each, at 5 and at 8.
    let mut a = histogram_of(1, &[5]);
    let mut b = histogram_of(1, &[8]);
    for _ in 0..28 {
        let twin = a.clone();
        a.merge_from(&twin);
        let twin = b.clone();
        b.merge_from(&twin);
    }
    let mut h = Histogram::new(2);
    h.merge_from(&a);
    h.merge_from(&b);
    assert_eq!(moments(&h), vec![(5 << 28, 1 << 28), (8 << 28, 1 << 28)]);
    // A third of the way from 5 to 8: half of the left bucket and a third of
    // a trapezoid of even height.
    let e = h.sum(6);
    assert!(e.numerator.high > 0);
    let weight = (1u64 << 28) as f64;
    let v = value(e);
    assert!((v / weight - (0.5 + 1.0 / 3.0)).abs() < 1e-12, "{}", v);
    // The whole of it is there at the far end.
    assert_eq!(fraction(h.sum(i32::MAX)), (1 << 30, 2));
    // At the left bucket: half of it, over twice the square of the width
    // 3 * 2^56, which takes 116 bits, times 2^28.
    let at = h.sum(5);
    assert_eq!((at.denominator.high, at.denominator.low), (0, 18 << 112));
    assert_eq!((at.numerator.high, at.numerator.low), (9 << 12, 0));
    // Halfway: 2^28 * (1/2 + 1/2), and the three products carry into the
    // high half.
    let mut wide = Histogram::new(2);
    wide.merge_from(&a);
    let mut far = histogram_of(1, &[7]);
    for _ in 0..28 {
        let twin = far.clone();
        far.merge_from(&twin);
    }
    wide.merge_from(&far);
    let mid = wide.sum(6);
    assert_eq!((mid.denominator.high, mid.denominator.low), (0, 8 << 112));
    assert_eq!((mid.numerator.high, mid.numerator.low), (8 << 12, 0));
}
