use can_timings::bxcan::BxcanTiming;

// Known-good reference case: 45 MHz clock, 125 kbit/s, 87.5 % sample point.
#[test]
fn reference_case_yields_configs() {
    let rs = BxcanTiming::timings(45_000_000, 125_000, 875, 1000);
    assert!(rs.len() >= 1);
    let first = &rs[0];
    assert_eq!(first.nbr_tq, first.ts1 + first.ts2 + 1);
}

#[test]
fn reference_case_first_config_exact() {
    let rs = BxcanTiming::timings(45_000_000, 125_000, 875, 1000);
    let first = &rs[0];
    assert_eq!(first.baudrate, 125_000);
    assert_eq!(first.brp, 20);
    assert_eq!(first.nbr_tq, 18);
    assert_eq!(first.ts1, 15);
    assert_eq!(first.ts2, 2);
    assert_eq!(first.btr, 0x1E0013);
    // achieved sample point: (1 + 15) * 20 * 125000 / 45000000 = 8 / 9
    assert_eq!(first.sample_point.num, 40_000_000);
    assert_eq!(first.sample_point.den, 45_000_000);
    // requested instant differs from the achieved one by 625e6 / 40e9 ~ 1.6 %
    assert_eq!(first.sample_point_error.num, 625_000_000);
    assert_eq!(first.sample_point_error.den, 40_000_000_000);
}

#[test]
fn scan_range_reference_case() {
    let (lo, hi) = BxcanTiming::brp_range(45_000_000, 125_000);
    assert_eq!(lo, 15);
    assert_eq!(hi, 120);
}

// Every emitted configuration fits the hardware fields and meets both
// accuracy thresholds.
#[test]
fn emitted_configs_within_limits() {
    for (clk, br) in [
        (45_000_000u32, 125_000u32),
        (8_000_000, 1_000_000),
        (40_000_000, 500_000),
        (36_000_000, 250_000),
        (45_000_000, 83_333),
    ] {
        let rs = BxcanTiming::timings(clk, br, 875, 1000);
        for c in &rs {
            assert!(1 <= c.ts1 && c.ts1 <= 16);
            assert!(1 <= c.ts2 && c.ts2 <= 8);
            assert_eq!(c.nbr_tq, c.ts1 + c.ts2 + 1);
            assert_eq!(c.baudrate, br);
            // sample-point error below 5 %
            assert!(20 * c.sample_point_error.num < c.sample_point_error.den);
            // frequency error below 0.1 %
            let fp = br as u128 * c.nbr_tq as u128 * c.brp as u128;
            let fdiff = if fp >= clk as u128 { fp - clk as u128 } else { clk as u128 - fp };
            assert!(1000 * fdiff < fp);
        }
    }
}

// The packed register value unpacks back to its three fields.
#[test]
fn register_value_round_trips() {
    let rs = BxcanTiming::timings(45_000_000, 125_000, 875, 1000);
    assert!(rs.len() >= 1);
    for c in &rs {
        assert!(c.brp <= 0x10000);
        assert_eq!(c.btr & 0xFFFF, c.brp - 1);
        assert_eq!((c.btr >> 16) & 0xF, c.ts1 - 1);
        assert_eq!(c.btr >> 20, c.ts2 - 1);
    }
}

// Results come in strictly ascending prescaler order, without duplicates.
#[test]
fn prescalers_strictly_ascending() {
    for (clk, br) in [(45_000_000u32, 125_000u32), (48_000_000, 100_000), (40_000_000, 500_000)] {
        let rs = BxcanTiming::timings(clk, br, 875, 1000);
        for w in rs.windows(2) {
            assert!(w[0].brp < w[1].brp);
        }
    }
}

// When no prescaler range exists the result is empty, not an error.
#[test]
fn empty_when_range_inverted() {
    let (lo, hi) = BxcanTiming::brp_range(8_000_000, 4_000_000);
    assert!(lo > hi);
    let rs = BxcanTiming::timings(8_000_000, 4_000_000, 875, 1000);
    assert!(rs.is_empty());
}

// A low-clock / high-baud combination completes normally; here the only
// candidate with segments in range hits the bit time exactly.
#[test]
fn low_clock_high_baud_completes() {
    let rs = BxcanTiming::timings(8_000_000, 1_000_000, 875, 1000);
    assert_eq!(rs.len(), 1);
    let c = &rs[0];
    assert_eq!(c.brp, 1);
    assert_eq!(c.nbr_tq, 8);
    assert_eq!(c.ts1, 6);
    assert_eq!(c.ts2, 1);
    assert_eq!(c.btr, 0x50000);
    // achieved sample point is exactly the requested 7/8
    assert_eq!(c.sample_point_error.num, 0);
}

// Fixed packing example: prescaler 5, ts1 13, ts2 2.
#[test]
fn register_packing_example() {
    assert_eq!(BxcanTiming::pack_btr(13, 2, 5), 0x1C0004);
    let rs = BxcanTiming::timings(40_000_000, 500_000, 875, 1000);
    let c = rs.iter().find(|c| c.brp == 5).expect("prescaler 5 must be feasible");
    assert_eq!(c.ts1, 13);
    assert_eq!(c.ts2, 2);
    assert_eq!(c.btr, 0x1C0004);
    assert_eq!(c.sample_point_error.num, 0);
}

// Scaling the clock up by an integer factor never shrinks the scan range.
#[test]
fn scan_count_grows_with_scaled_clock() {
    for (clk, br) in [(45_000_000u32, 125_000u32), (8_000_000, 1_000_000), (25, 1), (1000, 7)] {
        let (lo1, hi1) = BxcanTiming::brp_range(clk, br);
        let count1 = if lo1 > hi1 { 0 } else { hi1 - lo1 + 1 };
        for k in [2u32, 3, 5] {
            let (lo2, hi2) = BxcanTiming::brp_range(clk * k, br);
            let count2 = if lo2 > hi2 { 0 } else { hi2 - lo2 + 1 };
            assert!(count1 <= count2);
        }
    }
}

// Two representations of the same sample-point fraction select the same
// configurations (the reported error fractions differ only in scale).
#[test]
fn sample_point_representation_invariance() {
    let a = BxcanTiming::timings(45_000_000, 125_000, 7, 8);
    let b = BxcanTiming::timings(45_000_000, 125_000, 875, 1000);
    assert_eq!(a.len(), b.len());
    for (x, y) in a.iter().zip(b.iter()) {
        assert_eq!(x.brp, y.brp);
        assert_eq!(x.nbr_tq, y.nbr_tq);
        assert_eq!(x.ts1, y.ts1);
        assert_eq!(x.ts2, y.ts2);
        assert_eq!(x.btr, y.btr);
        assert_eq!(x.sample_point, y.sample_point);
        assert_eq!(
            x.sample_point_error.num * y.sample_point_error.den,
            y.sample_point_error.num * x.sample_point_error.den
        );
    }
}

// The search is deterministic: identical inputs give identical output.
#[test]
fn search_is_idempotent() {
    let a = BxcanTiming::timings(45_000_000, 125_000, 875, 1000);
    let b = BxcanTiming::timings(45_000_000, 125_000, 875, 1000);
    assert_eq!(a, b);
    let a = BxcanTiming::timings(48_000_000, 83_333, 800, 1000);
    let b = BxcanTiming::timings(48_000_000, 83_333, 800, 1000);
    assert_eq!(a, b);
}
