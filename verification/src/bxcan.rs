use vstd::prelude::*;
use vstd::arithmetic::div_mod::lemma_fundamental_div_mod;
use vstd::arithmetic::div_mod::lemma_mod_division_less_than_divisor;
use vstd::arithmetic::div_mod::lemma_div_nonincreasing;

verus! {

/// An exact non-negative fraction `num / den`; the search reports the
/// achieved sample point and its error this way instead of rounding them.
#[derive(Clone, Copy, Debug, PartialEq, Eq, Structural)]
pub struct Ratio {
    pub num: u128,
    pub den: u128,
}

/// One feasible bxcan bit-timing configuration found by the search.
#[derive(Clone, Copy, Debug, PartialEq, Eq, Structural)]
pub struct BxcanTiming {
    /// Baud rate the search was asked for, echoed for traceability.
    pub baudrate: u32,
    /// Total time quanta in one bit period (sync + ts1 + ts2).
    pub nbr_tq: u32,
    /// Prescaler: the clock divider that defines the time quantum.
    pub brp: u32,
    /// Achieved sample-point position as an exact fraction of the bit time.
    pub sample_point: Ratio,
    /// Relative deviation of the achieved sample point from the requested
    /// one, as an exact fraction.
    pub sample_point_error: Ratio,
    /// Time quanta before the sample point.
    pub ts1: u32,
    /// Time quanta after the sample point.
    pub ts2: u32,
    /// Packed register encoding of `(ts2, ts1, brp)`.
    pub btr: u32,
}

/// `|a - b|` for mathematical integers.
pub open spec fn abs_diff(a: int, b: int) -> int {
    if a >= b {
        a - b
    } else {
        b - a
    }
}

/// The non-negative rational `p / q` rounded to the nearest integer,
/// with halves rounded away from zero.
pub open spec fn round_div(p: int, q: int) -> int
    recommends
        0 <= p,
        1 <= q,
{
    (2 * p + q) / (2 * q)
}

/// First prescaler value worth scanning for `(clk, br)`: a time quantum
/// lasts `brp / clk` seconds and at most 25 of them may fit in one bit
/// time `1 / br`, so the smallest candidate is `ceil(clk / (25 * br))`.
pub open spec fn min_brp(clk: int, br: int) -> int
    recommends
        1 <= clk,
        1 <= br,
{
    (clk + 25 * br - 1) / (25 * br)
}

/// Last prescaler value worth scanning for `(clk, br)`: at least 3 time
/// quanta must fit in one bit time, so the largest candidate is
/// `floor(clk / (3 * br))`.
pub open spec fn max_brp(clk: int, br: int) -> int
    recommends
        1 <= clk,
        1 <= br,
{
    clk / (3 * br)
}

/// How many prescaler candidates the search visits for `(clk, br)`.
pub open spec fn scanned_count(clk: int, br: int) -> int
    recommends
        1 <= clk,
        1 <= br,
{
    if min_brp(clk, br) > max_brp(clk, br) {
        0
    } else {
        max_brp(clk, br) - min_brp(clk, br) + 1
    }
}

/// Total time quanta per bit for prescaler `brp`: the nominal bit time
/// `1 / br` divided by the quantum `brp / clk`, rounded to nearest.
pub open spec fn nbr_tq_of(clk: int, br: int, brp: int) -> int
    recommends
        1 <= clk,
        1 <= br,
        1 <= brp,
{
    round_div(clk, br * brp)
}

/// Quanta before the sample point for prescaler `brp` and requested
/// sample point `n / d`: the requested sample instant `(n / d) / br`
/// divided by the quantum, minus the sync quantum, rounded to nearest.
/// A value that would round below zero is reported as 0 (and is then
/// outside the acceptable range, so the candidate is dropped either way).
pub open spec fn ts1_of(clk: int, br: int, n: int, d: int, brp: int) -> int
    recommends
        1 <= clk,
        1 <= br,
        1 <= n < d,
        1 <= brp,
{
    let a: int = n * clk;
    let q: int = d * (br * brp);
    if a < q {
        0
    } else {
        round_div(a - q, q)
    }
}

/// Whether prescaler `brp` yields a configuration that fits the hardware
/// fields and meets both accuracy thresholds: segments in range, relative
/// sample-point deviation below 5 % and relative frequency deviation
/// below 0.1 %.
pub open spec fn accepts(clk: int, br: int, n: int, d: int, brp: int) -> bool
    recommends
        1 <= clk,
        1 <= br,
        1 <= n < d,
        1 <= brp,
{
    let t1: int = ts1_of(clk, br, n, d, brp);
    let nbr: int = nbr_tq_of(clk, br, brp);
    let t2: int = nbr - t1 - 1;
    let q: int = d * (br * brp);
    let fp: int = br * (nbr * brp);
    &&& 1 <= t1 <= 16
    &&& 1 <= t2 <= 8
    &&& 20 * abs_diff(n * clk, (1 + t1) * q) < (1 + t1) * q
    &&& 1000 * abs_diff(fp, clk) < fp
}

/// The packed register value: `ts2 - 1` in the bits from 20 up, `ts1 - 1`
/// in bits 16 to 19, `brp - 1` in the low 16 bits.
pub open spec fn pack_btr_spec(ts1: u32, ts2: u32, brp: u32) -> u32
    recommends
        1 <= ts1,
        1 <= ts2,
        1 <= brp,
{
    ((((ts2 - 1) as u32) << 20u32) | (((ts1 - 1) as u32) << 16u32)) | ((brp - 1) as u32)
}

/// The configuration the search emits for an accepted prescaler `brp`.
pub open spec fn config_of(clk: int, br: int, n: int, d: int, brp: int) -> BxcanTiming
    recommends
        1 <= clk,
        1 <= br,
        1 <= n < d,
        1 <= brp,
        accepts(clk, br, n, d, brp),
{
    let t1: int = ts1_of(clk, br, n, d, brp);
    let nbr: int = nbr_tq_of(clk, br, brp);
    let t2: int = nbr - t1 - 1;
    let q: int = d * (br * brp);
    BxcanTiming {
        baudrate: br as u32,
        nbr_tq: nbr as u32,
        brp: brp as u32,
        sample_point: Ratio { num: ((1 + t1) * (br * brp)) as u128, den: clk as u128 },
        sample_point_error: Ratio {
            num: abs_diff(n * clk, (1 + t1) * q) as u128,
            den: ((1 + t1) * q) as u128,
        },
        ts1: t1 as u32,
        ts2: t2 as u32,
        btr: pack_btr_spec(t1 as u32, t2 as u32, brp as u32),
    }
}

/// The configurations emitted for the prescalers in `[lo, hi]`, in
/// ascending prescaler order.
pub open spec fn timings_seq(clk: int, br: int, n: int, d: int, lo: int, hi: int) -> Seq<
    BxcanTiming,
>
    decreases hi + 1 - lo,
{
    if lo > hi {
        Seq::empty()
    } else if accepts(clk, br, n, d, hi) {
        timings_seq(clk, br, n, d, lo, hi - 1).push(config_of(clk, br, n, d, hi))
    } else {
        timings_seq(clk, br, n, d, lo, hi - 1)
    }
}

/// Everything the search returns for `(clk, br, n / d)`.
pub open spec fn search_results(clk: int, br: int, n: int, d: int) -> Seq<BxcanTiming> {
    timings_seq(clk, br, n, d, min_brp(clk, br), max_brp(clk, br))
}

/// What holds of every configuration the search emits for inputs
/// `(clk, br, n / d)`: segment fields in hardware range, the quanta count
/// consistent with the segments, the register value packed from the
/// fields, the reported fractions exact, and both accuracy thresholds met.
pub open spec fn emitted_ok(clk: int, br: int, n: int, d: int, c: BxcanTiming) -> bool {
    let q: int = d * (br * (c.brp as int));
    let e: int = (1 + c.ts1 as int) * q;
    let fp: int = br * ((c.nbr_tq as int) * (c.brp as int));
    &&& 1 <= c.ts1 <= 16
    &&& 1 <= c.ts2 <= 8
    &&& c.nbr_tq == c.ts1 + c.ts2 + 1
    &&& c.baudrate as int == br
    &&& c.btr == pack_btr_spec(c.ts1, c.ts2, c.brp)
    &&& c.sample_point.num as int == (1 + c.ts1 as int) * (br * (c.brp as int))
    &&& c.sample_point.den as int == clk
    &&& c.sample_point_error.num as int == abs_diff(n * clk, e)
    &&& c.sample_point_error.den as int == e
    &&& 20 * (c.sample_point_error.num as int) < c.sample_point_error.den as int
    &&& 1000 * abs_diff(fp, clk) < fp
}

/// A candidate prescaler taken from the scan range keeps `br * brp`
/// within a third of the clock (and so within machine range).
proof fn lemma_candidate_bound(clk: int, br: int, b: int)
    requires
        1 <= clk,
        1 <= br,
        1 <= b,
        b <= max_brp(clk, br),
    ensures
        1 <= br * b,
        3 * (br * b) <= clk,
{
    let h: int = clk / (3 * br);
    lemma_fundamental_div_mod(clk, 3 * br);
    lemma_mod_division_less_than_divisor(clk, 3 * br);
    assert(1 <= br * b && 3 * (br * b) <= clk) by (nonlinear_arith)
        requires
            1 <= br,
            1 <= b,
            b <= h,
            clk == (3 * br) * h + clk % (3 * br),
            0 <= clk % (3 * br),
    ;
}

/// Every element of the emitted sequence is the configuration of an
/// accepted prescaler inside the scanned range, and the prescaler values
/// are strictly ascending along the sequence.
pub proof fn lemma_timings_seq_elems(clk: int, br: int, n: int, d: int, lo: int, hi: int)
    requires
        1 <= lo,
        hi < 0x1_0000_0000,
    ensures
        forall|i: int|
            #![trigger timings_seq(clk, br, n, d, lo, hi)[i]]
            0 <= i < timings_seq(clk, br, n, d, lo, hi).len() ==> {
                let c = timings_seq(clk, br, n, d, lo, hi)[i];
                &&& lo <= c.brp as int <= hi
                &&& accepts(clk, br, n, d, c.brp as int)
                &&& c == config_of(clk, br, n, d, c.brp as int)
            },
        forall|i: int, j: int|
            #![trigger timings_seq(clk, br, n, d, lo, hi)[i], timings_seq(clk, br, n, d, lo, hi)[j]]
            0 <= i < j < timings_seq(clk, br, n, d, lo, hi).len() ==> timings_seq(
                clk,
                br,
                n,
                d,
                lo,
                hi,
            )[i].brp < timings_seq(clk, br, n, d, lo, hi)[j].brp,
    decreases hi + 1 - lo,
{
    if lo > hi {
    } else {
        lemma_timings_seq_elems(clk, br, n, d, lo, hi - 1);
        let prev = timings_seq(clk, br, n, d, lo, hi - 1);
        let s = timings_seq(clk, br, n, d, lo, hi);
        if accepts(clk, br, n, d, hi) {
            assert(s == prev.push(config_of(clk, br, n, d, hi)));
            assert(config_of(clk, br, n, d, hi).brp == hi as u32);
            assert((hi as u32) as int == hi);
        }
    }
}

impl BxcanTiming {
    /// Inclusive prescaler scan range for a clock and a baud rate; the
    /// search visits exactly the integers between the two bounds.
    pub fn brp_range(clk: u32, br: u32) -> (r: (u64, u64))
        requires
            1 <= clk,
            1 <= br,
        ensures
            r.0 == min_brp(clk as int, br as int),
            r.1 == max_brp(clk as int, br as int),
            1 <= r.0,
            r.1 <= clk,
    {
        let den25: u64 = 25 * (br as u64);
        let den3: u64 = 3 * (br as u64);
        let lo: u64 = ((clk as u64) + den25 - 1) / den25;
        let hi: u64 = (clk as u64) / den3;
        proof {
            assert(lo >= 1) by (nonlinear_arith)
                requires
                    den25 >= 1,
                    lo == ((clk as int) + (den25 as int) - 1) / (den25 as int),
                    clk >= 1,
            ;
            lemma_div_nonincreasing(clk as int, den3 as int);
        }
        (lo, hi)
    }

    /// Pack `(ts2, ts1, brp)` into the timing register layout, each field
    /// stored as its value minus one.
    pub fn pack_btr(ts1: u32, ts2: u32, brp: u32) -> (r: u32)
        requires
            1 <= ts1 <= 16,
            1 <= ts2 <= 8,
            1 <= brp,
        ensures
            r == pack_btr_spec(ts1, ts2, brp),
    {
        (((ts2 - 1) << 20u32) | ((ts1 - 1) << 16u32)) | (brp - 1)
    }

    /// Enumerate every feasible timing configuration for clock `clk` (Hz),
    /// baud rate `br` (bits per second) and requested sample point
    /// `sp_num / sp_den` (a fraction strictly between 0 and 1), in
    /// ascending prescaler order.
    pub fn timings(clk: u32, br: u32, sp_num: u32, sp_den: u32) -> (results: Vec<BxcanTiming>)
        requires
            1 <= clk,
            1 <= br,
            1 <= sp_num < sp_den,
        ensures
            results@ == search_results(clk as int, br as int, sp_num as int, sp_den as int),
            forall|i: int|
                0 <= i < results@.len() ==> emitted_ok(
                    clk as int,
                    br as int,
                    sp_num as int,
                    sp_den as int,
                    #[trigger] results@[i],
                ),
            forall|i: int, j: int|
                0 <= i < j < results@.len() ==> #[trigger] results@[i].brp
                    < #[trigger] results@[j].brp,
            min_brp(clk as int, br as int) > max_brp(clk as int, br as int) ==> results@.len()
                == 0,
    {
        let ghost gclk: int = clk as int;
        let ghost gbr: int = br as int;
        let ghost gn: int = sp_num as int;
        let ghost gd: int = sp_den as int;
        let (lo, hi) = Self::brp_range(clk, br);
        let mut results: Vec<BxcanTiming> = Vec::new();
        let mut b: u64 = lo;
        while b <= hi
            invariant
                1 <= clk,
                1 <= br,
                1 <= sp_num < sp_den,
                gclk == clk as int,
                gbr == br as int,
                gn == sp_num as int,
                gd == sp_den as int,
                lo == min_brp(gclk, gbr),
                hi == max_brp(gclk, gbr),
                1 <= lo,
                hi <= clk,
                lo <= b,
                b <= hi + 1 || b == lo,
                results@ == timings_seq(gclk, gbr, gn, gd, lo as int, b as int - 1),
            decreases hi + 1 - b,
        {
            let ghost gb: int = b as int;
            proof {
                lemma_candidate_bound(gclk, gbr, gb);
            }
            let b128: u128 = b as u128;
            let q0: u128 = (br as u128) * b128;
            let nbr: u128 = (2 * (clk as u128) + q0) / (2 * q0);
            proof {
                assert((sp_num as int) * (clk as int) < 0x1_0000_0000_0000_0000)
                    by (nonlinear_arith)
                    requires
                        0 <= sp_num < 0x1_0000_0000,
                        0 <= clk < 0x1_0000_0000,
                ;
                assert((sp_den as int) * (q0 as int) < 0x1_0000_0000_0000_0000)
                    by (nonlinear_arith)
                    requires
                        0 <= sp_den < 0x1_0000_0000,
                        0 <= q0 < 0x1_0000_0000,
                ;
                assert(1 <= (sp_den as int) * (q0 as int)) by (nonlinear_arith)
                    requires
                        1 <= sp_den,
                        1 <= q0,
                ;
            }
            let a: u128 = (sp_num as u128) * (clk as u128);
            let qd: u128 = (sp_den as u128) * q0;
            proof {
                assert(nbr as int == nbr_tq_of(gclk, gbr, gb));
                assert(a as int == gn * gclk);
                assert(qd as int == gd * (gbr * gb));
            }
            if a >= qd {
                let t1: u128 = (2 * a - qd) / (2 * qd);
                proof {
                    assert(t1 as int == ts1_of(gclk, gbr, gn, gd, gb));
                }
                if 1 <= t1 && t1 <= 16 && nbr >= t1 + 2 {
                    let t2: u128 = nbr - t1 - 1;
                    if t2 <= 8 {
                        proof {
                            assert((1 + t1 as int) * (qd as int) <= 17 * (qd as int))
                                by (nonlinear_arith)
                                requires
                                    t1 <= 16,
                                    0 <= qd,
                            ;
                            assert((nbr as int) * (b128 as int) <= 25 * (b128 as int))
                                by (nonlinear_arith)
                                requires
                                    nbr <= 25,
                                    0 <= b128,
                            ;
                        }
                        let e: u128 = (1 + t1) * qd;
                        let nb: u128 = nbr * b128;
                        proof {
                            assert((br as int) * (nb as int) <= 25 * 0x1_0000_0000_0000_0000)
                                by (nonlinear_arith)
                                requires
                                    0 <= br < 0x1_0000_0000,
                                    0 <= nb <= 25 * 0x1_0000_0000,
                            ;
                        }
                        let fp: u128 = (br as u128) * nb;
                        let diff: u128 = if a >= e {
                            a - e
                        } else {
                            e - a
                        };
                        let fdiff: u128 = if fp >= clk as u128 {
                            fp - (clk as u128)
                        } else {
                            (clk as u128) - fp
                        };
                        if 20 * diff < e && 1000 * fdiff < fp {
                            proof {
                                assert((1 + t1 as int) * (q0 as int) <= 17 * (q0 as int))
                                    by (nonlinear_arith)
                                    requires
                                        t1 <= 16,
                                        0 <= q0,
                                ;
                            }
                            let cfg = BxcanTiming {
                                baudrate: br,
                                nbr_tq: nbr as u32,
                                brp: b as u32,
                                sample_point: Ratio { num: (1 + t1) * q0, den: clk as u128 },
                                sample_point_error: Ratio { num: diff, den: e },
                                ts1: t1 as u32,
                                ts2: t2 as u32,
                                btr: Self::pack_btr(t1 as u32, t2 as u32, b as u32),
                            };
                            proof {
                                assert(accepts(gclk, gbr, gn, gd, gb));
                                assert(cfg == config_of(gclk, gbr, gn, gd, gb));
                            }
                            results.push(cfg);
                        }
                    }
                }
            }
            proof {
                assert(results@ == timings_seq(gclk, gbr, gn, gd, lo as int, gb));
            }
            b = b + 1;
        }
        proof {
            if lo > hi {
                assert(results@ =~= timings_seq(gclk, gbr, gn, gd, lo as int, hi as int));
            } else {
                assert(b == hi + 1);
            }
            assert(results@ == search_results(gclk, gbr, gn, gd));
            lemma_timings_seq_elems(gclk, gbr, gn, gd, lo as int, hi as int);
            assert forall|i: int| 0 <= i < results@.len() implies emitted_ok(
                gclk,
                gbr,
                gn,
                gd,
                #[trigger] results@[i],
            ) by {
                lemma_config_fields(gclk, gbr, gn, gd, results@[i].brp as int);
            }
        }
        results
    }
}

/// An accepted prescaler's configuration record carries exactly the
/// field values, packed register and accuracy bounds that `emitted_ok`
/// states.
proof fn lemma_config_fields(clk: int, br: int, n: int, d: int, brp: int)
    requires
        1 <= clk < 0x1_0000_0000,
        1 <= br < 0x1_0000_0000,
        1 <= n < d,
        d < 0x1_0000_0000,
        1 <= brp < 0x1_0000_0000,
        accepts(clk, br, n, d, brp),
    ensures
        emitted_ok(clk, br, n, d, config_of(clk, br, n, d, brp)),
{
    let t1: int = ts1_of(clk, br, n, d, brp);
    let nbr: int = nbr_tq_of(clk, br, brp);
    let q: int = d * (br * brp);
    assert(br * brp < 0x1_0000_0000_0000_0000 && 0 <= br * brp) by (nonlinear_arith)
        requires
            0 <= br < 0x1_0000_0000,
            0 <= brp < 0x1_0000_0000,
    ;
    assert(q < 0x1_0000_0000 * 0x1_0000_0000_0000_0000 && 0 <= q) by (nonlinear_arith)
        requires
            0 <= d < 0x1_0000_0000,
            0 <= br * brp < 0x1_0000_0000_0000_0000,
            q == d * (br * brp),
    ;
    assert((1 + t1) * q <= 17 * q) by (nonlinear_arith)
        requires
            t1 <= 16,
            0 <= q,
    ;
    assert((1 + t1) * (br * brp) <= 17 * (br * brp)) by (nonlinear_arith)
        requires
            t1 <= 16,
            0 <= br * brp,
    ;
    assert(n * clk < 0x1_0000_0000_0000_0000 && 0 <= n * clk) by (nonlinear_arith)
        requires
            0 <= n < 0x1_0000_0000,
            0 <= clk < 0x1_0000_0000,
    ;
}

} // verus!
