use vstd::prelude::*;
use crate::bxcan::accepts;
use crate::bxcan::config_of;
use crate::bxcan::timings_seq;
use crate::bxcan::BxcanTiming;
use crate::bxcan::max_brp;
use crate::bxcan::min_brp;
use crate::bxcan::pack_btr_spec;
use crate::bxcan::scanned_count;
use crate::bxcan::search_results;
use vstd::arithmetic::div_mod::lemma_div_is_ordered;
use vstd::arithmetic::div_mod::lemma_fundamental_div_mod;
use vstd::arithmetic::div_mod::lemma_fundamental_div_mod_converse_div;
use vstd::arithmetic::div_mod::lemma_mod_division_less_than_divisor;

verus! {

/// Field extraction from a packed register built out of already
/// decremented fields.
proof fn lemma_pack_bits(x: u32, y: u32, z: u32)
    requires
        x < 8,
        y < 16,
        z < 0x10000,
    ensures
        (((x << 20u32) | (y << 16u32)) | z) & 0xFFFFu32 == z,
        ((((x << 20u32) | (y << 16u32)) | z) >> 16u32) & 0xFu32 == y,
        (((x << 20u32) | (y << 16u32)) | z) >> 20u32 == x,
{
    assert((((x << 20u32) | (y << 16u32)) | z) & 0xFFFFu32 == z && ((((x << 20u32) | (y
        << 16u32)) | z) >> 16u32) & 0xFu32 == y && (((x << 20u32) | (y << 16u32)) | z) >> 20u32
        == x) by (bit_vector)
        requires
            x < 8,
            y < 16,
            z < 0x10000,
    ;
}

/// The packed register value is exactly reversible: the low 16 bits give
/// back `brp - 1`, bits 16 to 19 give back `ts1 - 1` and the bits from 20
/// up give back `ts2 - 1`, whenever the prescaler fits its 16-bit field.
pub proof fn lemma_btr_round_trip(ts1: u32, ts2: u32, brp: u32)
    requires
        1 <= ts1 <= 16,
        1 <= ts2 <= 8,
        1 <= brp <= 0x10000,
    ensures
        pack_btr_spec(ts1, ts2, brp) & 0xFFFFu32 == (brp - 1) as u32,
        (pack_btr_spec(ts1, ts2, brp) >> 16u32) & 0xFu32 == (ts1 - 1) as u32,
        pack_btr_spec(ts1, ts2, brp) >> 20u32 == (ts2 - 1) as u32,
{
    let x: u32 = (ts2 - 1) as u32;
    let y: u32 = (ts1 - 1) as u32;
    let z: u32 = (brp - 1) as u32;
    assert(pack_btr_spec(ts1, ts2, brp) == ((x << 20u32) | (y << 16u32)) | z);
    lemma_pack_bits(x, y, z);
}

/// Scaling the clock by a positive integer factor, with the baud rate
/// fixed, never shrinks the prescaler scan range: the count of scanned
/// candidates weakly increases.
pub proof fn lemma_scanned_count_scales(clk: int, br: int, k: int)
    requires
        1 <= clk,
        1 <= br,
        1 <= k,
    ensures
        scanned_count(clk, br) <= scanned_count(k * clk, br),
{
    let b25: int = 25 * br;
    let b3: int = 3 * br;
    let m1: int = min_brp(clk, br);
    let h1: int = max_brp(clk, br);
    let m2: int = min_brp(k * clk, br);
    let h2: int = max_brp(k * clk, br);

    // The scaled lower bound is at most `k` times the unscaled one.
    lemma_fundamental_div_mod(clk + b25 - 1, b25);
    lemma_mod_division_less_than_divisor(clk + b25 - 1, b25);
    assert(clk <= b25 * m1);
    assert(k * clk + b25 - 1 <= (k * m1) * b25 + (b25 - 1)) by (nonlinear_arith)
        requires
            1 <= k,
            clk <= b25 * m1,
    ;
    lemma_div_is_ordered(k * clk + b25 - 1, (k * m1) * b25 + (b25 - 1), b25);
    lemma_fundamental_div_mod_converse_div((k * m1) * b25 + (b25 - 1), b25, k * m1, b25 - 1);
    assert(m2 <= k * m1);

    // The scaled upper bound is at least `k` times the unscaled one.
    lemma_fundamental_div_mod(clk, b3);
    lemma_mod_division_less_than_divisor(clk, b3);
    assert((k * h1) * b3 + 0 <= k * clk) by (nonlinear_arith)
        requires
            1 <= k,
            clk == b3 * h1 + clk % b3,
            0 <= clk % b3,
    ;
    lemma_div_is_ordered((k * h1) * b3 + 0, k * clk, b3);
    lemma_fundamental_div_mod_converse_div((k * h1) * b3 + 0, b3, k * h1, 0);
    assert(k * h1 <= h2);

    if m1 <= h1 {
        assert(k * m1 <= k * h1 && h1 - m1 <= k * h1 - k * m1) by (nonlinear_arith)
            requires
                1 <= k,
                m1 <= h1,
        ;
        assert(scanned_count(clk, br) <= scanned_count(k * clk, br));
    }
}

/// The search misses nothing: every prescaler inside the scanned range
/// that satisfies the acceptance checks contributes its configuration to
/// the emitted sequence.
pub proof fn lemma_timings_seq_complete(
    clk: int,
    br: int,
    n: int,
    d: int,
    lo: int,
    hi: int,
    p: int,
)
    requires
        lo <= p <= hi,
        accepts(clk, br, n, d, p),
    ensures
        timings_seq(clk, br, n, d, lo, hi).contains(config_of(clk, br, n, d, p)),
    decreases hi + 1 - lo,
{
    let c = config_of(clk, br, n, d, p);
    let s = timings_seq(clk, br, n, d, lo, hi);
    let s0 = timings_seq(clk, br, n, d, lo, hi - 1);
    if p == hi {
        assert(s == s0.push(c));
        assert(s[s.len() - 1] == c);
    } else {
        lemma_timings_seq_complete(clk, br, n, d, lo, hi - 1, p);
        let i = choose|i: int| 0 <= i < s0.len() && s0[i] == c;
        assert(s[i] == c);
    }
}

/// The search is a function of its four inputs alone: any two result
/// sequences obtained for identical inputs are identical.
pub proof fn lemma_search_deterministic(
    clk: int,
    br: int,
    n: int,
    d: int,
    r1: Seq<BxcanTiming>,
    r2: Seq<BxcanTiming>,
)
    requires
        r1 == search_results(clk, br, n, d),
        r2 == search_results(clk, br, n, d),
    ensures
        r1 == r2,
{
}

} // verus!
