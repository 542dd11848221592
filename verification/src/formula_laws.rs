//! Laws of the single steps of the signal processing, for samples of every size.

use vstd::arithmetic::power2::*;
use vstd::prelude::*;

use crate::audio_effects;
use crate::audio_effects::{ExpanderPlan, GainRegion, BINS, FFT_SIZE};
use crate::exact;
use crate::rounding;
use crate::single;
use crate::single::Single;

verus! {

// ---------------------------------------------------------------------------
// Energy
// ---------------------------------------------------------------------------

/// Each sample enters the running sum with its square, and leaves it again `win` samples later with
/// the same.
pub proof fn a_sample_enters_and_leaves_the_running_sum(x: Seq<Single>, win: nat, i: nat)
    requires
        i < x.len(),
    ensures
        i < win ==> audio_effects::running_sum(x, win, i + 1) == single::sum(
            single::difference(audio_effects::running_sum(x, win, i), single::whole(0)),
            single::product(x[i as int], x[i as int]),
        ),
        i >= win ==> audio_effects::running_sum(x, win, i + 1) == single::sum(
            single::difference(
                audio_effects::running_sum(x, win, i),
                single::product(x[i - win], x[i - win]),
            ),
            single::product(x[i as int], x[i as int]),
        ),
        audio_effects::running_sum(x, win, 0) == single::whole(0),
{
}

/// The mean square of one sample alone is its square, whatever its size.
pub proof fn the_mean_square_of_one_sample(x: Seq<Single>)
    requires
        x.len() > 0,
        x[0].finite(),
        single::product(x[0], x[0]).finite(),
    ensures
        audio_effects::mean_square(x, 1, 0).value() == single::product(x[0], x[0]).value(),
{
    let q: Single = single::product(x[0], x[0]);
    exact::lemma_whole_zero();
    exact::lemma_whole_difference(0, 0);
    exact::lemma_plus_zero(q, single::whole(0));
    let s: Single = audio_effects::running_sum(x, 1, 1);
    reveal_with_fuel(audio_effects::running_sum, 2);
    assert(s == single::sum(single::whole(0), q));
    lemma_pow2_pos(149);
    single::lemma_rounded_rounds(false, x[0].magnitude() * x[0].magnitude(), pow2(149));
    assert(!q.negative());
    single::lemma_zero_magnitude(s);
    let m: Single = single::maximum(s, single::whole(0));
    assert(m.value() == q.value() && m.finite());
    exact::lemma_whole_magnitude(1);
    let u: nat = pow2(149);
    assert(1 * u == u);
    exact::lemma_held(m, u);
    single::lemma_zero_magnitude(single::whole(1));
}

/// Each sample under a window adds the square of what the window leaves of it.
pub proof fn a_sample_adds_its_weighted_square(
    x: Seq<Single>,
    pos: int,
    weight: Seq<Single>,
    n: nat,
)
    ensures
        audio_effects::weighted_energy(x, pos, weight, n + 1) == single::sum(
            audio_effects::weighted_energy(x, pos, weight, n),
            single::product(
                single::product(x[pos + n], weight[n as int]),
                single::product(x[pos + n], weight[n as int]),
            ),
        ),
        audio_effects::weighted_energy(x, pos, weight, 0) == single::whole(0),
{
}

// ---------------------------------------------------------------------------
// Gains
// ---------------------------------------------------------------------------

/// Within the knee the reduction is the largest one times how far the level lies below the
/// threshold, over the width of the knee.
pub proof fn the_reduction_within_the_knee(p: ExpanderPlan, env_db: Single)
    requires
        single::less(env_db, p.threshold_db),
        single::less(single::difference(p.threshold_db, p.knee_db), env_db),
    ensures
        audio_effects::region(p, env_db) == (GainRegion::Knee {
            exponent: single::quotient(
                single::product(
                    p.max_reduction_db,
                    single::quotient(single::difference(p.threshold_db, env_db), p.knee_db),
                ),
                single::whole(20),
            ),
        }),
{
}

/// A decay is one over its time in samples, below zero.
pub proof fn a_decay_is_one_over_its_time(ms: Single, sr: u32)
    ensures
        audio_effects::decay_exponent(ms, sr) == single::quotient(
            single::whole(-1),
            single::product(single::product(ms, single::ratio(1, 1000)), single::whole(sr as int)),
        ),
{
}

/// The margin is 2 dB, and 6 dB more at full safety; a safety beyond the ends counts as the end.
pub proof fn the_margin_within_its_ends(pct: Single)
    requires
        !pct.nan(),
    ensures
        single::at_most(single::whole(0), pct) && single::at_most(pct, single::whole(100))
            ==> audio_effects::margin_db(pct) == single::sum(
            single::whole(2),
            single::product(single::quotient(pct, single::whole(100)), single::whole(6)),
        ),
        single::less(pct, single::whole(0)) ==> audio_effects::margin_db(pct)
            == audio_effects::margin_db(single::whole(0)),
        single::less(single::whole(100), pct) ==> audio_effects::margin_db(pct)
            == audio_effects::margin_db(single::whole(100)),
{
    exact::lemma_whole_difference(8, 2);
    single::lemma_whole_exact(0);
    single::lemma_whole_exact(100);
    single::lemma_units_order(0, 100);
}

/// A bin below the threshold has a fraction of it, which is turned into a gain; any other bin
/// passes.
pub proof fn a_bin_below_the_threshold_has_a_fraction(env: Single, threshold: Single, g: Single)
    ensures
        audio_effects::below(env, threshold) is Some <==> single::less(env, threshold),
        audio_effects::below(env, threshold) matches Some(f) ==> f == single::quotient(
            env,
            threshold,
        ),
        audio_effects::gain_of(None) == single::whole(1),
        !g.nan() && g.value() >= 0 ==> audio_effects::gain_of(Some(g)).value() == g.value(),
        !g.nan() && g.value() < 0 ==> audio_effects::gain_of(Some(g)) == single::whole(0),
{
    exact::lemma_whole_zero();
}

/// The power of a bin is the sum of the squares of its two parts.
pub proof fn the_power_of_a_bin_in_full(re: Seq<Single>, im: Seq<Single>, k: int)
    requires
        0 <= k < BINS,
    ensures
        audio_effects::powers(re, im)[k] == single::sum(
            single::product(re[k], re[k]),
            single::product(im[k], im[k]),
        ),
{
}

// ---------------------------------------------------------------------------
// Putting samples back
// ---------------------------------------------------------------------------

/// A transform adds to the samples under it, each its own share, and to no others.
pub proof fn a_transform_adds_to_the_samples_under_it(
    out: Seq<Single>,
    pos: int,
    re: Seq<Single>,
    weight: Seq<Single>,
    i: int,
)
    requires
        0 <= i < out.len(),
    ensures
        audio_effects::overlapped(out, pos, re, weight).len() == out.len(),
        i < pos || i >= pos + FFT_SIZE ==> audio_effects::overlapped(out, pos, re, weight)[i]
            == out[i],
        pos <= i < pos + FFT_SIZE ==> audio_effects::overlapped(out, pos, re, weight)[i]
            == single::sum(
            out[i],
            single::product(
                single::product(re[i - pos], single::ratio(1, 2048)),
                weight[i - pos],
            ),
        ),
{
}

/// What the overlap of the windows adds up to is made up for, sample by sample.
pub proof fn the_overlap_is_made_up_for(x: Seq<Single>, i: int)
    requires
        0 <= i < x.len(),
    ensures
        audio_effects::made_up(x).len() == x.len(),
        audio_effects::made_up(x)[i] == single::product(x[i], single::ratio(2, 3)),
{
}

/// A frame is weighted sample by sample, from its place on.
pub proof fn a_frame_is_weighted_sample_by_sample(
    x: Seq<Single>,
    pos: int,
    weight: Seq<Single>,
    n: int,
)
    requires
        0 <= n < weight.len(),
    ensures
        audio_effects::frame(x, pos, weight).len() == weight.len(),
        audio_effects::frame(x, pos, weight)[n] == single::product(x[pos + n], weight[n]),
{
}

/// What came back from the denoiser is brought back to full scale.
pub proof fn what_came_back_is_scaled_down(wet: Seq<Single>, shift: int, i: int)
    requires
        0 <= i,
        0 <= shift,
        i + shift < wet.len(),
    ensures
        audio_effects::denoised(wet, shift, i) == single::quotient(
            wet[i + shift],
            single::whole(32768),
        ),
{
}

// ---------------------------------------------------------------------------
// Channels
// ---------------------------------------------------------------------------

/// Twice a number can be held wherever it is not too large.
proof fn lemma_twice(x: Single)
    requires
        x.finite(),
        x.value() != 0,
        2 * x.magnitude() < single::overflow_bound(),
    ensures
        single::sum(x, x).finite(),
        single::sum(x, x).magnitude() == 2 * x.magnitude(),
        single::sum(x, x).negative() == x.negative(),
{
    exact::lemma_magnitude_is_scaled(x);
    let (a, k) = choose|a: nat, k: nat|
        a < 0x100_0000 && x.magnitude() == #[trigger] exact::scaled(a, k);
    lemma_pow2_unfold(k + 1);
    assert(pow2(24) == 0x100_0000) by {
        lemma2_to64();
    }
    rounding::lemma_nearest_keeps(a, k + 1, 1, 24);
    let m: nat = x.magnitude();
    assert(a * pow2(k + 1) == 2 * m) by (nonlinear_arith)
        requires
            pow2(k + 1) == 2 * pow2(k),
            m == a * pow2(k),
    ;
    assert((a * pow2(k + 1)) * 1 == 2 * m);
    single::lemma_rounded_rounds(x.negative(), 2 * m, 1);
}

/// Two channels that agree give what they hold, whatever its size.
pub proof fn two_channels_that_agree(x: &[Single], r: Vec<Single>, i: int)
    requires
        call_ensures(audio_effects::downmix, (x, 2usize), r),
        0 <= i < r@.len(),
        x@[2 * i] == x@[2 * i + 1],
        x@[2 * i].finite(),
        2 * x@[2 * i].magnitude() < single::overflow_bound(),
    ensures
        r@.len() == x@.len() / 2,
        r@[i].value() == x@[2 * i].value(),
{
    let y: Single = x@[2 * i];
    let s: Seq<Single> = x@;
    let f: int = 2 * i;
    reveal_with_fuel(audio_effects::sum_between, 3);
    assert(i * 2 == f);
    assert(audio_effects::sum_between(s, f, f) == single::whole(0));
    assert(audio_effects::sum_between(s, f, f + 1) == single::sum(single::whole(0), y));
    assert(audio_effects::sum_between(s, f, f + 2) == single::sum(
        single::sum(single::whole(0), y),
        y,
    ));
    exact::lemma_whole_zero();
    exact::lemma_plus_zero(y, single::whole(0));
    let t: Single = single::sum(single::sum(single::whole(0), y), y);
    assert(r@[i] == single::quotient(t, single::whole(2)));
    assert(pow2(1) == 2) by {
        lemma2_to64();
    }
    exact::lemma_whole_power(1);
    if y.value() != 0 {
        lemma_twice(y);
        exact::lemma_magnitude_is_scaled(y);
        let (a, k) = choose|a: nat, k: nat|
            a < 0x100_0000 && y.magnitude() == #[trigger] exact::scaled(a, k);
        lemma_pow2_unfold(k + 1);
        assert(a * pow2(k + 1) == 2 * y.magnitude()) by (nonlinear_arith)
            requires
                pow2(k + 1) == 2 * pow2(k),
                y.magnitude() == a * pow2(k),
        ;
        exact::lemma_over_power(t, 1, k + 1, a);
    } else {
        let z: Single = single::sum(single::whole(0), y);
        exact::lemma_plus_zero(z, y);
        single::lemma_zero_magnitude(t);
        single::lemma_whole_exact(2);
        single::lemma_units_order(0, 2);
        assert(0 * pow2(149) == 0);
        single::lemma_zero_quotient(t, single::whole(2));
        single::lemma_zero_magnitude(r@[i]);
    }
}

} // verus!
