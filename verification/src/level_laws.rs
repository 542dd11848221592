//! Laws of the levels: how time, loudness and gain relate.

use vstd::arithmetic::div_mod::*;
use vstd::arithmetic::power2::*;
use vstd::prelude::*;

use crate::audio_effects;
use crate::audio_effects::{ExpanderParams, ExpanderPlan, GainRegion};
use crate::exact;
use crate::single;
use crate::single::Single;

verus! {

// ---------------------------------------------------------------------------
// Time
// ---------------------------------------------------------------------------

/// The window of the noise floor is 25 ms, to the nearest sample but for the rounding.
pub proof fn the_noise_floor_is_taken_over_25_ms(sr: u32)
    requires
        0 < sr < 0x10_0000,
    ensures
        -1007 <= 2000 * audio_effects::floor_window(sr) - 50 * sr <= 1007,
{
    exact::lemma_share(sr as nat, 25, 1000);
}

/// The levels of the expander are taken over 3 ms, to the nearest sample but for the rounding, and
/// over one sample at least.
pub proof fn the_expander_looks_at_3_ms(sr: u32)
    requires
        0 < sr < 0x10_0000,
    ensures
        audio_effects::rms_window(sr) >= 1,
        sr >= 1000 ==> -1001 <= 2000 * audio_effects::rms_window(sr) - 6 * sr <= 1001,
{
    exact::lemma_share(sr as nat, 3, 1000);
}

/// An index is the whole number closest to a length, and halves go up.
pub proof fn halves_go_up(x: Single)
    requires
        x.finite(),
        !x.negative(),
        x.magnitude() < 0x1000_0000 * pow2(149),
    ensures
        2 * (single::rounded_index(x) * pow2(149)) <= 2 * x.magnitude() + pow2(149),
        2 * x.magnitude() < 2 * (single::rounded_index(x) * pow2(149)) + pow2(149),
{
    exact::lemma_units_close(x);
    let u: nat = pow2(149);
    lemma_pow2_pos(149);
    let n: nat = single::units_of(x);
    assert(n <= 0x1000_0000) by (nonlinear_arith)
        requires
            2 * (n * u) <= 2 * x.magnitude() + u,
            x.magnitude() < 0x1000_0000 * u,
            u > 0,
    ;
}

/// A window of the noise floor is looked at exactly where it fits into the signal, the windows
/// lying half a window apart.
pub proof fn a_window_is_looked_at_where_it_fits(len: nat, win: nat, t: nat)
    requires
        2 <= win <= len,
    ensures
        t < audio_effects::window_count(len, win) <==> t * (win / 2) + win <= len,
{
    let h: int = (win / 2) as int;
    let d: int = len - win;
    lemma_fundamental_div_mod(d, h);
    lemma_mod_bound(d, h);
    let q: int = d / h;
    if t <= q {
        assert(t * h <= h * q) by (nonlinear_arith)
            requires
                t <= q,
                h > 0,
        ;
    } else {
        assert(t * h >= h * q + h) by (nonlinear_arith)
            requires
                t >= q + 1,
                h > 0,
        ;
    }
}

/// So many milliseconds are so many samples, but for the roundings on the way.
#[verifier::spinoff_prover]
pub proof fn milliseconds_in_samples(ms: nat, sr: u32)
    requires
        0 < ms < 0x100_0000,
        0 < sr < 0x100_0000,
    ensures
        ({
            let b = audio_effects::ms_in_samples(single::whole(ms as int), sr);
            let exact = (ms * (sr as nat)) * pow2(149);
            &&& b.finite() && !b.negative()
            &&& 0x40_0000 * (1000 * b.magnitude()) <= 0x40_0000 * exact + exact
            &&& 0x40_0000 * exact <= 0x40_0000 * (1000 * b.magnitude()) + exact
        }),
{
    let u: nat = pow2(149);
    let s: nat = sr as nat;
    exact::lemma_unit_is_large();
    exact::lemma_ratio_close(1, 1000);
    let rs: Single = single::ratio(1, 1000);
    let r: nat = rs.magnitude();
    assert(1 * u == u);
    assert(0x1000_0000 <= r <= u);
    exact::lemma_whole_times_close(ms, rs);
    let a: Single = single::product(single::whole(ms as int), rs);
    let m: nat = a.magnitude();
    let mr: nat = ms * r;
    assert(mr >= r && mr <= 0x100_0000 * r) by (nonlinear_arith)
        requires
            mr == ms * r,
            1 <= ms < 0x100_0000,
    ;
    assert(0x100_0000 <= m) by (nonlinear_arith)
        requires
            0x100_0000 * mr <= 0x100_0000 * m + mr,
            mr >= 0x1000_0000,
    ;
    assert(1000 * r <= 2 * u);
    assert(m <= 0x100_0000 * u);
    exact::lemma_whole_times_close(s, a);
    let b: nat = single::product(a, single::whole(s as int)).magnitude();
    let y: nat = 1000 * (s * m);
    let z: nat = 1000 * (s * mr);
    let w: nat = (ms * s) * u;
    assert(0x100_0000 * (1000 * b) <= 0x100_0000 * y + y && 0x100_0000 * y <= 0x100_0000 * (1000
        * b) + y);
    assert(0x100_0000 * y <= 0x100_0000 * z + z && 0x100_0000 * z <= 0x100_0000 * y + z)
        by (nonlinear_arith)
        requires
            0x100_0000 * m <= 0x100_0000 * mr + mr,
            0x100_0000 * mr <= 0x100_0000 * m + mr,
            y == 1000 * (s * m),
            z == 1000 * (s * mr),
    ;
    assert(0x100_0000 * z <= 0x100_0000 * w + w && 0x100_0000 * w <= 0x100_0000 * z + w)
        by (nonlinear_arith)
        requires
            0x100_0000 * (r * 1000) <= 0x100_0000 * u + u,
            0x100_0000 * u <= 0x100_0000 * (r * 1000) + u,
            z == 1000 * (s * mr),
            mr == ms * r,
            w == (ms * s) * u,
    ;
}

/// The hold lasts as many samples as its milliseconds make, to the nearest sample but for the
/// roundings on the way.
pub proof fn the_hold_lasts_its_milliseconds(sr: u32, p: ExpanderParams, floor: Single, ms: nat)
    requires
        0 < ms < 0x100_0000,
        0 < sr < 0x100_0000,
        ms * sr < 0x1_0000_0000,
        p.hold_ms == single::whole(ms as int),
    ensures
        ({
            let h = audio_effects::plan(sr, p, floor).hold_samples as int;
            let exact = (ms * sr) as int;
            &&& 0x40_0000 * (2000 * h) <= 0x40_0000 * (2 * exact + 1000) + 2 * exact
            &&& 0x40_0000 * (2 * exact) <= 0x40_0000 * (2000 * h + 1000) + 2 * exact
        }),
{
    milliseconds_in_samples(ms, sr);
    let u: nat = pow2(149);
    lemma_pow2_pos(149);
    let b: Single = audio_effects::ms_in_samples(single::whole(ms as int), sr);
    exact::lemma_units_close(b);
    let h: nat = single::units_of(b);
    let e: nat = ms * (sr as nat);
    let hu: nat = h * u;
    let eu: nat = e * u;
    let bm: nat = b.magnitude();
    assert(2 * hu <= 2 * bm + u && 2 * bm <= 2 * hu + u);
    assert(0x40_0000 * (1000 * bm) <= 0x40_0000 * eu + eu);
    assert(0x40_0000 * eu <= 0x40_0000 * (1000 * bm) + eu);
    assert(0x40_0000 * (2000 * hu) <= 0x40_0000 * (2 * eu + 1000 * u) + 2 * eu && 0x40_0000 * (2
        * eu) <= 0x40_0000 * (2000 * hu + 1000 * u) + 2 * eu) by (nonlinear_arith)
        requires
            2 * hu <= 2 * bm + u,
            2 * bm <= 2 * hu + u,
            0x40_0000 * (1000 * bm) <= 0x40_0000 * eu + eu,
            0x40_0000 * eu <= 0x40_0000 * (1000 * bm) + eu,
    ;
    assert(0x40_0000 * (2000 * h) <= 0x40_0000 * (2 * e + 1000) + 2 * e && 0x40_0000 * (2 * e)
        <= 0x40_0000 * (2000 * h + 1000) + 2 * e) by (nonlinear_arith)
        requires
            0x40_0000 * (2000 * hu) <= 0x40_0000 * (2 * eu + 1000 * u) + 2 * eu,
            0x40_0000 * (2 * eu) <= 0x40_0000 * (2000 * hu + 1000 * u) + 2 * eu,
            hu == h * u,
            eu == e * u,
            u > 0,
    ;
    assert(h <= 0x1_0000_0000);
    assert(h < 0x1000_0000);
    assert(single::rounded_index(b) == h);
}

/// The decay of an attack or a release: over as many milliseconds as it was given, it comes to -1,
/// but for the roundings on the way.
#[verifier::spinoff_prover]
pub proof fn a_decay_lasts_its_milliseconds(ms: nat, sr: u32)
    requires
        0 < ms < 0x100_0000,
        0 < sr < 0x100_0000,
        ms * sr < 0x1_0000_0000,
        1000 <= ms * sr,
    ensures
        ({
            let e = audio_effects::decay_exponent(single::whole(ms as int), sr);
            let t = (ms * (sr as nat)) * e.magnitude();
            &&& e.finite() && e.negative()
            &&& 0x20_0000 * t <= 0x20_0000 * (1000 * pow2(149)) + 1000 * pow2(149)
            &&& 0x20_0000 * (1000 * pow2(149)) <= 0x20_0000 * t + 1000 * pow2(149)
        }),
{
    milliseconds_in_samples(ms, sr);
    exact::lemma_unit_is_large();
    let u: nat = pow2(149);
    let bs: Single = audio_effects::ms_in_samples(single::whole(ms as int), sr);
    let b: nat = bs.magnitude();
    let k: nat = ms * (sr as nat);
    let ku: nat = k * u;
    assert(1000 * u <= ku < 0x1_0000_0000 * u) by (nonlinear_arith)
        requires
            ku == k * u,
            1000 <= k < 0x1_0000_0000,
            u > 0,
    ;
    assert(u <= 2 * b && b <= 0x1_0000_0000 * u);
    exact::lemma_whole_magnitude(-1);
    assert(1 * u == u);
    single::lemma_zero_magnitude(bs);
    let n: nat = u * u;
    assert(0x100_0000 * b <= n) by (nonlinear_arith)
        requires
            n == u * u,
            b <= 0x1_0000_0000 * u,
            u >= 0x1_0000_0000_0000_0000_0000,
    ;
    assert(n <= pow2(200) * b) by (nonlinear_arith)
        requires
            n == u * u,
            u <= 2 * b,
            pow2(200) >= 0x1_0000_0000_0000 * u,
    ;
    exact::lemma_rounded_close(true, n, b);
    let e: nat = audio_effects::decay_exponent(single::whole(ms as int), sr).magnitude();
    assert(single::whole(-1).magnitude() == u);
    let t: nat = k * e;
    let eb: nat = e * b;
    let tu: nat = t * u;
    // 1000 * b is close to k * u, and e * b is close to u * u
    assert(0x40_0000 * (1000 * eb) <= 0x40_0000 * tu + tu && 0x40_0000 * tu <= 0x40_0000 * (1000
        * eb) + tu) by (nonlinear_arith)
        requires
            0x40_0000 * (1000 * b) <= 0x40_0000 * ku + ku,
            0x40_0000 * ku <= 0x40_0000 * (1000 * b) + ku,
            ku == k * u,
            eb == e * b,
            t == k * e,
            tu == t * u,
    ;
    assert(0x20_0000 * tu <= 0x20_0000 * (1000 * n) + 1000 * n);
    assert(0x20_0000 * (1000 * n) <= 0x20_0000 * tu + 1000 * n);
    assert(0x20_0000 * t <= 0x20_0000 * (1000 * u) + 1000 * u && 0x20_0000 * (1000 * u)
        <= 0x20_0000 * t + 1000 * u) by (nonlinear_arith)
        requires
            0x20_0000 * tu <= 0x20_0000 * (1000 * n) + 1000 * n,
            0x20_0000 * (1000 * n) <= 0x20_0000 * tu + 1000 * n,
            tu == t * u,
            n == u * u,
            u > 0,
    ;
}

/// Each time of the expander goes to its own place in the plan, and so do its levels.
pub proof fn the_plan_takes_each_setting_to_its_place(sr: u32, p: ExpanderParams, floor: Single)
    requires
        0 < sr < 0x10_0000,
    ensures
        ({
            let plan = audio_effects::plan(sr, p, floor);
            &&& plan.attack_exponent == audio_effects::decay_exponent(p.attack_ms, sr)
            &&& plan.release_exponent == audio_effects::decay_exponent(p.release_ms, sr)
            &&& plan.max_reduction_db == single::whole(p.reduction_profile.whole_db())
            &&& plan.floor_exponent == single::ratio(p.reduction_profile.whole_db(), 20)
            &&& plan.threshold_db == single::difference(
                floor,
                audio_effects::margin_db(p.safety_pct),
            )
            &&& plan.rms_win == audio_effects::rms_window(sr)
            &&& single::at_most(single::ratio(1, 10), plan.knee_db)
            &&& single::at_most(single::ratio(1, 10), p.knee_db) ==> plan.knee_db == p.knee_db
                || plan.knee_db.value() == p.knee_db.value()
        }),
{
    exact::lemma_ratio_close(1, 10);
    exact::lemma_share(sr as nat, 3, 1000);
}

// ---------------------------------------------------------------------------
// Energy
// ---------------------------------------------------------------------------

/// The sum of the squares from `from` up to `to`.
pub open spec fn squares(v: Seq<int>, from: int, to: int) -> int
    decreases to - from,
{
    if to <= from {
        0
    } else {
        squares(v, from, to - 1) + v[to - 1] * v[to - 1]
    }
}

/// Samples with these whole values.
pub open spec fn whole_samples(v: Seq<int>) -> Seq<Single> {
    v.map_values(|i: int| single::whole(i))
}

proof fn lemma_squares_bounds(v: Seq<int>, from: int, to: int)
    ensures
        squares(v, from, to) >= 0,
    decreases to - from,
{
    if to > from {
        lemma_squares_bounds(v, from, to - 1);
        let x: int = v[to - 1];
        assert(x * x >= 0) by (nonlinear_arith);
    }
}

proof fn lemma_squares_first(v: Seq<int>, from: int, to: int)
    requires
        from < to,
    ensures
        squares(v, from, to) == v[from] * v[from] + squares(v, from + 1, to),
    decreases to - from,
{
    if from + 1 < to {
        lemma_squares_first(v, from, to - 1);
    } else {
        assert(squares(v, from, to - 1) == 0);
        assert(squares(v, from + 1, to) == 0);
    }
}

pub proof fn lemma_squares_monotone(v: Seq<int>, from: int, a: int, b: int)
    requires
        a <= b,
    ensures
        squares(v, from, a) <= squares(v, from, b),
    decreases b - a,
{
    if a < b {
        lemma_squares_monotone(v, from, a, b - 1);
        if from < b {
            let x: int = v[b - 1];
            assert(x * x >= 0) by (nonlinear_arith);
        }
    }
}

pub proof fn lemma_square_of_whole(i: int)
    requires
        i * i < 0x100_0000,
    ensures
        audio_effects::square(single::whole(i)) == single::whole(i * i),
{
    let a: int = if i < 0 {
        -i
    } else {
        i
    };
    assert(a * a == i * i) by (nonlinear_arith)
        requires
            a == i || a == -i,
    ;
    assert(a < 0x100_0000) by (nonlinear_arith)
        requires
            a * a < 0x100_0000,
            a >= 0,
    ;
    exact::lemma_whole_product(a, a);
    exact::lemma_whole_magnitude(i);
    exact::lemma_whole_magnitude(a);
    assert(single::whole(i).magnitude() == single::whole(a).magnitude());
}

/// The running sum holds the squares of the last `win` samples and of no others.
pub proof fn the_running_sum_covers_the_window(v: Seq<int>, win: nat, i: nat)
    requires
        i <= v.len(),
        squares(v, 0, i as int) < 0x100_0000,
    ensures
        audio_effects::running_sum(whole_samples(v), win, i) == single::whole(
            squares(
                v,
                if i >= win {
                    i - win
                } else {
                    0
                },
                i as int,
            ),
        ),
    decreases i,
{
    let x: Seq<Single> = whole_samples(v);
    if i > 0 {
        let k: int = i - 1;
        lemma_squares_monotone(v, 0, k, i as int);
        the_running_sum_covers_the_window(v, win, k as nat);
        lemma_squares_bounds(v, 0, k);
        let new: int = v[k] * v[k];
        assert(new >= 0) by (nonlinear_arith)
            requires
                new == v[k] * v[k],
        ;
        assert(squares(v, 0, i as int) == squares(v, 0, k) + new);
        lemma_square_of_whole(v[k]);
        let from: int = if k >= win {
            k - win
        } else {
            0
        };
        let was: int = squares(v, from, k);
        lemma_squares_bounds(v, from, k);
        lemma_suffix(v, from, k);
        if k >= win {
            let old: int = v[k - win] * v[k - win];
            assert(old >= 0) by (nonlinear_arith)
                requires
                    old == v[k - win] * v[k - win],
            ;
            if win == 0 {
                assert(was == 0);
                lemma_square_of_whole(v[k]);
                exact::lemma_whole_difference(0, new);
                exact::lemma_whole_sum(-new, new);
            } else {
                lemma_squares_first(v, from, k);
                lemma_squares_bounds(v, from + 1, k);
                lemma_square_of_whole(v[k - win]);
                exact::lemma_whole_difference(was, old);
                exact::lemma_whole_sum(was - old, new);
                lemma_suffix(v, from + 1, k);
            }
        } else {
            exact::lemma_whole_difference(was, 0);
            exact::lemma_whole_sum(was, new);
        }
    }
}

pub proof fn lemma_suffix(v: Seq<int>, from: int, to: int)
    requires
        0 <= from,
    ensures
        squares(v, from, to) <= squares(v, 0, to),
    decreases from,
{
    if from > 0 {
        lemma_suffix(v, from - 1, to);
        if from - 1 < to {
            lemma_squares_first(v, from - 1, to);
            let x: int = v[from - 1];
            assert(x * x >= 0) by (nonlinear_arith);
        }
    }
}

/// The mean square is that of the last `win` samples, those before the first one counting as
/// silence.
pub proof fn the_mean_square_covers_the_window(v: Seq<int>, win: nat, i: nat)
    requires
        i < v.len(),
        squares(v, 0, i as int + 1) < 0x100_0000,
        win > 0,
    ensures
        audio_effects::mean_square(whole_samples(v), win, i as int) == single::ratio(
            squares(
                v,
                if i + 1 >= win {
                    i + 1 - win
                } else {
                    0
                },
                i as int + 1,
            ),
            win as int,
        ),
{
    the_running_sum_covers_the_window(v, win, i + 1);
    let from: int = if i + 1 >= win {
        i + 1 - win
    } else {
        0
    };
    let s: int = squares(v, from, i as int + 1);
    lemma_squares_bounds(v, from, i as int + 1);
    lemma_suffix(v, from, i as int + 1);
    single::lemma_whole_exact(s);
    single::lemma_whole_exact(0);
    if s > 0 {
        single::lemma_units_order(0, s);
    }
}

/// Under a flat window the energy is the sum of the squares of the samples in it.
pub proof fn every_sample_in_the_window_counts(v: Seq<int>, pos: int, weight: Seq<Single>, n: nat)
    requires
        0 <= pos && pos + n <= v.len(),
        n <= weight.len(),
        forall|k: int| 0 <= k < weight.len() ==> #[trigger] weight[k] == single::whole(1),
        squares(v, pos, pos + n) < 0x100_0000,
    ensures
        audio_effects::weighted_energy(whole_samples(v), pos, weight, n) == single::whole(
            squares(v, pos, pos + n),
        ),
    decreases n,
{
    if n > 0 {
        let k: int = n - 1;
        let x: Seq<Single> = whole_samples(v);
        let sq: int = v[pos + k] * v[pos + k];
        lemma_squares_monotone(v, pos, pos + k, pos + n);
        lemma_squares_bounds(v, pos, pos + k);
        every_sample_in_the_window_counts(v, pos, weight, k as nat);
        assert(sq >= 0) by (nonlinear_arith)
            requires
                sq == v[pos + k] * v[pos + k],
        ;
        assert(weight[k] == single::whole(1));
        assert(-0x100_0000 < v[pos + k] < 0x100_0000) by (nonlinear_arith)
            requires
                v[pos + k] * v[pos + k] < 0x100_0000,
        ;
        exact::lemma_whole_magnitude(v[pos + k]);
        exact::lemma_times_one(x[pos + k]);
        lemma_square_of_whole(v[pos + k]);
        exact::lemma_whole_sum(squares(v, pos, pos + k), sq);
    }
}

/// The energies of a signal under a flat window: one for each place where the window fits, half a
/// window apart, each the mean of the squares in the window there.
pub proof fn the_energies_of_a_signal(x: &[Single], v: Seq<int>, weight: &[Single], r: Vec<Single>)
    requires
        2 <= weight@.len() <= x@.len(),
        x@ == whole_samples(v),
        squares(v, 0, v.len() as int) < 0x100_0000,
        forall|k: int| 0 <= k < weight@.len() ==> #[trigger] weight@[k] == single::whole(1),
        call_ensures(audio_effects::window_energies, (x, weight), r),
    ensures
        forall|t: nat|
            t < r@.len() <==> #[trigger] (t * (weight@.len() / 2)) + weight@.len() <= x@.len(),
        forall|t: int|
            0 <= t < r@.len() ==> #[trigger] r@[t] == single::ratio(
                squares(
                    v,
                    t * (weight@.len() / 2),
                    t * (weight@.len() / 2) + weight@.len(),
                ),
                weight@.len() as int,
            ),
{
    let win: nat = weight@.len();
    let len: nat = x@.len();
    assert(len == v.len());
    assert forall|t: nat| t < r@.len() <==> #[trigger] (t * (win / 2)) + win <= len by {
        a_window_is_looked_at_where_it_fits(len, win, t);
    }
    assert forall|t: int| 0 <= t < r@.len() implies #[trigger] r@[t] == single::ratio(
        squares(v, t * (win / 2), t * (win / 2) + win),
        win as int,
    ) by {
        let pos: int = t * (win / 2);
        a_window_is_looked_at_where_it_fits(len, win, t as nat);
        assert(pos >= 0) by (nonlinear_arith)
            requires
                pos == t * ((win / 2) as int),
                t >= 0,
        ;
        lemma_suffix(v, pos, pos + win);
        lemma_squares_monotone(v, 0, pos + win, len as int);
        every_sample_in_the_window_counts(v, pos, weight@, win);
    }
}

// ---------------------------------------------------------------------------
// Levels and gains
// ---------------------------------------------------------------------------

/// A level is 20 times the logarithm above silence, and -200 dB there.
pub proof fn silence_is_at_minus_200_db(rms: Single, log10: Single)
    ensures
        single::less(single::ratio(1, 10_000_000_000), rms) ==> audio_effects::level_db(rms, log10)
            == single::product(single::whole(20), log10),
        !single::less(single::ratio(1, 10_000_000_000), rms) ==> audio_effects::level_db(rms, log10)
            == single::whole(-200),
        rms.finite() && rms.value() <= 0 ==> audio_effects::level_db(rms, log10) == single::whole(
            -200,
        ),
{
    lemma_silence_is_positive();
}

proof fn lemma_silence_is_positive()
    ensures
        audio_effects::silence().value() >= 0,
{
    exact::lemma_whole_magnitude(1);
    let w: Single = single::whole(10_000_000_000);
    lemma_pow2_pos(149);
    let n: nat = (10_000_000_000nat) * pow2(149);
    single::lemma_rounded_rounds(false, n, 1);
    single::lemma_zero_magnitude(w);
    assert(!w.negative());
    let one: Single = single::whole(1);
    if w.finite() && w.magnitude() > 0 {
        single::lemma_rounded_rounds(false, one.magnitude() * pow2(149), w.magnitude());
    } else {
        single::lemma_zero_magnitude(single::zero(false));
        single::lemma_zero_magnitude(single::infinity(false));
    }
}

/// The gain is wide open from the threshold on, at its floor from the knee down, and falls in
/// between.
pub proof fn the_gain_falls_below_the_threshold(p: ExpanderPlan, env_db: Single)
    ensures
        single::at_most(p.threshold_db, env_db) <==> audio_effects::region(p, env_db) is Open,
        single::less(env_db, p.threshold_db) && single::at_most(
            env_db,
            single::difference(p.threshold_db, p.knee_db),
        ) ==> audio_effects::region(p, env_db) is Floor,
        single::less(env_db, p.threshold_db) && single::less(
            single::difference(p.threshold_db, p.knee_db),
            env_db,
        ) ==> audio_effects::region(p, env_db) is Knee,
{
}

/// In whole decibels, the reduction within the knee is in proportion to how far the level lies
/// below the threshold.
pub proof fn the_knee_is_a_straight_line(p: ExpanderPlan, threshold: int, knee: int, below: int)
    requires
        -0x1000 < threshold < 0x1000,
        0 < below < knee < 0x1000,
        p.threshold_db == single::whole(threshold),
        p.knee_db == single::whole(knee),
    ensures
        audio_effects::region(p, single::whole(threshold - below)) == (GainRegion::Knee {
            exponent: single::quotient(
                single::product(p.max_reduction_db, single::ratio(below, knee)),
                single::whole(20),
            ),
        }),
        audio_effects::region(p, single::whole(threshold - knee)) is Floor,
        audio_effects::region(p, single::whole(threshold)) is Open,
{
    let e: int = threshold - below;
    exact::lemma_whole_difference(threshold, knee);
    exact::lemma_whole_difference(threshold, e);
    single::lemma_whole_exact(threshold);
    single::lemma_whole_exact(e);
    single::lemma_whole_exact(threshold - knee);
    single::lemma_units_order(e, threshold);
    single::lemma_units_order(threshold - knee, e);
    single::lemma_units_order(threshold - knee, threshold);
    assert(threshold - e == below);
}

/// The hold counts how long the level has been below the threshold without a break, up to its end.
pub proof fn the_hold_counts_since_the_last_loud_sample(
    env_db: Seq<Single>,
    threshold_db: Single,
    hold: nat,
    i: int,
)
    requires
        -1 <= i < env_db.len(),
    ensures
        ({
            let c = audio_effects::held_for(env_db, threshold_db, hold, i);
            &&& c <= hold
            &&& c <= i + 1
            &&& forall|k: int|
                i - c < k <= i ==> single::less(#[trigger] env_db[k], threshold_db)
            &&& c < hold && c <= i ==> !single::less(env_db[i - c], threshold_db)
        }),
    decreases i + 1,
{
    if i >= 0 {
        the_hold_counts_since_the_last_loud_sample(env_db, threshold_db, hold, i - 1);
        let b: nat = audio_effects::held_for(env_db, threshold_db, hold, i - 1);
        let c: nat = audio_effects::held_for(env_db, threshold_db, hold, i);
        if single::less(env_db[i], threshold_db) {
            if b < hold {
                assert(i - c == i - 1 - b);
            }
        }
    }
}

/// A value that is already there stays; one whose coefficient is 0 arrives at once, and one whose
/// coefficient is 1 stays where it was.
pub proof fn a_follower_rests_where_it_arrived(a: int, b: int, rising: Single, falling: Single)
    requires
        0 <= a < 0x80_0000,
        0 <= b < 0x80_0000,
        rising.finite(),
        falling.finite(),
    ensures
        audio_effects::follow(single::whole(a), single::whole(a), rising, falling).value()
            == single::whole(a).value(),
        a < b && rising == single::whole(0) || b < a && falling == single::whole(0)
            ==> audio_effects::follow(
            single::whole(a),
            single::whole(b),
            rising,
            falling,
        ).value() == single::whole(b).value(),
        a < b && rising == single::whole(1) || b < a && falling == single::whole(1)
            ==> audio_effects::follow(single::whole(a), single::whole(b), rising, falling)
            == single::whole(a),
{
    let x: Single = single::whole(a);
    let y: Single = single::whole(b);
    single::lemma_whole_exact(a);
    single::lemma_whole_exact(b);
    exact::lemma_whole_zero();
    exact::lemma_whole_difference(a, a);
    exact::lemma_whole_difference(a, b);
    single::lemma_whole_exact(a - b);
    single::lemma_zero_product(falling, single::whole(0));
    exact::lemma_plus_zero(x, single::product(falling, single::whole(0)));
    if a < b {
        single::lemma_units_order(a, b);
    } else if b < a {
        single::lemma_units_order(b, a);
    }
    single::lemma_zero_product(single::whole(0), single::whole(a - b));
    exact::lemma_plus_zero(y, single::product(single::whole(0), single::whole(a - b)));
    exact::lemma_times_one(single::whole(a - b));
    exact::lemma_whole_sum(b, a - b);
}

/// The envelope starts at the first level, and only what has been heard counts.
pub proof fn the_envelope_starts_at_the_first_level(
    a: Seq<Single>,
    b: Seq<Single>,
    attack: Single,
    release: Single,
    i: int,
)
    requires
        0 <= i < a.len(),
        i < b.len(),
        forall|k: int| 0 <= k <= i ==> a[k] == b[k],
    ensures
        audio_effects::envelope_at(a, attack, release, 0) == a[0],
        audio_effects::envelope_at(a, attack, release, i) == audio_effects::envelope_at(
            b,
            attack,
            release,
            i,
        ),
    decreases i,
{
    if i > 0 {
        the_envelope_starts_at_the_first_level(a, b, attack, release, i - 1);
    }
}

/// How many of these there are before `n`.
pub open spec fn heard(rms: Seq<Single>, n: nat) -> nat
    decreases n,
{
    if n == 0 {
        0
    } else {
        heard(rms, (n - 1) as nat) + if single::less(single::ratio(1, 10_000_000), rms[n - 1]) {
            1nat
        } else {
            0nat
        }
    }
}

/// Every level that can be heard counts towards the noise floor, once, in order, and no other.
pub proof fn every_audible_level_counts(rms: Seq<Single>, log10: Seq<Single>, k: int)
    requires
        rms.len() == log10.len(),
        0 <= k < rms.len(),
        single::less(single::ratio(1, 10_000_000), rms[k]),
    ensures
        audio_effects::audible(rms, log10).len() == heard(rms, rms.len()),
        heard(rms, k as nat) < audio_effects::audible(rms, log10).len(),
        audio_effects::audible(rms, log10)[heard(rms, k as nat) as int] == single::product(
            single::whole(20),
            log10[k],
        ),
    decreases rms.len(),
{
    lemma_audible_len(rms, log10);
    let a: Seq<Single> = rms.drop_last();
    let b: Seq<Single> = log10.drop_last();
    lemma_audible_len(a, b);
    lemma_heard_before(rms, a, k as nat);
    if k < a.len() {
        assert(a[k] == rms[k] && b[k] == log10[k]);
        every_audible_level_counts(a, b, k);
    }
}

proof fn lemma_heard_before(a: Seq<Single>, b: Seq<Single>, n: nat)
    requires
        n <= a.len(),
        n <= b.len(),
        forall|k: int| 0 <= k < n ==> a[k] == b[k],
    ensures
        heard(a, n) == heard(b, n),
    decreases n,
{
    if n > 0 {
        lemma_heard_before(a, b, (n - 1) as nat);
    }
}

proof fn lemma_audible_len(rms: Seq<Single>, log10: Seq<Single>)
    requires
        rms.len() == log10.len(),
    ensures
        audio_effects::audible(rms, log10).len() == heard(rms, rms.len()),
    decreases rms.len(),
{
    if rms.len() > 0 {
        lemma_audible_len(rms.drop_last(), log10.drop_last());
        lemma_heard_before(rms, rms.drop_last(), (rms.len() - 1) as nat);
    }
}

} // verus!
