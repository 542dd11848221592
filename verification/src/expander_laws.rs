//! Laws of the expander and of the noise floor it goes by, from end to end.

use vstd::arithmetic::power2::*;
use vstd::prelude::*;

use crate::audio_effects;
use crate::audio_effects::{ExpanderParams, ExpanderPlan};
use crate::exact;
use crate::expander;
use crate::expander::{FloorFunctions, Functions};
use crate::level_laws;
use crate::sample_laws;
use crate::single;
use crate::single::Single;

verus! {

// ---------------------------------------------------------------------------
// The gain
// ---------------------------------------------------------------------------

/// Where the coefficient is 0, a follower is where it is wanted at once.
proof fn lemma_instant(from: Single, to: Single)
    requires
        single::in_unit(from),
        single::in_unit(to),
        to.value() > 0,
    ensures
        audio_effects::follow(from, to, single::whole(0), single::whole(0)) == to,
{
    let d: Single = single::difference(from, to);
    exact::lemma_whole_zero();
    single::lemma_whole_exact(1);
    lemma_pow2_pos(149);
    exact::lemma_whole_magnitude(2);
    assert(single::negated(to).magnitude() == to.magnitude());
    single::lemma_sum_bounded(from, single::negated(to), single::whole(2));
    single::lemma_zero_magnitude(single::whole(0));
    single::lemma_zero_product(single::whole(0), d);
    single::lemma_zero_magnitude(single::product(single::whole(0), d));
    exact::lemma_plus_zero(to, single::product(single::whole(0), d));
}

/// With an instant attack and release, the gain is the one that is wanted, except that it does not
/// fall while the hold lasts: from the first quiet sample on until the hold is over.
pub proof fn the_gain_is_wanted_or_held(
    env_db: Seq<Single>,
    target: Seq<Single>,
    threshold_db: Single,
    hold: nat,
    i: int,
)
    requires
        -1 <= i < target.len(),
        env_db.len() == target.len(),
        forall|k: int|
            0 <= k < target.len() ==> single::in_unit(#[trigger] target[k]) && target[k].value()
                > 0,
    ensures
        ({
            let zero = single::whole(0);
            let g = audio_effects::gain_at(env_db, target, threshold_db, hold, zero, zero, i);
            let before = audio_effects::gain_at(
                env_db,
                target,
                threshold_db,
                hold,
                zero,
                zero,
                i - 1,
            );
            let held = audio_effects::held_for(env_db, threshold_db, hold, i);
            &&& single::in_unit(g) && g.value() > 0
            &&& i == -1 ==> g == single::whole(1)
            &&& i >= 0 && held == 0 ==> g == target[i]
            &&& i >= 0 && held >= hold ==> g == target[i]
            &&& i >= 0 && 0 < held < hold ==> g.value() >= before.value() && g.value()
                >= target[i].value() && (g == before || g == target[i])
        }),
    decreases i + 1,
{
    single::lemma_whole_exact(1);
    lemma_pow2_pos(149);
    assert(1 * pow2(149) == pow2(149));
    if i >= 0 {
        the_gain_is_wanted_or_held(env_db, target, threshold_db, hold, i - 1);
        let zero: Single = single::whole(0);
        let before: Single = audio_effects::gain_at(
            env_db,
            target,
            threshold_db,
            hold,
            zero,
            zero,
            i - 1,
        );
        assert(single::in_unit(target[i]));
        let held: nat = audio_effects::held_for(env_db, threshold_db, hold, i);
        let wanted: Single = if 0 < held < hold {
            single::maximum(before, target[i])
        } else {
            target[i]
        };
        lemma_instant(before, wanted);
    }
}

/// A gain of 1 that is wanted on stays 1.
proof fn lemma_open_stays_open(rising: Single, falling: Single)
    requires
        falling.finite(),
    ensures
        audio_effects::follow(single::whole(1), single::whole(1), rising, falling) == single::whole(
            1,
        ),
{
    exact::lemma_whole_zero();
    exact::lemma_whole_difference(1, 1);
    single::lemma_whole_exact(1);
    lemma_pow2_pos(149);
    assert(1 * pow2(149) == pow2(149));
    single::lemma_zero_magnitude(single::whole(0));
    single::lemma_zero_product(falling, single::whole(0));
    single::lemma_zero_magnitude(single::product(falling, single::whole(0)));
    exact::lemma_plus_zero(single::whole(1), single::product(falling, single::whole(0)));
}

/// A channel whose level never falls below the threshold comes out as it went in.
pub proof fn what_is_never_quiet_passes(m: Functions, p: ExpanderPlan, x: Seq<Single>, i: int)
    requires
        0 <= i < x.len(),
        x[i].finite(),
        (m.exp)(p.release_exponent).finite(),
        forall|k: int|
            0 <= k < x.len() ==> single::at_most(
                p.threshold_db,
                #[trigger] expander::channel_envelope(m, p, x)[k],
            ),
    ensures
        expander::expanded_channel(m, p, x).len() == x.len(),
        expander::expanded_channel(m, p, x)[i] == x[i],
{
    lemma_open_gain(m, p, x, i);
    exact::lemma_times_one(x[i]);
}

proof fn lemma_open_gain(m: Functions, p: ExpanderPlan, x: Seq<Single>, i: int)
    requires
        -1 <= i < x.len(),
        (m.exp)(p.release_exponent).finite(),
        forall|k: int|
            0 <= k < x.len() ==> single::at_most(
                p.threshold_db,
                #[trigger] expander::channel_envelope(m, p, x)[k],
            ),
    ensures
        expander::smoothed_gain(m, p, x, i) == single::whole(1),
    decreases i + 1,
{
    if i >= 0 {
        lemma_open_gain(m, p, x, i - 1);
        let env: Seq<Single> = expander::channel_envelope(m, p, x);
        assert(single::at_most(p.threshold_db, env[i]));
        assert(expander::wanted_gains(m, p, env)[i] == single::whole(1));
        single::lemma_whole_exact(1);
        lemma_open_stays_open((m.exp)(p.attack_exponent), (m.exp)(p.release_exponent));
    }
}

/// Of each level, the gain that is wanted: 1 from the threshold on, that of the knee within it, and
/// that of the profile below.
pub proof fn each_level_asks_for_its_gain(m: Functions, p: ExpanderPlan, env_db: Single)
    ensures
        single::at_most(p.threshold_db, env_db) ==> expander::wanted_gain(m, p, env_db)
            == single::whole(1),
        single::less(env_db, p.threshold_db) && single::at_most(
            env_db,
            single::difference(p.threshold_db, p.knee_db),
        ) ==> expander::wanted_gain(m, p, env_db) == (m.ten_to)(p.floor_exponent),
{
}

/// The envelope rises by the attack and falls by the release, and takes its levels over the window
/// of the plan.
pub proof fn the_envelope_goes_by_the_plan(m: Functions, p: ExpanderPlan, x: Seq<Single>, i: int)
    requires
        0 < i < x.len(),
    ensures
        ({
            let e = expander::channel_envelope(m, p, x);
            let level = expander::channel_levels(m, x, p.rms_win as nat);
            &&& e.len() == x.len()
            &&& e[0] == level[0]
            &&& single::less(e[i - 1], level[i]) ==> e[i] == single::sum(
                level[i],
                single::product(
                    (m.exp)(p.attack_exponent),
                    single::difference(e[i - 1], level[i]),
                ),
            )
            &&& !single::less(e[i - 1], level[i]) ==> e[i] == single::sum(
                level[i],
                single::product(
                    (m.exp)(p.release_exponent),
                    single::difference(e[i - 1], level[i]),
                ),
            )
            &&& level[i] == audio_effects::level_db(
                (m.root)(audio_effects::mean_square(x, p.rms_win as nat, i)),
                (m.log10)((m.root)(audio_effects::mean_square(x, p.rms_win as nat, i))),
            )
        }),
{
}

/// The gain rises by the attack and falls by the release.
pub proof fn the_gain_goes_by_the_plan(m: Functions, p: ExpanderPlan, x: Seq<Single>, i: int)
    requires
        0 <= i < x.len(),
        !(0 < audio_effects::held_for(
            expander::channel_envelope(m, p, x),
            p.threshold_db,
            p.hold_samples as nat,
            i,
        ) < p.hold_samples),
    ensures
        ({
            let before = expander::smoothed_gain(m, p, x, i - 1);
            let wanted = expander::wanted_gain(m, p, expander::channel_envelope(m, p, x)[i]);
            expander::smoothed_gain(m, p, x, i) == single::sum(
                wanted,
                single::product(
                    if single::less(before, wanted) {
                        (m.exp)(p.attack_exponent)
                    } else {
                        (m.exp)(p.release_exponent)
                    },
                    single::difference(before, wanted),
                ),
            )
        }),
        expander::expanded_channel(m, p, x)[i] == single::product(
            x[i],
            expander::smoothed_gain(m, p, x, i),
        ),
{
}

// ---------------------------------------------------------------------------
// Causality
// ---------------------------------------------------------------------------

/// The two signals agree up to the sample `i`.
pub open spec fn agree_to(x: Seq<Single>, y: Seq<Single>, i: int) -> bool {
    i < x.len() && i < y.len() && forall|k: int| 0 <= k <= i ==> x[k] == y[k]
}

proof fn lemma_same_sum(x: Seq<Single>, y: Seq<Single>, win: nat, i: nat)
    requires
        agree_to(x, y, i - 1),
    ensures
        audio_effects::running_sum(x, win, i) == audio_effects::running_sum(y, win, i),
    decreases i,
{
    if i > 0 {
        lemma_same_sum(x, y, win, (i - 1) as nat);
    }
}

proof fn lemma_same_envelope(m: Functions, p: ExpanderPlan, x: Seq<Single>, y: Seq<Single>, i: int)
    requires
        0 <= i,
        agree_to(x, y, i),
    ensures
        expander::channel_envelope(m, p, x)[i] == expander::channel_envelope(m, p, y)[i],
{
    let a: Seq<Single> = expander::channel_levels(m, x, p.rms_win as nat);
    let b: Seq<Single> = expander::channel_levels(m, y, p.rms_win as nat);
    assert forall|k: int| 0 <= k <= i implies a[k] == b[k] by {
        lemma_same_sum(x, y, p.rms_win as nat, (k + 1) as nat);
    }
    level_laws::the_envelope_starts_at_the_first_level(
        a,
        b,
        (m.exp)(p.attack_exponent),
        (m.exp)(p.release_exponent),
        i,
    );
}

proof fn lemma_same_hold(a: Seq<Single>, b: Seq<Single>, t: Single, hold: nat, i: int)
    requires
        -1 <= i,
        agree_to(a, b, i),
    ensures
        audio_effects::held_for(a, t, hold, i) == audio_effects::held_for(b, t, hold, i),
    decreases i + 1,
{
    if i >= 0 {
        lemma_same_hold(a, b, t, hold, i - 1);
    }
}

proof fn lemma_same_gain(m: Functions, p: ExpanderPlan, x: Seq<Single>, y: Seq<Single>, i: int)
    requires
        -1 <= i,
        agree_to(x, y, i),
    ensures
        expander::smoothed_gain(m, p, x, i) == expander::smoothed_gain(m, p, y, i),
    decreases i + 1,
{
    if i >= 0 {
        lemma_same_gain(m, p, x, y, i - 1);
        let a: Seq<Single> = expander::channel_envelope(m, p, x);
        let b: Seq<Single> = expander::channel_envelope(m, p, y);
        assert forall|k: int| 0 <= k <= i implies a[k] == b[k] by {
            lemma_same_envelope(m, p, x, y, k);
        }
        lemma_same_hold(a, b, p.threshold_db, p.hold_samples as nat, i);
    }
}

/// What comes out at a sample depends on what went in up to it, and on nothing later.
pub proof fn the_expander_does_not_look_ahead(
    m: Functions,
    p: ExpanderPlan,
    x: Seq<Single>,
    y: Seq<Single>,
    i: int,
)
    requires
        0 <= i,
        agree_to(x, y, i),
    ensures
        expander::expanded_channel(m, p, x)[i] == expander::expanded_channel(m, p, y)[i],
{
    lemma_same_gain(m, p, x, y, i);
}

// ---------------------------------------------------------------------------
// The functions
// ---------------------------------------------------------------------------

/// There is a plan exactly where there are samples, channels and a sample rate; without one the
/// expander leaves the samples as they are.
pub proof fn the_expander_needs_something_to_work_on(
    len: usize,
    sr: u32,
    channels: u16,
    params: &ExpanderParams,
    floor: Single,
    r: Option<ExpanderPlan>,
)
    requires
        call_ensures(audio_effects::expander_plan, (len, sr, channels, params, floor), r),
    ensures
        r is Some <==> len > 0 && sr > 0 && channels > 0,
        r matches Some(p) ==> p == audio_effects::plan(sr, *params, floor),
{
}

/// The expander works on each channel by itself, however many there are, with the plan for its
/// settings; it leaves a signal alone only where there is nothing to work on.
pub proof fn the_expander_works_channel_by_channel(
    m: Functions,
    samples: Seq<Single>,
    sr: u32,
    channels: u16,
    params: ExpanderParams,
    floor: Single,
    c: nat,
)
    ensures
        samples.len() == 0 || sr == 0 || channels == 0 ==> expander::applied(
            m,
            samples,
            sr,
            channels,
            params,
            floor,
        ) == samples,
        samples.len() > 0 && sr > 0 && c < channels ==> {
            let r = expander::applied(m, samples, sr, channels, params, floor);
            &&& r.len() == samples.len()
            &&& audio_effects::channel_of(r, channels as nat, c) == expander::expanded_channel(
                m,
                audio_effects::plan(sr, params, floor),
                audio_effects::channel_of(samples, channels as nat, c),
            )
        },
{
    if c < channels {
        expander::channels_are_expanded_apart(
            m,
            audio_effects::plan(sr, params, floor),
            samples,
            channels as nat,
            c,
        );
    }
}

// ---------------------------------------------------------------------------
// The noise floor
// ---------------------------------------------------------------------------

/// There is a window for the noise floor exactly where there is a signal at least as long.
pub proof fn the_noise_floor_needs_one_window(len: usize, sr: u32, r: Option<usize>)
    requires
        call_ensures(audio_effects::noise_floor_window, (len, sr), r),
    ensures
        r matches Some(w) ==> w == audio_effects::floor_window(sr) && 0 < w <= len,
        r is None ==> len == 0 || sr == 0 || audio_effects::floor_window(sr) == 0 || len
            < audio_effects::floor_window(sr),
{
}

/// The levels of a signal under a window that is open throughout: one for each place where the
/// window fits, the root of the mean of the squares there.
pub proof fn the_levels_of_a_signal(m: FloorFunctions, v: Seq<int>, win: nat, j: int)
    requires
        2 <= win <= v.len(),
        forall|c: Single| #[trigger] (m.cos)(c) == single::whole(-1),
        level_laws::squares(v, 0, v.len() as int) < 0x100_0000,
        0 <= j && j * (win / 2) + win <= v.len(),
    ensures
        j < expander::floor_rms(m, level_laws::whole_samples(v), win).len(),
        expander::floor_rms(m, level_laws::whole_samples(v), win)[j] == (m.root)(
            single::ratio(
                level_laws::squares(v, j * (win / 2), j * (win / 2) + win),
                win as int,
            ),
        ),
{
    let w: Seq<Single> = expander::floor_weights(m, win);
    sample_laws::the_window_opens_in_the_middle();
    assert forall|n: int| 0 <= n < w.len() implies #[trigger] w[n] == single::whole(1) by {}
    level_laws::a_window_is_looked_at_where_it_fits(v.len(), win, j as nat);
    let pos: int = j * (win / 2);
    assert(pos >= 0) by (nonlinear_arith)
        requires
            pos == j * ((win / 2) as int),
            j >= 0,
    ;
    level_laws::lemma_suffix(v, pos, pos + win);
    level_laws::lemma_squares_monotone(v, 0, pos + win, v.len() as int);
    level_laws::every_sample_in_the_window_counts(v, pos, w, win);
}

/// The window is a raised cosine over its places.
pub proof fn the_window_is_a_raised_cosine(m: FloorFunctions, win: nat, n: int)
    requires
        0 <= n < win,
    ensures
        expander::floor_weights(m, win).len() == win,
        expander::floor_weights(m, win)[n] == audio_effects::hann_weight(
            (m.cos)(single::ratio(n, win - 1)),
        ),
{
}

/// There is something to take the noise floor from exactly where there is a signal, a sample rate,
/// and room for one window.
pub proof fn when_a_noise_floor_is_looked_for(len: nat, sr: u32)
    ensures
        expander::floor_known(len, sr) <==> len > 0 && sr > 0 && 0 < audio_effects::floor_window(sr)
            <= len,
{
}

/// Each window that can be heard gives one level, 20 times the logarithm of its root mean square,
/// in the order of the windows.
pub proof fn every_window_that_can_be_heard_gives_a_level(
    m: FloorFunctions,
    x: Seq<Single>,
    win: nat,
    j: int,
)
    requires
        2 <= win <= x.len(),
        0 <= j < audio_effects::window_count(x.len(), win),
        single::less(single::ratio(1, 10_000_000), expander::floor_rms(m, x, win)[j]),
    ensures
        ({
            let rms = expander::floor_rms(m, x, win);
            let levels = expander::floor_levels(m, x, win);
            let k = level_laws::heard(rms, j as nat);
            &&& levels.len() == level_laws::heard(rms, rms.len())
            &&& k < levels.len()
            &&& levels[k as int] == single::product(single::whole(20), (m.log10)(rms[j]))
        }),
{
    let rms: Seq<Single> = expander::floor_rms(m, x, win);
    let log10: Seq<Single> = rms.map_values(|v: Single| (m.log10)(v));
    level_laws::every_audible_level_counts(rms, log10, j);
}

/// The noise floor that is found is that of all the levels of the signal that can be heard, in every
/// window that fits; there is none where there are fewer than ten of them, or not even one window.
pub proof fn the_noise_floor_of_a_signal(
    m: FloorFunctions,
    samples: Seq<Single>,
    sr: u32,
    r: Option<Single>,
)
    requires
        expander::floor_found(m, samples, sr, r),
    ensures
        samples.len() == 0 || sr == 0 || samples.len() < audio_effects::floor_window(sr)
            ==> r is None,
        samples.len() > 0 && sr > 0 && 0 < audio_effects::floor_window(sr) <= samples.len() ==> {
            let levels = expander::floor_levels(m, samples, audio_effects::floor_window(sr));
            &&& r is Some <==> levels.len() >= 10
            &&& r matches Some(v) ==> levels.contains(v)
            &&& audio_effects::is_noise_floor(levels, r)
        },
{
}

} // verus!
