//! The downward expander as a whole, and the noise floor that it goes by: the passes of
//! [`crate::audio_effects`] over every channel, and what holds of them together.

use vstd::prelude::*;

use crate::audio_effects;
use crate::audio_effects::{
    audible_levels, channel, each, envelope, expand_channel, expander_plan, gain_region,
    hann_weights, levels, mean_squares, noise_floor, noise_floor_window, set_channel,
    window_energies, window_places, zero_samples, ExpanderParams, ExpanderPlan, GainRegion,
};
use crate::single;
use crate::single::Single;

verus! {

/// The functions that are applied between two passes. The laws hold whatever they are, as far as
/// they do not say otherwise.
pub struct Functions {
    /// e to a power.
    pub exp: spec_fn(Single) -> Single,
    /// 10 to a power.
    pub ten_to: spec_fn(Single) -> Single,
    /// The square root.
    pub root: spec_fn(Single) -> Single,
    /// The decimal logarithm.
    pub log10: spec_fn(Single) -> Single,
}

/// The levels of a channel in dB.
pub open spec fn channel_levels(m: Functions, x: Seq<Single>, win: nat) -> Seq<Single> {
    Seq::new(
        x.len(),
        |i: int|
            {
                let rms = (m.root)(audio_effects::mean_square(x, win, i));
                audio_effects::level_db(rms, (m.log10)(rms))
            },
    )
}

/// The envelope of a channel in dB.
pub open spec fn channel_envelope(m: Functions, p: ExpanderPlan, x: Seq<Single>) -> Seq<Single> {
    Seq::new(
        x.len(),
        |i: int|
            audio_effects::envelope_at(
                channel_levels(m, x, p.rms_win as nat),
                (m.exp)(p.attack_exponent),
                (m.exp)(p.release_exponent),
                i,
            ),
    )
}

/// The gain that a level asks for.
pub open spec fn wanted_gain(m: Functions, p: ExpanderPlan, env_db: Single) -> Single {
    match audio_effects::region(p, env_db) {
        GainRegion::Open => single::whole(1),
        GainRegion::Knee { exponent } => (m.ten_to)(exponent),
        GainRegion::Floor => (m.ten_to)(p.floor_exponent),
    }
}

/// The gains that the levels ask for.
pub open spec fn wanted_gains(m: Functions, p: ExpanderPlan, env_db: Seq<Single>) -> Seq<Single> {
    Seq::new(env_db.len(), |i: int| wanted_gain(m, p, env_db[i]))
}

/// The smoothed gain at sample `i` of a channel.
pub open spec fn smoothed_gain(m: Functions, p: ExpanderPlan, x: Seq<Single>, i: int) -> Single {
    let env_db = channel_envelope(m, p, x);
    audio_effects::gain_at(
        env_db,
        wanted_gains(m, p, env_db),
        p.threshold_db,
        p.hold_samples as nat,
        (m.exp)(p.attack_exponent),
        (m.exp)(p.release_exponent),
        i,
    )
}

/// One channel after the expander.
pub open spec fn expanded_channel(m: Functions, p: ExpanderPlan, x: Seq<Single>) -> Seq<Single> {
    Seq::new(x.len(), |i: int| single::product(x[i], smoothed_gain(m, p, x, i)))
}

/// The output once the first `n` of the `ch` channels are done.
pub open spec fn expanded_upto(
    m: Functions,
    p: ExpanderPlan,
    samples: Seq<Single>,
    ch: nat,
    n: nat,
) -> Seq<Single>
    decreases n,
{
    if n == 0 {
        audio_effects::zeros(samples.len())
    } else {
        let c = (n - 1) as nat;
        audio_effects::with_channel(
            expanded_upto(m, p, samples, ch, c),
            ch,
            c,
            expanded_channel(m, p, audio_effects::channel_of(samples, ch, c)),
        )
    }
}

/// All channels after the expander.
pub open spec fn expanded(m: Functions, p: ExpanderPlan, samples: Seq<Single>, ch: nat) -> Seq<
    Single,
> {
    expanded_upto(m, p, samples, ch, ch)
}

/// What the expander makes of a signal: nothing without samples, channels or a sample rate.
pub open spec fn applied(
    m: Functions,
    samples: Seq<Single>,
    sample_rate: u32,
    channels: u16,
    params: ExpanderParams,
    noise_floor_db: Single,
) -> Seq<Single> {
    if samples.len() == 0 || channels == 0 || sample_rate == 0 {
        samples
    } else {
        expanded(
            m,
            audio_effects::plan(sample_rate, params, noise_floor_db),
            samples,
            channels as nat,
        )
    }
}

/// The functions between the passes can be called.
pub open spec fn usable<E, T, R, L>(exp: E, ten_to: T, root: R, log10: L) -> bool where
    E: Fn(Single) -> Single,
    T: Fn(Single) -> Single,
    R: Fn(Single) -> Single,
    L: Fn(Single) -> Single,
 {
    &&& forall|v: Single| #[trigger] call_requires(exp, (v,))
    &&& forall|v: Single| #[trigger] call_requires(ten_to, (v,))
    &&& forall|v: Single| #[trigger] call_requires(root, (v,))
    &&& forall|v: Single| #[trigger] call_requires(log10, (v,))
}

/// The functions between the passes are those of `m`.
pub open spec fn agrees<E, T, R, L>(m: Functions, exp: E, ten_to: T, root: R, log10: L) -> bool where
    E: Fn(Single) -> Single,
    T: Fn(Single) -> Single,
    R: Fn(Single) -> Single,
    L: Fn(Single) -> Single,
 {
    &&& forall|v: Single, r: Single| #[trigger] call_ensures(exp, (v,), r) ==> (m.exp)(v) == r
    &&& forall|v: Single, r: Single| #[trigger] call_ensures(ten_to, (v,), r) ==> (m.ten_to)(v) == r
    &&& forall|v: Single, r: Single| #[trigger] call_ensures(root, (v,), r) ==> (m.root)(v) == r
    &&& forall|v: Single, r: Single| #[trigger] call_ensures(log10, (v,), r) ==> (m.log10)(v) == r
}

fn copied(x: &[Single]) -> (r: Vec<Single>)
    ensures
        r@ == x@,
{
    let mut r: Vec<Single> = Vec::new();
    for i in 0..x.len()
        invariant
            r@ == x@.take(i as int),
    {
        r.push(x[i]);
        assert(r@ =~= x@.take(i + 1));
    }
    assert(r@ =~= x@);
    r
}

/// The gains that the levels ask for.
fn gains_for<T: Fn(Single) -> Single>(p: &ExpanderPlan, env_db: &[Single], ten_to: &T) -> (r: Vec<
    Single,
>)
    requires
        forall|v: Single| #[trigger] call_requires(*ten_to, (v,)),
    ensures
        r@.len() == env_db@.len(),
        forall|k: int|
            0 <= k < env_db@.len() ==> match audio_effects::region(*p, env_db@[k]) {
                GainRegion::Open => #[trigger] r@[k] == single::whole(1),
                GainRegion::Knee { exponent } => call_ensures(
                    *ten_to,
                    (exponent,),
                    #[trigger] r@[k],
                ),
                GainRegion::Floor => call_ensures(
                    *ten_to,
                    (p.floor_exponent,),
                    #[trigger] r@[k],
                ),
            },
{
    let floor: Single = ten_to(p.floor_exponent);
    let mut r: Vec<Single> = Vec::new();
    for k in 0..env_db.len()
        invariant
            r@.len() == k,
            forall|v: Single| #[trigger] call_requires(*ten_to, (v,)),
            call_ensures(*ten_to, (p.floor_exponent,), floor),
            forall|j: int|
                0 <= j < k ==> match audio_effects::region(*p, env_db@[j]) {
                    GainRegion::Open => #[trigger] r@[j] == single::whole(1),
                    GainRegion::Knee { exponent } => call_ensures(
                        *ten_to,
                        (exponent,),
                        #[trigger] r@[j],
                    ),
                    GainRegion::Floor => call_ensures(
                        *ten_to,
                        (p.floor_exponent,),
                        #[trigger] r@[j],
                    ),
                },
    {
        let gain: Single = match gain_region(p, env_db[k]) {
            GainRegion::Open => Single::from_i32(1),
            GainRegion::Knee { exponent } => ten_to(exponent),
            GainRegion::Floor => floor,
        };
        r.push(gain);
    }
    r
}

/// The downward expander: what stays below the threshold is turned down, by no more than the
/// profile allows. Without samples, channels or a sample rate the samples come back as they are.
/// The exponentials, the root and the logarithm are handed in; where they are functions, the
/// result is that of the passes with them.
#[verifier::spinoff_prover]
pub fn apply_expander<E, T, R, L>(
    samples: &[Single],
    sample_rate: u32,
    channels: u16,
    params: &ExpanderParams,
    noise_floor_db: Single,
    exp: E,
    ten_to: T,
    root: R,
    log10: L,
) -> (r: Vec<Single>) where
    E: Fn(Single) -> Single,
    T: Fn(Single) -> Single,
    R: Fn(Single) -> Single,
    L: Fn(Single) -> Single,

    requires
        usable(exp, ten_to, root, log10),
    ensures
        r@.len() == samples@.len(),
        samples@.len() == 0 || channels == 0 || sample_rate == 0 ==> r@ == samples@,
        samples@.len() > 0 && channels > 0 && sample_rate > 0 ==> forall|m: Functions| #[trigger]
            agrees(m, exp, ten_to, root, log10) ==> r@ == expanded(
                m,
                audio_effects::plan(sample_rate, *params, noise_floor_db),
                samples@,
                channels as nat,
            ),
        forall|m: Functions| #[trigger]
            agrees(m, exp, ten_to, root, log10) ==> r@ == applied(
                m,
                samples@,
                sample_rate,
                channels,
                *params,
                noise_floor_db,
            ),
{
    let p: ExpanderPlan = match expander_plan(
        samples.len(),
        sample_rate,
        channels,
        params,
        noise_floor_db,
    ) {
        Some(p) => p,
        None => {
            return copied(samples);
        },
    };
    let attack: Single = exp(p.attack_exponent);
    let release: Single = exp(p.release_exponent);
    let ch: usize = channels as usize;
    let mut out: Vec<Single> = zero_samples(samples.len());
    for c in 0..ch
        invariant
            ch > 0,
            ch == channels,
            p.rms_win > 0,
            usable(exp, ten_to, root, log10),
            call_ensures(exp, (p.attack_exponent,), attack),
            call_ensures(exp, (p.release_exponent,), release),
            out@.len() == samples@.len(),
            forall|m: Functions| #[trigger]
                agrees(m, exp, ten_to, root, log10) ==> out@ == expanded_upto(
                    m,
                    p,
                    samples@,
                    ch as nat,
                    c as nat,
                ),
    {
        let x: Vec<Single> = channel(samples, ch, c);
        let mean: Vec<Single> = mean_squares(&x, p.rms_win);
        let rms: Vec<Single> = each(&mean, &root);
        let log: Vec<Single> = each(&rms, &log10);
        let level: Vec<Single> = levels(&rms, &log);
        let env: Vec<Single> = envelope(&level, attack, release);
        let target: Vec<Single> = gains_for(&p, &env, &ten_to);
        let y: Vec<Single> = expand_channel(
            &x,
            &env,
            &target,
            p.threshold_db,
            p.hold_samples,
            attack,
            release,
        );
        set_channel(&mut out, ch, c, &y);
        assert forall|m: Functions| #[trigger] agrees(m, exp, ten_to, root, log10) implies y@
            == expanded_channel(m, p, x@) by {
            assert((m.exp)(p.attack_exponent) == attack);
            assert((m.exp)(p.release_exponent) == release);
            assert(level@ =~= channel_levels(m, x@, p.rms_win as nat)) by {
                assert forall|i: int| 0 <= i < x@.len() implies #[trigger] level@[i]
                    == channel_levels(m, x@, p.rms_win as nat)[i] by {
                    assert((m.root)(mean@[i]) == rms@[i]);
                    assert((m.log10)(rms@[i]) == log@[i]);
                }
            }
            assert(env@ =~= channel_envelope(m, p, x@));
            assert(target@ =~= wanted_gains(m, p, env@));
            assert(y@ =~= expanded_channel(m, p, x@));
        }
    }
    out
}

// ---------------------------------------------------------------------------
// The noise floor that the expander goes by
// ---------------------------------------------------------------------------

/// The functions that the estimate of the noise floor takes between two passes.
pub struct FloorFunctions {
    /// The cosine of a place in a window, from 0 to 1 for the whole circle.
    pub cos: spec_fn(Single) -> Single,
    /// The square root.
    pub root: spec_fn(Single) -> Single,
    /// The decimal logarithm.
    pub log10: spec_fn(Single) -> Single,
}

/// The weights of a window of `win` samples.
pub open spec fn floor_weights(m: FloorFunctions, win: nat) -> Seq<Single> {
    Seq::new(
        win,
        |n: int|
            audio_effects::hann_weight((m.cos)(audio_effects::window_place(n, win as int))),
    )
}

/// The root mean square in each window of `win` samples.
pub open spec fn floor_rms(m: FloorFunctions, x: Seq<Single>, win: nat) -> Seq<Single> {
    Seq::new(
        audio_effects::window_count(x.len(), win),
        |j: int|
            (m.root)(
                single::quotient(
                    audio_effects::weighted_energy(
                        x,
                        j * (win / 2),
                        floor_weights(m, win),
                        win,
                    ),
                    single::whole(win as int),
                ),
            ),
    )
}

/// The levels in dB that the noise floor is taken from.
pub open spec fn floor_levels(m: FloorFunctions, x: Seq<Single>, win: nat) -> Seq<Single> {
    let rms = floor_rms(m, x, win);
    audio_effects::audible(rms, rms.map_values(|v: Single| (m.log10)(v)))
}

/// The functions can be called, and the logarithm of a level that counts is a number or infinite.
pub open spec fn floor_usable<C, R, L>(cos: C, root: R, log10: L) -> bool where
    C: Fn(Single) -> Single,
    R: Fn(Single) -> Single,
    L: Fn(Single) -> Single,
 {
    &&& forall|v: Single| #[trigger] call_requires(cos, (v,))
    &&& forall|v: Single| #[trigger] call_requires(root, (v,))
    &&& forall|v: Single| #[trigger] call_requires(log10, (v,))
    &&& forall|v: Single, r: Single| #[trigger]
        call_ensures(log10, (v,), r) && single::less(audio_effects::faintest(), v) ==> !r.nan()
}

/// The functions are those of `m`.
pub open spec fn floor_agrees<C, R, L>(m: FloorFunctions, cos: C, root: R, log10: L) -> bool where
    C: Fn(Single) -> Single,
    R: Fn(Single) -> Single,
    L: Fn(Single) -> Single,
 {
    &&& forall|v: Single, r: Single| #[trigger] call_ensures(cos, (v,), r) ==> (m.cos)(v) == r
    &&& forall|v: Single, r: Single| #[trigger] call_ensures(root, (v,), r) ==> (m.root)(v) == r
    &&& forall|v: Single, r: Single| #[trigger] call_ensures(log10, (v,), r) ==> (m.log10)(v) == r
}

/// There is something to analyze: samples, a sample rate, and as many samples as a window takes.
pub open spec fn floor_known(len: nat, sample_rate: u32) -> bool {
    let win = audio_effects::floor_window(sample_rate);
    len > 0 && sample_rate > 0 && 0 < win <= len
}

/// `r` is the noise floor of the signal: that of its levels, if there is anything to analyze.
pub open spec fn floor_found(
    m: FloorFunctions,
    samples: Seq<Single>,
    sample_rate: u32,
    r: Option<Single>,
) -> bool {
    if floor_known(samples.len(), sample_rate) {
        audio_effects::is_noise_floor(
            floor_levels(m, samples, audio_effects::floor_window(sample_rate)),
            r,
        )
    } else {
        r is None
    }
}

/// What counts of the levels is no NaN.
proof fn lemma_levels_are_numbers(rms: Seq<Single>, log10: Seq<Single>)
    requires
        rms.len() == log10.len(),
        forall|i: int|
            0 <= i < rms.len() && single::less(audio_effects::faintest(), #[trigger] rms[i])
                ==> !log10[i].nan(),
    ensures
        forall|i: int|
            0 <= i < audio_effects::audible(rms, log10).len() ==> !(
            #[trigger] audio_effects::audible(rms, log10)[i]).nan(),
    decreases rms.len(),
{
    if rms.len() > 0 {
        let n: int = rms.len() - 1;
        assert forall|i: int|
            0 <= i < n && single::less(
                audio_effects::faintest(),
                #[trigger] rms.drop_last()[i],
            ) implies !log10.drop_last()[i].nan() by {
            assert(rms.drop_last()[i] == rms[i]);
        }
        lemma_levels_are_numbers(rms.drop_last(), log10.drop_last());
        let head: Seq<Single> = audio_effects::audible(rms.drop_last(), log10.drop_last());
        let all: Seq<Single> = audio_effects::audible(rms, log10);
        if single::less(audio_effects::faintest(), rms.last()) {
            assert(rms[n] == rms.last());
            single::lemma_product_is_a_number(20, log10.last());
            assert forall|i: int| 0 <= i < all.len() implies !(#[trigger] all[i]).nan() by {
                if i < head.len() {
                    assert(all[i] == head[i]);
                }
            }
        } else {
            assert(all == head);
        }
    }
}

/// The noise floor in dB: the 12th percentile of the levels of windows of 25 ms, half a window
/// apart, without those of digital silence; `None` where that cannot be told. The cosine, the root
/// and the logarithm are handed in. A window of one sample has no half to move on by.
#[verifier::spinoff_prover]
pub fn estimate_noise_floor_db<C, R, L>(
    samples: &[Single],
    sample_rate: u32,
    cos: C,
    root: R,
    log10: L,
) -> (r: Option<Single>) where
    C: Fn(Single) -> Single,
    R: Fn(Single) -> Single,
    L: Fn(Single) -> Single,

    requires
        floor_usable(cos, root, log10),
        floor_known(samples@.len(), sample_rate) ==> audio_effects::floor_window(sample_rate) >= 2,
    ensures
        !floor_known(samples@.len(), sample_rate) ==> r is None,
        floor_known(samples@.len(), sample_rate) ==> forall|m: FloorFunctions| #[trigger]
            floor_agrees(m, cos, root, log10) ==> audio_effects::is_noise_floor(
                floor_levels(m, samples@, audio_effects::floor_window(sample_rate)),
                r,
            ),
        forall|m: FloorFunctions| #[trigger]
            floor_agrees(m, cos, root, log10) ==> floor_found(m, samples@, sample_rate, r),
{
    let win: usize = match noise_floor_window(samples.len(), sample_rate) {
        Some(w) => w,
        None => {
            return None;
        },
    };
    let places: Vec<Single> = window_places(win);
    let cosines: Vec<Single> = each(&places, &cos);
    let weight: Vec<Single> = hann_weights(&cosines);
    let energy: Vec<Single> = window_energies(samples, &weight);
    let rms: Vec<Single> = each(&energy, &root);
    let log: Vec<Single> = each(&rms, &log10);
    let level: Vec<Single> = audible_levels(&rms, &log);
    proof {
        assert forall|i: int|
            0 <= i < rms@.len() && single::less(
                audio_effects::faintest(),
                #[trigger] rms@[i],
            ) implies !log@[i].nan() by {
            assert(call_ensures(log10, (rms@[i],), log@[i]));
        }
        lemma_levels_are_numbers(rms@, log@);
    }
    let r: Option<Single> = noise_floor(&level);
    assert forall|m: FloorFunctions| #[trigger]
        floor_agrees(m, cos, root, log10) implies audio_effects::is_noise_floor(
        floor_levels(m, samples@, win as nat),
        r,
    ) by {
        assert forall|n: int| 0 <= n < win implies #[trigger] weight@[n] == floor_weights(
            m,
            win as nat,
        )[n] by {
            assert(call_ensures(cos, (places@[n],), cosines@[n]));
        }
        assert(weight@ =~= floor_weights(m, win as nat));
        assert forall|j: int| 0 <= j < rms@.len() implies #[trigger] rms@[j] == floor_rms(
            m,
            samples@,
            win as nat,
        )[j] by {
            assert(call_ensures(root, (energy@[j],), rms@[j]));
        }
        assert(rms@ =~= floor_rms(m, samples@, win as nat));
        assert forall|j: int| 0 <= j < rms@.len() implies #[trigger] log@[j] == rms@.map_values(
            |v: Single| (m.log10)(v),
        )[j] by {
            assert(call_ensures(log10, (rms@[j],), log@[j]));
        }
        assert(log@ =~= rms@.map_values(|v: Single| (m.log10)(v)));
    }
    r
}

// ---------------------------------------------------------------------------
// Laws
// ---------------------------------------------------------------------------

/// The expander keeps the length of the signal, and works on each channel as if it were alone.
pub proof fn channels_are_expanded_apart(
    m: Functions,
    p: ExpanderPlan,
    samples: Seq<Single>,
    ch: nat,
    c: nat,
)
    requires
        c < ch,
    ensures
        expanded(m, p, samples, ch).len() == samples.len(),
        audio_effects::channel_of(expanded(m, p, samples, ch), ch, c) == expanded_channel(
            m,
            p,
            audio_effects::channel_of(samples, ch, c),
        ),
        expanded(m, p, audio_effects::channel_of(samples, ch, c), 1) == expanded_channel(
            m,
            p,
            audio_effects::channel_of(samples, ch, c),
        ),
{
    lemma_expanded_upto(m, p, samples, ch, ch, c);
    let x: Seq<Single> = audio_effects::channel_of(samples, ch, c);
    assert(audio_effects::channel_of(x, 1, 0) =~= x);
    lemma_expanded_upto(m, p, x, 1, 1, 0);
    let alone: Seq<Single> = expanded(m, p, x, 1);
    assert(audio_effects::channel_of(alone, 1, 0) =~= alone);
}

proof fn lemma_expanded_upto(
    m: Functions,
    p: ExpanderPlan,
    samples: Seq<Single>,
    ch: nat,
    n: nat,
    c: nat,
)
    requires
        n <= ch,
        c < ch,
    ensures
        expanded_upto(m, p, samples, ch, n).len() == samples.len(),
        c < n ==> audio_effects::channel_of(expanded_upto(m, p, samples, ch, n), ch, c)
            == expanded_channel(m, p, audio_effects::channel_of(samples, ch, c)),
    decreases n,
{
    if n > 0 {
        let last: nat = (n - 1) as nat;
        lemma_expanded_upto(m, p, samples, ch, last, c);
        let x: Seq<Single> = audio_effects::channel_of(samples, ch, last);
        audio_effects::lemma_channel_replaced(
            expanded_upto(m, p, samples, ch, last),
            ch,
            last,
            expanded_channel(m, p, x),
            c,
        );
    }
}

/// The knee of the plan can tell how far the level is below the threshold: not where both are
/// without end.
pub open spec fn knee_measures(p: ExpanderPlan, env_db: Single) -> bool {
    p.knee_db.infinite() ==> !single::difference(p.threshold_db, env_db).infinite()
}

/// The gain that a level asks for is one between 0 and 1, and no less than the cap.
proof fn lemma_wanted_gain(
    m: Functions,
    sample_rate: u32,
    params: ExpanderParams,
    noise_floor_db: Single,
    env_db: Single,
)
    requires
        knee_measures(audio_effects::plan(sample_rate, params, noise_floor_db), env_db),
        forall|v: Single|
            single::at_most(v, single::whole(0)) ==> single::in_unit(#[trigger] (m.ten_to)(v)),
    ensures
        ({
            let p = audio_effects::plan(sample_rate, params, noise_floor_db);
            let floor = (m.ten_to)(p.floor_exponent);
            &&& single::in_unit(floor)
            &&& single::in_unit(wanted_gain(m, p, env_db))
            &&& (forall|v: Single|
                single::at_most(p.floor_exponent, v) && single::at_most(v, single::whole(0))
                    ==> single::at_most(floor, #[trigger] (m.ten_to)(v))) ==> single::at_most(
                floor,
                wanted_gain(m, p, env_db),
            )
        }),
{
    audio_effects::lemma_cap_reduces(sample_rate, params, noise_floor_db);
    audio_effects::no_gain_below_the_cap_is_asked_for(sample_rate, params, noise_floor_db, env_db);
    vstd::arithmetic::power2::lemma_pow2_pos(149);
    single::lemma_whole_exact(1);
    assert(1 * vstd::arithmetic::power2::pow2(149) == vstd::arithmetic::power2::pow2(149));
    let p: ExpanderPlan = audio_effects::plan(sample_rate, params, noise_floor_db);
    let floor: Single = (m.ten_to)(p.floor_exponent);
    assert(single::in_unit(floor));
    assert(single::in_unit(single::whole(1)));
    assert(single::at_most(floor, floor));
    assert(single::at_most(floor, single::whole(1)));
}

/// The expander makes no sample louder, as long as 10 to a power that is not above 0, and the two
/// coefficients, lie between 0 and 1.
pub proof fn no_expanded_sample_is_louder(
    m: Functions,
    sample_rate: u32,
    params: ExpanderParams,
    noise_floor_db: Single,
    x: Seq<Single>,
    i: int,
)
    requires
        0 <= i < x.len(),
        x[i].finite(),
        ({
            let p = audio_effects::plan(sample_rate, params, noise_floor_db);
            &&& single::in_unit((m.exp)(p.attack_exponent))
            &&& single::in_unit((m.exp)(p.release_exponent))
            &&& forall|k: int|
                0 <= k < x.len() ==> knee_measures(p, #[trigger] channel_envelope(m, p, x)[k])
        }),
        forall|v: Single|
            single::at_most(v, single::whole(0)) ==> single::in_unit(#[trigger] (m.ten_to)(v)),
    ensures
        ({
            let p = audio_effects::plan(sample_rate, params, noise_floor_db);
            &&& single::in_unit(smoothed_gain(m, p, x, i))
            &&& expanded_channel(m, p, x)[i].finite()
            &&& expanded_channel(m, p, x)[i].magnitude() <= x[i].magnitude()
        }),
{
    let p: ExpanderPlan = audio_effects::plan(sample_rate, params, noise_floor_db);
    let env_db: Seq<Single> = channel_envelope(m, p, x);
    let target: Seq<Single> = wanted_gains(m, p, env_db);
    assert forall|k: int| 0 <= k < target.len() implies single::in_unit(#[trigger] target[k]) by {
        lemma_wanted_gain(m, sample_rate, params, noise_floor_db, env_db[k]);
    }
    audio_effects::the_expander_never_amplifies(
        env_db,
        target,
        p.threshold_db,
        p.hold_samples as nat,
        (m.exp)(p.attack_exponent),
        (m.exp)(p.release_exponent),
        i,
    );
    audio_effects::no_sample_gets_louder(x[i], smoothed_gain(m, p, x, i));
}

/// The reduction of the expander is capped: no gain is below that of the profile, as long as 10 to
/// a power lies between 0 and 1 and does not fall below the cap between the cap and 0, and the
/// coefficient of the attack is at most `1 - 2^-22`.
pub proof fn no_gain_falls_below_that_of_the_profile(
    m: Functions,
    sample_rate: u32,
    params: ExpanderParams,
    noise_floor_db: Single,
    x: Seq<Single>,
    i: int,
)
    requires
        0 <= i < x.len(),
        ({
            let p = audio_effects::plan(sample_rate, params, noise_floor_db);
            &&& single::in_unit((m.exp)(p.attack_exponent))
            &&& (m.exp)(p.attack_exponent).magnitude() <= 0x3f_ffff * vstd::arithmetic::power2::pow2(
                127,
            )
            &&& single::in_unit((m.exp)(p.release_exponent))
            &&& forall|k: int|
                0 <= k < x.len() ==> knee_measures(p, #[trigger] channel_envelope(m, p, x)[k])
            &&& forall|v: Single|
                single::at_most(p.floor_exponent, v) && single::at_most(v, single::whole(0))
                    ==> single::at_most((m.ten_to)(p.floor_exponent), #[trigger] (m.ten_to)(v))
        }),
        forall|v: Single|
            single::at_most(v, single::whole(0)) ==> single::in_unit(#[trigger] (m.ten_to)(v)),
    ensures
        ({
            let p = audio_effects::plan(sample_rate, params, noise_floor_db);
            single::at_most((m.ten_to)(p.floor_exponent), smoothed_gain(m, p, x, i))
        }),
{
    let p: ExpanderPlan = audio_effects::plan(sample_rate, params, noise_floor_db);
    let floor: Single = (m.ten_to)(p.floor_exponent);
    let env_db: Seq<Single> = channel_envelope(m, p, x);
    let target: Seq<Single> = wanted_gains(m, p, env_db);
    assert forall|k: int| 0 <= k < target.len() implies single::in_unit(#[trigger] target[k])
        && single::at_most(floor, target[k]) by {
        lemma_wanted_gain(m, sample_rate, params, noise_floor_db, env_db[k]);
    }
    assert(single::in_unit(floor)) by {
        audio_effects::lemma_cap_reduces(sample_rate, params, noise_floor_db);
    }
    audio_effects::the_reduction_is_capped(
        env_db,
        target,
        p.threshold_db,
        p.hold_samples as nat,
        (m.exp)(p.attack_exponent),
        (m.exp)(p.release_exponent),
        floor,
        i,
    );
}

} // verus!
