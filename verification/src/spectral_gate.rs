//! The spectral gate as a whole: the passes of [`crate::audio_effects`] over every window and
//! every channel, and what holds of them together.

use vstd::arithmetic::power2::pow2;
use vstd::prelude::*;

use crate::audio_effects;
use crate::audio_effects::{
    below_gate, bin_powers, channel, each, follow_bins, frame_at, gate_bins, gate_gain, make_up,
    overlap_add, set_channel, transforms, zero_samples, BINS, FFT_SIZE, HOP,
};
use crate::single;
use crate::single::Single;

verus! {

/// What a run of the spectral gate goes by: its window and its numbers, and the functions that
/// are applied between two passes. The laws hold whatever these functions are, as far as they do
/// not say otherwise.
pub struct GateRun {
    pub weight: Seq<Single>,
    pub threshold: Single,
    pub attack: Single,
    pub release: Single,
    /// The transform of a frame: the real and the imaginary parts.
    pub forward: spec_fn(Seq<Single>) -> (Seq<Single>, Seq<Single>),
    /// The real parts of the inverse transform.
    pub inverse: spec_fn(Seq<Single>, Seq<Single>) -> Seq<Single>,
    /// The square root.
    pub root: spec_fn(Single) -> Single,
    /// A fraction taken to the slope.
    pub power: spec_fn(Single) -> Single,
}

/// The gains of the bins.
pub open spec fn gains(g: GateRun, env: Seq<Single>) -> Seq<Single> {
    Seq::new(
        BINS as nat,
        |k: int|
            audio_effects::gain_of(
                match audio_effects::below(env[k], g.threshold) {
                    Some(r) => Some((g.power)(r)),
                    None => None,
                },
            ),
    )
}

/// The envelopes of the bins after a transform.
pub open spec fn env_after(g: GateRun, env: Seq<Single>, spectrum: (Seq<Single>, Seq<Single>)) -> Seq<
    Single,
> {
    audio_effects::followed(
        env,
        audio_effects::powers(spectrum.0, spectrum.1).map_values(|v: Single| (g.root)(v)),
        g.attack,
        g.release,
    )
}

/// The envelopes of the bins, and the output, after the first `t` transforms of a channel.
pub open spec fn gate_state(g: GateRun, x: Seq<Single>, t: nat) -> (Seq<Single>, Seq<Single>)
    decreases t,
{
    if t == 0 {
        (audio_effects::zeros(BINS as nat), audio_effects::zeros(x.len()))
    } else {
        let (env, out) = gate_state(g, x, (t - 1) as nat);
        let pos = (t - 1) * HOP;
        let spectrum = (g.forward)(audio_effects::frame(x, pos, g.weight));
        let now = env_after(g, env, spectrum);
        let gain = gains(g, now);
        let re = (g.inverse)(audio_effects::gated_re(spectrum.0, gain), audio_effects::gated_im(spectrum.1, gain));
        (now, audio_effects::overlapped(out, pos, re, g.weight))
    }
}

/// One channel after the spectral gate.
pub open spec fn gated_channel(g: GateRun, x: Seq<Single>) -> Seq<Single> {
    audio_effects::made_up(gate_state(g, x, audio_effects::transform_count(x.len())).1)
}

/// The output once the first `n` of the `ch` channels are done.
pub open spec fn gated_upto(g: GateRun, samples: Seq<Single>, ch: nat, n: nat) -> Seq<Single>
    decreases n,
{
    if n == 0 {
        audio_effects::zeros(samples.len())
    } else {
        let c = (n - 1) as nat;
        audio_effects::with_channel(
            gated_upto(g, samples, ch, c),
            ch,
            c,
            gated_channel(g, audio_effects::channel_of(samples, ch, c)),
        )
    }
}

/// All channels after the spectral gate.
pub open spec fn gated_signal(g: GateRun, samples: Seq<Single>, ch: nat) -> Seq<Single> {
    gated_upto(g, samples, ch, ch)
}

/// The functions between the passes can be called, and the two transforms keep the size.
pub open spec fn usable<F, I, R, P>(forward: F, inverse: I, root: R, power: P) -> bool where
    F: Fn(Vec<Single>) -> (Vec<Single>, Vec<Single>),
    I: Fn(Vec<Single>, Vec<Single>) -> Vec<Single>,
    R: Fn(Single) -> Single,
    P: Fn(Single) -> Single,
 {
    &&& forall|s: Vec<Single>| s@.len() == FFT_SIZE ==> #[trigger] call_requires(forward, (s,))
    &&& forall|s: Vec<Single>, r: (Vec<Single>, Vec<Single>)|
        s@.len() == FFT_SIZE && #[trigger] call_ensures(forward, (s,), r) ==> r.0@.len() == FFT_SIZE
            && r.1@.len() == FFT_SIZE
    &&& forall|a: Vec<Single>, b: Vec<Single>|
        a@.len() == FFT_SIZE && b@.len() == FFT_SIZE ==> #[trigger] call_requires(inverse, (a, b))
    &&& forall|a: Vec<Single>, b: Vec<Single>, r: Vec<Single>|
        a@.len() == FFT_SIZE && b@.len() == FFT_SIZE && #[trigger] call_ensures(inverse, (a, b), r)
            ==> r@.len() == FFT_SIZE
    &&& forall|v: Single| #[trigger] call_requires(root, (v,))
    &&& forall|v: Single| #[trigger] call_requires(power, (v,))
}

/// The functions between the passes are those of `g`.
pub open spec fn agrees<F, I, R, P>(g: GateRun, forward: F, inverse: I, root: R, power: P) -> bool where
    F: Fn(Vec<Single>) -> (Vec<Single>, Vec<Single>),
    I: Fn(Vec<Single>, Vec<Single>) -> Vec<Single>,
    R: Fn(Single) -> Single,
    P: Fn(Single) -> Single,
 {
    &&& forall|s: Vec<Single>, r: (Vec<Single>, Vec<Single>)| #[trigger]
        call_ensures(forward, (s,), r) ==> (g.forward)(s@) == (r.0@, r.1@)
    &&& forall|a: Vec<Single>, b: Vec<Single>, r: Vec<Single>| #[trigger]
        call_ensures(inverse, (a, b), r) ==> (g.inverse)(a@, b@) == r@
    &&& forall|v: Single, r: Single| #[trigger]
        call_ensures(root, (v,), r) ==> (g.root)(v) == r
    &&& forall|v: Single, r: Single| #[trigger]
        call_ensures(power, (v,), r) ==> (g.power)(v) == r
}

/// `g` goes by this window and these numbers.
pub open spec fn goes_by(
    g: GateRun,
    weight: Seq<Single>,
    threshold: Single,
    attack: Single,
    release: Single,
) -> bool {
    g.weight == weight && g.threshold == threshold && g.attack == attack && g.release == release
}

/// `gain` is the gain of a bin with the envelope `env`.
pub open spec fn gain_fits<P: Fn(Single) -> Single>(
    power: P,
    env: Single,
    threshold: Single,
    gain: Single,
) -> bool {
    match audio_effects::below(env, threshold) {
        Some(f) => exists|p: Single| #[trigger]
            call_ensures(power, (f,), p) && gain == audio_effects::gain_of(Some(p)),
        None => gain == audio_effects::gain_of(None),
    }
}

fn bin_gains<P: Fn(Single) -> Single>(env: &[Single], threshold: Single, power: &P) -> (r: Vec<
    Single,
>)
    requires
        forall|v: Single| #[trigger] call_requires(*power, (v,)),
    ensures
        r@.len() == env@.len(),
        forall|k: int|
            0 <= k < env@.len() ==> gain_fits(*power, env@[k], threshold, #[trigger] r@[k]),
{
    let mut r: Vec<Single> = Vec::new();
    for k in 0..env.len()
        invariant
            r@.len() == k,
            forall|v: Single| #[trigger] call_requires(*power, (v,)),
            forall|j: int|
                0 <= j < k ==> gain_fits(*power, env@[j], threshold, #[trigger] r@[j]),
    {
        match below_gate(env[k], threshold) {
            Some(f) => {
                let p: Single = power(f);
                r.push(gate_gain(Some(p)));
                assert(call_ensures(*power, (f,), p));
            },
            None => {
                r.push(gate_gain(None));
            },
        }
    }
    r
}

/// One channel after the spectral gate.
#[verifier::spinoff_prover]
fn gate_channel<F, I, R, P>(
    x: &[Single],
    weight: &[Single],
    threshold: Single,
    attack: Single,
    release: Single,
    forward: &F,
    inverse: &I,
    root: &R,
    power: &P,
) -> (r: Vec<Single>) where
    F: Fn(Vec<Single>) -> (Vec<Single>, Vec<Single>),
    I: Fn(Vec<Single>, Vec<Single>) -> Vec<Single>,
    R: Fn(Single) -> Single,
    P: Fn(Single) -> Single,

    requires
        weight@.len() == FFT_SIZE,
        usable(*forward, *inverse, *root, *power),
    ensures
        r@.len() == x@.len(),
        x@.len() < FFT_SIZE ==> r@ == audio_effects::zeros(x@.len()),
        forall|g: GateRun|
            goes_by(g, weight@, threshold, attack, release) && #[trigger] agrees(
                g,
                *forward,
                *inverse,
                *root,
                *power,
            ) ==> r@ == gated_channel(g, x@),
{
    let count: usize = transforms(x.len());
    let mut env: Vec<Single> = zero_samples(BINS);
    let mut out: Vec<Single> = zero_samples(x.len());
    for t in 0..count
        invariant
            count == audio_effects::transform_count(x@.len()),
            count > 0 ==> (count - 1) * HOP + FFT_SIZE <= x@.len(),
            x@.len() <= usize::MAX,
            weight@.len() == FFT_SIZE,
            usable(*forward, *inverse, *root, *power),
            env@.len() == BINS,
            out@.len() == x@.len(),
            x@.len() < FFT_SIZE ==> out@ == audio_effects::zeros(x@.len()),
            forall|g: GateRun|
                goes_by(g, weight@, threshold, attack, release) && #[trigger] agrees(
                    g,
                    *forward,
                    *inverse,
                    *root,
                    *power,
                ) ==> gate_state(g, x@, t as nat) == (env@, out@),
    {
        let ghost env_before: Seq<Single> = env@;
        let ghost out_before: Seq<Single> = out@;
        assert(t * HOP + FFT_SIZE <= x@.len()) by (nonlinear_arith)
            requires
                t < count,
                (count - 1) * HOP + FFT_SIZE <= x@.len(),
        ;
        let pos: usize = t * HOP;
        let f: Vec<Single> = frame_at(x, pos, weight);
        let ghost fv: Seq<Single> = f@;
        let spectrum: (Vec<Single>, Vec<Single>) = forward(f);
        assert(call_ensures(*forward, (f,), spectrum));
        let power_of: Vec<Single> = bin_powers(&spectrum.0, &spectrum.1);
        let mag: Vec<Single> = each(&power_of, root);
        follow_bins(&mut env, &mag, attack, release);
        let gain: Vec<Single> = bin_gains(&env, threshold, power);
        let (re, im): (Vec<Single>, Vec<Single>) = gate_bins(&spectrum.0, &spectrum.1, &gain);
        let back: Vec<Single> = inverse(re, im);
        assert(call_ensures(*inverse, (re, im), back));
        overlap_add(&mut out, pos, &back, weight);
        assert forall|g: GateRun|
            goes_by(g, weight@, threshold, attack, release) && #[trigger] agrees(
                g,
                *forward,
                *inverse,
                *root,
                *power,
            ) implies gate_state(g, x@, (t + 1) as nat) == (env@, out@) by {
            assert(gate_state(g, x@, t as nat) == (env_before, out_before));
            assert((g.forward)(fv) == (spectrum.0@, spectrum.1@));
            lemma_magnitudes_fit(g, *forward, *inverse, *root, *power, power_of@, mag@);
            lemma_gains_fit(g, *forward, *inverse, *root, *power, env@, gain@);
            assert((g.inverse)(re@, im@) == back@);
        }
    }
    let r: Vec<Single> = make_up(&out);
    proof {
        lemma_two_thirds_of_nothing();
        if x@.len() < FFT_SIZE {
            assert(r@ =~= audio_effects::zeros(x@.len()));
        }
    }
    r
}

/// The magnitudes are those of `g` where the functions are.
proof fn lemma_magnitudes_fit<F, I, R, P>(
    g: GateRun,
    forward: F,
    inverse: I,
    root: R,
    power: P,
    x: Seq<Single>,
    mag: Seq<Single>,
) where
    F: Fn(Vec<Single>) -> (Vec<Single>, Vec<Single>),
    I: Fn(Vec<Single>, Vec<Single>) -> Vec<Single>,
    R: Fn(Single) -> Single,
    P: Fn(Single) -> Single,

    requires
        agrees(g, forward, inverse, root, power),
        mag.len() == x.len(),
        forall|k: int| 0 <= k < x.len() ==> call_ensures(root, (x[k],), #[trigger] mag[k]),
    ensures
        x.map_values(|v: Single| (g.root)(v)) == mag,
{
    assert(x.map_values(|v: Single| (g.root)(v)) =~= mag);
}

/// The gains are those of `g` where the functions are.
proof fn lemma_gains_fit<F, I, R, P>(
    g: GateRun,
    forward: F,
    inverse: I,
    root: R,
    power: P,
    env: Seq<Single>,
    gain: Seq<Single>,
) where
    F: Fn(Vec<Single>) -> (Vec<Single>, Vec<Single>),
    I: Fn(Vec<Single>, Vec<Single>) -> Vec<Single>,
    R: Fn(Single) -> Single,
    P: Fn(Single) -> Single,

    requires
        agrees(g, forward, inverse, root, power),
        env.len() == BINS,
        gain.len() == BINS,
        forall|k: int|
            0 <= k < env.len() ==> gain_fits(power, env[k], g.threshold, #[trigger] gain[k]),
    ensures
        gains(g, env) == gain,
{
    assert forall|k: int| 0 <= k < gain.len() implies gains(g, env)[k] == #[trigger] gain[k] by {
        assert(gain_fits(power, env[k], g.threshold, gain[k]));
    }
    assert(gains(g, env) =~= gain);
}

/// The spectral gate: every channel is cut into overlapping windows, the bins of their transforms
/// that stay below the threshold are turned down, and the windows are put together again. The
/// transforms, the square root and the power are handed in; where they are functions, the result
/// is that of the passes with them.
pub fn apply_spectral_gate<F, I, R, P>(
    samples: &[Single],
    channels: u16,
    weight: &[Single],
    threshold: Single,
    attack: Single,
    release: Single,
    forward: F,
    inverse: I,
    root: R,
    power: P,
) -> (r: Vec<Single>) where
    F: Fn(Vec<Single>) -> (Vec<Single>, Vec<Single>),
    I: Fn(Vec<Single>, Vec<Single>) -> Vec<Single>,
    R: Fn(Single) -> Single,
    P: Fn(Single) -> Single,

    requires
        channels > 0,
        weight@.len() == FFT_SIZE,
        usable(forward, inverse, root, power),
    ensures
        r@.len() == samples@.len(),
        samples@.len() / (channels as nat) < FFT_SIZE ==> r@ == audio_effects::zeros(samples@.len()),
        forall|g: GateRun|
            goes_by(g, weight@, threshold, attack, release) && #[trigger] agrees(
                g,
                forward,
                inverse,
                root,
                power,
            ) ==> r@ == gated_signal(g, samples@, channels as nat),
{
    let ch: usize = channels as usize;
    let mut out: Vec<Single> = zero_samples(samples.len());
    for c in 0..ch
        invariant
            ch > 0,
            ch == channels,
            weight@.len() == FFT_SIZE,
            usable(forward, inverse, root, power),
            out@.len() == samples@.len(),
            samples@.len() / (ch as nat) < FFT_SIZE ==> out@ == audio_effects::zeros(samples@.len()),
            forall|g: GateRun|
                goes_by(g, weight@, threshold, attack, release) && #[trigger] agrees(
                    g,
                    forward,
                    inverse,
                    root,
                    power,
                ) ==> out@ == gated_upto(g, samples@, ch as nat, c as nat),
    {
        let x: Vec<Single> = channel(samples, ch, c);
        let y: Vec<Single> = gate_channel(
            &x,
            weight,
            threshold,
            attack,
            release,
            &forward,
            &inverse,
            &root,
            &power,
        );
        let ghost before: Seq<Single> = out@;
        set_channel(&mut out, ch, c, &y);
        proof {
            if samples@.len() / (ch as nat) < FFT_SIZE {
                assert(out@ =~= audio_effects::zeros(samples@.len()));
            }
        }
    }
    out
}


// ---------------------------------------------------------------------------
// Laws
// ---------------------------------------------------------------------------

proof fn lemma_gated_length(g: GateRun, x: Seq<Single>, t: nat)
    ensures
        gate_state(g, x, t).1.len() == x.len(),
    decreases t,
{
    if t > 0 {
        lemma_gated_length(g, x, (t - 1) as nat);
    }
}

/// The spectral gate keeps the length of the signal, and works on each channel as if it were
/// alone.
pub proof fn channels_are_gated_apart(g: GateRun, samples: Seq<Single>, ch: nat, c: nat)
    requires
        c < ch,
    ensures
        gated_signal(g, samples, ch).len() == samples.len(),
        audio_effects::channel_of(gated_signal(g, samples, ch), ch, c) == gated_channel(
            g,
            audio_effects::channel_of(samples, ch, c),
        ),
        gated_signal(g, audio_effects::channel_of(samples, ch, c), 1) == gated_channel(
            g,
            audio_effects::channel_of(samples, ch, c),
        ),
{
    lemma_gated_upto(g, samples, ch, ch, c);
    let x: Seq<Single> = audio_effects::channel_of(samples, ch, c);
    assert(audio_effects::channel_of(x, 1, 0) =~= x);
    lemma_gated_upto(g, x, 1, 1, 0);
    let alone: Seq<Single> = gated_signal(g, x, 1);
    assert(audio_effects::channel_of(alone, 1, 0) =~= alone);
}

proof fn lemma_gated_upto(g: GateRun, samples: Seq<Single>, ch: nat, n: nat, c: nat)
    requires
        n <= ch,
        c < ch,
    ensures
        gated_upto(g, samples, ch, n).len() == samples.len(),
        c < n ==> audio_effects::channel_of(gated_upto(g, samples, ch, n), ch, c) == gated_channel(
            g,
            audio_effects::channel_of(samples, ch, c),
        ),
    decreases n,
{
    if n > 0 {
        let last: nat = (n - 1) as nat;
        lemma_gated_upto(g, samples, ch, last, c);
        let x: Seq<Single> = audio_effects::channel_of(samples, ch, last);
        lemma_gated_length(g, x, audio_effects::transform_count(x.len()));
        audio_effects::lemma_channel_replaced(
            gated_upto(g, samples, ch, last),
            ch,
            last,
            gated_channel(g, x),
            c,
        );
    }
}

/// A signal with fewer frames than one transform takes comes out of the spectral gate as zeros,
/// as many as it had samples.
pub proof fn short_signals_come_out_as_zeros(g: GateRun, samples: Seq<Single>, ch: nat)
    requires
        ch > 0,
        samples.len() / ch < FFT_SIZE,
    ensures
        gated_signal(g, samples, ch) == audio_effects::zeros(samples.len()),
{
    lemma_short_upto(g, samples, ch, ch);
}

proof fn lemma_short_upto(g: GateRun, samples: Seq<Single>, ch: nat, n: nat)
    requires
        ch > 0,
        n <= ch,
        samples.len() / ch < FFT_SIZE,
    ensures
        gated_upto(g, samples, ch, n) == audio_effects::zeros(samples.len()),
    decreases n,
{
    if n > 0 {
        let c: nat = (n - 1) as nat;
        lemma_short_upto(g, samples, ch, c);
        let x: Seq<Single> = audio_effects::channel_of(samples, ch, c);
        lemma_two_thirds_of_nothing();
        assert(gated_channel(g, x) =~= audio_effects::zeros(x.len()));
        assert(gated_upto(g, samples, ch, n) =~= audio_effects::zeros(samples.len()));
    }
}

/// Two thirds are a number between 0 and 1.
proof fn lemma_two_thirds()
    ensures
        single::ratio(2, 3).finite(),
        !single::ratio(2, 3).negative(),
        single::ratio(2, 3).magnitude() <= pow2(149),
{
    let unit: nat = pow2(149);
    vstd::arithmetic::power2::lemma_pow2_pos(149);
    single::lemma_whole_exact(0);
    single::lemma_whole_exact(1);
    single::lemma_whole_exact(2);
    single::lemma_whole_exact(3);
    assert(0 * unit == 0);
    let n: nat = (2 * unit) as nat * unit;
    let d: nat = (3 * unit) as nat;
    assert(0 * d == 0);
    assert(n <= unit * d) by (nonlinear_arith)
        requires
            n == (2 * unit) * unit,
            d == 3 * unit,
    ;
    single::lemma_rounded_between(n, d, single::whole(0), single::whole(1));
}

/// Two thirds of 0 are 0, with its sign.
proof fn lemma_two_thirds_of_nothing()
    ensures
        single::ratio(2, 3).finite(),
        single::product(single::whole(0), single::ratio(2, 3)) == single::whole(0),
{
    let unit: nat = pow2(149);
    vstd::arithmetic::power2::lemma_pow2_pos(149);
    single::lemma_whole_exact(0);
    assert(0 * unit == 0);
    single::lemma_zero_magnitude(single::whole(0));
    lemma_two_thirds();
    single::lemma_zero_product(single::whole(0), single::ratio(2, 3));
    let p: Single = single::product(single::whole(0), single::ratio(2, 3));
    single::lemma_rounded_rounds(
        false,
        single::whole(0).magnitude() * single::ratio(2, 3).magnitude(),
        unit,
    );
    assert(p.bits == 0 && single::whole(0).bits == 0);
}

/// Every number is a zero.
pub open spec fn silent(x: Seq<Single>) -> bool {
    forall|i: int| 0 <= i < x.len() ==> single::is_zero(#[trigger] x[i])
}

/// The functions between the passes make nothing out of silence.
pub open spec fn adds_nothing(g: GateRun) -> bool {
    &&& g.weight.len() == FFT_SIZE
    &&& forall|n: int| 0 <= n < FFT_SIZE ==> (#[trigger] g.weight[n]).finite()
    &&& g.attack.finite()
    &&& g.release.finite()
    &&& forall|s: Seq<Single>|
        s.len() == FFT_SIZE && silent(s) ==> {
            let f = #[trigger] (g.forward)(s);
            f.0.len() == FFT_SIZE && f.1.len() == FFT_SIZE && silent(f.0) && silent(f.1)
        }
    &&& forall|a: Seq<Single>, b: Seq<Single>|
        a.len() == FFT_SIZE && b.len() == FFT_SIZE && silent(a) && silent(b) ==> {
            let s = #[trigger] (g.inverse)(a, b);
            s.len() == FFT_SIZE && silent(s)
        }
    &&& forall|v: Single| single::is_zero(v) ==> single::is_zero(#[trigger] (g.root)(v))
    &&& forall|v: Single| single::is_zero(v) ==> (#[trigger] (g.power)(v)).finite()
}

/// Silence comes out of the spectral gate as silence, as long as the functions between its passes
/// make nothing out of it.
pub proof fn silence_stays_silent(g: GateRun, samples: Seq<Single>, ch: nat)
    requires
        ch > 0,
        adds_nothing(g),
        silent(samples),
    ensures
        silent(gated_signal(g, samples, ch)),
{
    lemma_silent_upto(g, samples, ch, ch);
}

proof fn lemma_silent_upto(g: GateRun, samples: Seq<Single>, ch: nat, n: nat)
    requires
        ch > 0,
        n <= ch,
        adds_nothing(g),
        silent(samples),
    ensures
        silent(gated_upto(g, samples, ch, n)),
    decreases n,
{
    lemma_zero_is_zero();
    if n > 0 {
        let c: nat = (n - 1) as nat;
        lemma_silent_upto(g, samples, ch, c);
        let x: Seq<Single> = audio_effects::channel_of(samples, ch, c);
        assert forall|i: int| 0 <= i < x.len() implies single::is_zero(#[trigger] x[i]) by {
            audio_effects::lemma_in_frame(i, ch as int, c as int, samples.len() as int);
        }
        let t: nat = audio_effects::transform_count(x.len());
        lemma_silent_state(g, x, t);
        lemma_two_thirds_of_nothing();
        let out: Seq<Single> = gate_state(g, x, t).1;
        assert forall|i: int| 0 <= i < out.len() implies single::is_zero(
            #[trigger] audio_effects::made_up(out)[i],
        ) by {
            single::lemma_zero_product(out[i], single::ratio(2, 3));
        }
        assert(silent(gated_channel(g, x)));
        assert forall|k: int| 0 <= k < samples.len() implies single::is_zero(
            #[trigger] gated_upto(g, samples, ch, n)[k],
        ) by {
            lemma_gated_length(g, x, t);
            lemma_gated_upto(g, samples, ch, c, 0);
            assert(k / (ch as int) >= 0) by (nonlinear_arith)
                requires
                    k >= 0,
                    ch > 0,
            ;
        }
        lemma_gated_upto(g, samples, ch, n, 0);
    }
}

/// The zeros that every channel starts from.
proof fn lemma_zero_is_zero()
    ensures
        single::is_zero(single::whole(0)),
{
    single::lemma_whole_exact(0);
    assert(0 * vstd::arithmetic::power2::pow2(149) == 0);
    single::lemma_zero_magnitude(single::whole(0));
}

proof fn lemma_silent_frame(g: GateRun, x: Seq<Single>, pos: int)
    requires
        adds_nothing(g),
        silent(x),
        0 <= pos,
        pos + FFT_SIZE <= x.len(),
    ensures
        silent(audio_effects::frame(x, pos, g.weight)),
{
    let f: Seq<Single> = audio_effects::frame(x, pos, g.weight);
    assert forall|n: int| 0 <= n < f.len() implies single::is_zero(#[trigger] f[n]) by {
        assert(single::is_zero(x[pos + n]));
        assert(g.weight[n].finite());
        single::lemma_zero_product(x[pos + n], g.weight[n]);
    }
}

/// An envelope at zero stays there as long as the magnitude is zero.
proof fn lemma_silent_follow(from: Single, to: Single, rising: Single, falling: Single)
    requires
        single::is_zero(from),
        single::is_zero(to),
        rising.finite(),
        falling.finite(),
    ensures
        single::is_zero(audio_effects::follow(from, to, rising, falling)),
{
    let coef: Single = if single::less(from, to) {
        rising
    } else {
        falling
    };
    let d: Single = single::difference(from, to);
    single::lemma_zero_sum(from, to);
    single::lemma_zero_product(coef, d);
    single::lemma_zero_sum(to, single::product(coef, d));
}

proof fn lemma_silent_envelopes(
    g: GateRun,
    env: Seq<Single>,
    spectrum: (Seq<Single>, Seq<Single>),
)
    requires
        adds_nothing(g),
        env.len() == BINS,
        silent(env),
        spectrum.0.len() == FFT_SIZE,
        spectrum.1.len() == FFT_SIZE,
        silent(spectrum.0),
        silent(spectrum.1),
    ensures
        env_after(g, env, spectrum).len() == BINS,
        silent(env_after(g, env, spectrum)),
{
    let pw: Seq<Single> = audio_effects::powers(spectrum.0, spectrum.1);
    let mag: Seq<Single> = pw.map_values(|v: Single| (g.root)(v));
    let now: Seq<Single> = env_after(g, env, spectrum);
    assert forall|k: int| 0 <= k < now.len() implies single::is_zero(#[trigger] now[k]) by {
        let re: Single = spectrum.0[k];
        let im: Single = spectrum.1[k];
        single::lemma_zero_product(re, re);
        single::lemma_zero_product(im, im);
        single::lemma_zero_sum(audio_effects::square(re), audio_effects::square(im));
        assert(single::is_zero(pw[k]));
        assert(mag[k] == (g.root)(pw[k]));
        assert(single::is_zero(env[k]));
        lemma_silent_follow(env[k], mag[k], g.attack, g.release);
    }
}

/// The gain of a bin at zero is a number.
proof fn lemma_silent_gains(g: GateRun, env: Seq<Single>)
    requires
        adds_nothing(g),
        env.len() == BINS,
        silent(env),
    ensures
        forall|k: int| 0 <= k < BINS ==> (#[trigger] gains(g, env)[k]).finite(),
{
    single::lemma_whole_exact(0);
    single::lemma_whole_exact(1);
    assert forall|k: int| 0 <= k < BINS implies (#[trigger] gains(g, env)[k]).finite() by {
        let e: Single = env[k];
        assert(single::is_zero(e));
        single::lemma_zero_magnitude(e);
        if single::less(e, g.threshold) {
            single::lemma_zero_quotient(e, g.threshold);
            assert((g.power)(single::quotient(e, g.threshold)).finite());
        }
    }
}

proof fn lemma_silent_bins(re: Seq<Single>, im: Seq<Single>, gain: Seq<Single>)
    requires
        re.len() == FFT_SIZE,
        im.len() == FFT_SIZE,
        silent(re),
        silent(im),
        forall|k: int| 0 <= k < BINS ==> (#[trigger] gain[k]).finite(),
    ensures
        silent(audio_effects::gated_re(re, gain)),
        silent(audio_effects::gated_im(im, gain)),
{
    let a: Seq<Single> = audio_effects::gated_re(re, gain);
    let b: Seq<Single> = audio_effects::gated_im(im, gain);
    assert forall|k: int| 0 <= k < a.len() implies single::is_zero(#[trigger] a[k]) by {
        let m: int = if k < BINS {
            k
        } else {
            FFT_SIZE - k
        };
        assert(single::is_zero(re[m]));
        assert(gain[m].finite());
        single::lemma_zero_product(re[m], gain[m]);
    }
    assert forall|k: int| 0 <= k < b.len() implies single::is_zero(#[trigger] b[k]) by {
        let m: int = if k < BINS {
            k
        } else {
            FFT_SIZE - k
        };
        assert(single::is_zero(im[m]));
        assert(gain[m].finite());
        single::lemma_zero_product(im[m], gain[m]);
    }
}

proof fn lemma_silent_overlap(g: GateRun, out: Seq<Single>, pos: int, re: Seq<Single>)
    requires
        adds_nothing(g),
        silent(out),
        re.len() == FFT_SIZE,
        silent(re),
    ensures
        silent(audio_effects::overlapped(out, pos, re, g.weight)),
{
    lemma_norm();
    let norm: Single = single::quotient(single::whole(1), single::whole(2048));
    let after: Seq<Single> = audio_effects::overlapped(out, pos, re, g.weight);
    assert forall|i: int| 0 <= i < after.len() implies single::is_zero(#[trigger] after[i]) by {
        assert(single::is_zero(out[i]));
        if pos <= i < pos + FFT_SIZE {
            let n: int = i - pos;
            assert(single::is_zero(re[n]));
            assert(g.weight[n].finite());
            single::lemma_zero_product(re[n], norm);
            single::lemma_zero_product(single::product(re[n], norm), g.weight[n]);
            single::lemma_zero_sum(out[i], audio_effects::frame_share(re, g.weight, n));
        }
    }
}

proof fn lemma_silent_state(g: GateRun, x: Seq<Single>, t: nat)
    requires
        adds_nothing(g),
        silent(x),
        t <= audio_effects::transform_count(x.len()),
    ensures
        gate_state(g, x, t).0.len() == BINS,
        silent(gate_state(g, x, t).0),
        silent(gate_state(g, x, t).1),
    decreases t,
{
    lemma_zero_is_zero();
    if t > 0 {
        let before: nat = (t - 1) as nat;
        lemma_silent_state(g, x, before);
        let env: Seq<Single> = gate_state(g, x, before).0;
        let out: Seq<Single> = gate_state(g, x, before).1;
        let pos: int = (t - 1) * HOP;
        assert(0 <= pos && pos + 2048 <= x.len()) by (nonlinear_arith)
            requires
                pos == (t - 1) * 512,
                0 < t <= (x.len() - 2048) as nat / 512 + 1,
                x.len() >= 2048,
        ;
        let f: Seq<Single> = audio_effects::frame(x, pos, g.weight);
        lemma_silent_frame(g, x, pos);
        let spectrum: (Seq<Single>, Seq<Single>) = (g.forward)(f);
        lemma_silent_envelopes(g, env, spectrum);
        let now: Seq<Single> = env_after(g, env, spectrum);
        lemma_silent_gains(g, now);
        let gain: Seq<Single> = gains(g, now);
        lemma_silent_bins(spectrum.0, spectrum.1, gain);
        let re: Seq<Single> = (g.inverse)(audio_effects::gated_re(spectrum.0, gain), audio_effects::gated_im(spectrum.1, gain));
        lemma_silent_overlap(g, out, pos, re);
    }
}

/// Every number is finite, and its magnitude is at most `bound`, in units of `2^-149`.
pub open spec fn within(x: Seq<Single>, bound: nat) -> bool {
    forall|i: int|
        0 <= i < x.len() ==> (#[trigger] x[i]).finite() && x[i].magnitude() <= bound
}

/// Not below 0, as far as it is a number at all.
pub open spec fn not_below_zero(v: Single) -> bool {
    v.nan() || v.value() >= 0
}

/// The functions between the passes are as they are for real signals: weights and coefficients
/// are of magnitude 1 at most, a root is not negative, a power of what lies between 0 and 1 is at
/// most 1, and the transforms take a bounded frame to a spectrum within `bound`, and such a
/// spectrum back to finite samples.
pub open spec fn tame(g: GateRun, bound: nat) -> bool {
    &&& g.weight.len() == FFT_SIZE
    &&& within(g.weight, pow2(149))
    &&& single::in_unit(g.attack)
    &&& single::in_unit(g.release)
    &&& forall|s: Seq<Single>|
        s.len() == FFT_SIZE && within(s, pow2(149)) ==> {
            let f = #[trigger] (g.forward)(s);
            f.0.len() == FFT_SIZE && f.1.len() == FFT_SIZE && within(f.0, bound) && within(
                f.1,
                bound,
            )
        }
    &&& forall|a: Seq<Single>, b: Seq<Single>|
        a.len() == FFT_SIZE && b.len() == FFT_SIZE && within(a, bound) && within(b, bound) ==> {
            let s = #[trigger] (g.inverse)(a, b);
            s.len() == FFT_SIZE && within(s, pow2(277))
        }
    &&& forall|v: Single| not_below_zero(#[trigger] (g.root)(v))
    &&& forall|v: Single|
        single::in_unit(v) ==> (#[trigger] (g.power)(v)).nan() || (g.power)(v).value() <= pow2(149)
}

/// An envelope never falls below 0.
proof fn lemma_follow_not_below_zero(from: Single, to: Single, rising: Single, falling: Single)
    requires
        not_below_zero(from),
        not_below_zero(to),
        single::in_unit(rising),
        single::in_unit(falling),
    ensures
        not_below_zero(audio_effects::follow(from, to, rising, falling)),
{
    let coef: Single = if single::less(from, to) {
        rising
    } else {
        falling
    };
    let d: Single = single::difference(from, to);
    let p: Single = single::product(coef, d);
    let r: Single = audio_effects::follow(from, to, rising, falling);
    assert(r == single::sum(to, p));
    if !from.nan() && !to.nan() {
        if from.finite() && to.finite() {
            lemma_step_towards(from, to, coef);
            lemma_sum_not_below_zero(to, p);
        } else {
            lemma_endless_step(from, to, coef);
        }
    }
}

/// A step from an infinite level, or to one, ends at an infinite level or at none.
proof fn lemma_endless_step(from: Single, to: Single, coef: Single)
    requires
        !from.nan(),
        !to.nan(),
        from.value() >= 0,
        to.value() >= 0,
        from.infinite() || to.infinite(),
        single::in_unit(coef),
    ensures
        not_below_zero(
            single::sum(to, single::product(coef, single::difference(from, to))),
        ),
{
    single::lemma_finite_magnitude(single::zero(false));
    vstd::arithmetic::power2::lemma_pow2_pos(277);
    single::lemma_zero_magnitude(from);
    single::lemma_zero_magnitude(to);
    single::lemma_zero_magnitude(coef);
}

/// What is added on the way from one level to another takes no more away than there is.
proof fn lemma_step_towards(from: Single, to: Single, coef: Single)
    requires
        from.finite(),
        to.finite(),
        from.value() >= 0,
        to.value() >= 0,
        single::in_unit(coef),
    ensures
        ({
            let p = single::product(coef, single::difference(from, to));
            p.finite() && p.value() + to.value() >= 0
        }),
{
    let d: Single = single::difference(from, to);
    let low: Single = single::negated(to);
    assert(low.finite() && low.value() == -to.value());
    single::lemma_difference_keeps_bounds(from, to, low);
    single::lemma_difference_keeps_bounds(from, to, from);
    single::lemma_value_order(d, from);
    single::lemma_value_order(low, d);
    assert(d.finite());
    lemma_share_of(coef, d);
}

/// A share between none and all of a number lies between 0 and it.
proof fn lemma_share_of(coef: Single, d: Single)
    requires
        d.finite(),
        single::in_unit(coef),
    ensures
        single::product(coef, d).finite(),
        d.value() >= 0 ==> single::product(coef, d).value() >= 0,
        d.value() <= 0 ==> d.value() <= single::product(coef, d).value(),
{
    single::lemma_product_bounded(d, coef);
    let n: nat = coef.magnitude() * d.magnitude();
    assert(n == d.magnitude() * coef.magnitude()) by (nonlinear_arith)
        requires
            n == coef.magnitude() * d.magnitude(),
    ;
    assert(single::product(coef, d) == single::product(d, coef));
    vstd::arithmetic::power2::lemma_pow2_pos(149);
    single::lemma_rounded_rounds(true, n, pow2(149));
    single::lemma_rounded_rounds(false, n, pow2(149));
    let p: Single = single::product(coef, d);
    if coef.magnitude() == 0 || d.magnitude() == 0 {
        single::lemma_zero_magnitude(coef);
        single::lemma_zero_magnitude(d);
        single::lemma_zero_product(coef, d);
        single::lemma_zero_magnitude(p);
    } else {
        assert(!coef.negative());
    }
}

/// A sum that is not below 0 is not rounded to below 0.
proof fn lemma_sum_not_below_zero(a: Single, b: Single)
    requires
        a.finite(),
        b.finite(),
        a.value() + b.value() >= 0,
    ensures
        not_below_zero(single::sum(a, b)),
{
    let v: nat = (a.value() + b.value()) as nat;
    single::lemma_zero_magnitude(single::zero(true));
    single::lemma_zero_magnitude(single::zero(false));
    single::lemma_rounded_rounds(false, v, 1);
}

/// The gain of a bin lies between 0 and 1.
proof fn lemma_gain_in_unit(g: GateRun, bound: nat, env: Seq<Single>, k: int)
    requires
        tame(g, bound),
        0 <= k < BINS,
        not_below_zero(env[k]),
    ensures
        single::in_unit(gains(g, env)[k]),
{
    let e: Single = env[k];
    vstd::arithmetic::power2::lemma_pow2_pos(149);
    single::lemma_whole_exact(0);
    single::lemma_whole_exact(1);
    assert(0 * pow2(149) == 0);
    assert(1 * pow2(149) == pow2(149));
    if single::less(e, g.threshold) {
        let r: Single = single::quotient(e, g.threshold);
        lemma_fraction_in_unit(e, g.threshold);
        let p: Single = (g.power)(r);
        assert(p.nan() || p.value() <= pow2(149));
        if single::less(single::whole(0), p) {
            single::lemma_value_order(p, single::whole(1));
        }
    }
}

/// What a level is of a higher one lies between 0 and 1.
proof fn lemma_fraction_in_unit(e: Single, threshold: Single)
    requires
        single::less(e, threshold),
        e.value() >= 0,
    ensures
        single::in_unit(single::quotient(e, threshold)),
{
    let unit: nat = pow2(149);
    vstd::arithmetic::power2::lemma_pow2_pos(149);
    single::lemma_value_order(e, threshold);
    single::lemma_zero_magnitude(e);
    assert(e.finite());
    single::lemma_zero_magnitude(single::zero(true));
    single::lemma_zero_magnitude(single::zero(false));
    single::lemma_whole_exact(1);
    if threshold.finite() {
        let n: nat = e.magnitude() * unit;
        let d: nat = threshold.magnitude();
        assert(n <= unit * d) by (nonlinear_arith)
            requires
                n == e.magnitude() * unit,
                e.magnitude() <= d,
        ;
        assert(0 * d == 0);
        single::lemma_rounded_between(n, d, single::zero(false), single::whole(1));
        single::lemma_rounded_rounds(false, n, d);
        single::lemma_rounded_rounds(true, n, d);
        if e.magnitude() == 0 {
            assert(n == 0) by (nonlinear_arith)
                requires
                    n == e.magnitude() * unit,
                    e.magnitude() == 0,
            ;
            single::lemma_zero_magnitude(e);
            single::lemma_zero_quotient(e, threshold);
            single::lemma_zero_magnitude(single::quotient(e, threshold));
        }
    }
}

/// `c` times `2^117`, up to 4 of them.
spec fn cap(c: nat) -> Single {
    if c == 0 {
        Single { bits: 0 }
    } else if c == 1 {
        Single { bits: 0x7A00_0000 }
    } else if c == 2 {
        Single { bits: 0x7A80_0000 }
    } else if c == 3 {
        Single { bits: 0x7AC0_0000 }
    } else {
        Single { bits: 0x7B00_0000 }
    }
}

proof fn lemma_cap(c: nat)
    requires
        c <= 4,
    ensures
        cap(c).finite(),
        cap(c).magnitude() == c * pow2(266),
{
    vstd::arithmetic::power2::lemma2_to64();
    vstd::arithmetic::power2::lemma_pow2_adds(23, 243);
    vstd::arithmetic::power2::lemma_pow2_unfold(244);
    vstd::arithmetic::power2::lemma_pow2_unfold(245);
    let p: nat = pow2(243);
    assert(pow2(23) == 0x80_0000);
    assert(pow2(266) == 0x80_0000 * p);
    if c == 0 {
        assert(0 * pow2(266) == 0);
    } else if c == 1 {
        assert(cap(c).magnitude() == 0x80_0000 * p);
    } else if c == 2 {
        assert(cap(c).magnitude() == 0x80_0000 * pow2(244));
    } else if c == 3 {
        assert(cap(c).magnitude() == 0xC0_0000 * pow2(244));
    } else {
        assert(cap(c).magnitude() == 0x80_0000 * pow2(245));
    }
}

/// What a transform adds to a sample is at most `2^117`.
proof fn lemma_share_bounded(re: Seq<Single>, weight: Seq<Single>, n: int)
    requires
        re[n].finite(),
        weight[n].finite(),
        weight[n].magnitude() <= pow2(149),
    ensures
        audio_effects::frame_share(re, weight, n).finite(),
        audio_effects::frame_share(re, weight, n).magnitude() <= pow2(266),
{
    let norm: Single = single::quotient(single::whole(1), single::whole(2048));
    lemma_norm();
    let x: Single = re[n];
    single::lemma_finite_magnitude(x);
    lemma_cap(1);
    vstd::arithmetic::power2::lemma_pow2_pos(149);
    vstd::arithmetic::power2::lemma_pow2_adds(277, 138);
    vstd::arithmetic::power2::lemma_pow2_adds(266, 149);
    let m: nat = x.magnitude() * pow2(138);
    assert(m <= pow2(277) * pow2(138)) by (nonlinear_arith)
        requires
            m == x.magnitude() * pow2(138),
            x.magnitude() <= pow2(277),
    ;
    single::lemma_zero_magnitude(single::zero(false));
    assert(0 * pow2(149) == 0);
    assert(1 * pow2(266) == pow2(266));
    single::lemma_rounded_between(m, pow2(149), single::zero(false), cap(1));
    single::lemma_rounded_rounds(true, m, pow2(149));
    single::lemma_rounded_rounds(false, m, pow2(149));
    single::lemma_product_bounded(single::product(x, norm), weight[n]);
}

/// The norm of a transform is `2^-11`.
proof fn lemma_norm()
    ensures
        single::quotient(single::whole(1), single::whole(2048)).finite(),
        single::quotient(single::whole(1), single::whole(2048)).magnitude() == pow2(138),
{
    let unit: nat = pow2(149);
    vstd::arithmetic::power2::lemma2_to64();
    vstd::arithmetic::power2::lemma_pow2_pos(149);
    vstd::arithmetic::power2::lemma_pow2_adds(23, 115);
    vstd::arithmetic::power2::lemma_pow2_adds(11, 138);
    let exact: Single = Single { bits: 0x3A00_0000 };
    assert(pow2(23) == 0x80_0000);
    assert(pow2(11) == 2048);
    assert(exact.magnitude() == pow2(138));
    single::lemma_whole_exact(1);
    single::lemma_whole_exact(2048);
    assert(1 * unit == unit);
    let n: nat = unit * unit;
    let d: nat = (2048 * unit) as nat;
    assert(pow2(138) * d == n) by (nonlinear_arith)
        requires
            d == 2048 * unit,
            n == unit * unit,
            unit == 2048 * pow2(138),
    ;
    single::lemma_rounded_between(n, d, exact, exact);
}

/// The first transform that reaches sample `i`.
spec fn first_over(i: int) -> int {
    if i < FFT_SIZE {
        0
    } else {
        (i - FFT_SIZE) / HOP as int + 1
    }
}

/// How many of the first `t` transforms reach sample `i`.
spec fn covered(i: int, t: int) -> int {
    if t <= first_over(i) {
        0
    } else if t <= i / HOP as int {
        t - first_over(i)
    } else {
        i / HOP as int + 1 - first_over(i)
    }
}

/// A sample is reached by four transforms at most, and each adds to it once.
proof fn lemma_covered(i: int, t: int)
    requires
        i >= 0,
        t > 0,
    ensures
        0 <= covered(i, t) <= 4,
        covered(i, t) == covered(i, t - 1) + if (t - 1) * HOP <= i < (t - 1) * HOP + FFT_SIZE {
            1int
        } else {
            0int
        },
{
}

/// The envelopes after a transform are not below 0.
proof fn lemma_envelopes_not_below_zero(
    g: GateRun,
    bound: nat,
    env: Seq<Single>,
    spectrum: (Seq<Single>, Seq<Single>),
)
    requires
        tame(g, bound),
        env.len() == BINS,
        forall|k: int| 0 <= k < BINS ==> not_below_zero(#[trigger] env[k]),
    ensures
        env_after(g, env, spectrum).len() == BINS,
        forall|k: int| 0 <= k < BINS ==> not_below_zero(#[trigger] env_after(g, env, spectrum)[k]),
{
    let pw: Seq<Single> = audio_effects::powers(spectrum.0, spectrum.1);
    let mag: Seq<Single> = pw.map_values(|v: Single| (g.root)(v));
    let now: Seq<Single> = env_after(g, env, spectrum);
    assert forall|k: int| 0 <= k < BINS implies not_below_zero(#[trigger] now[k]) by {
        assert(mag[k] == (g.root)(pw[k]));
        assert(not_below_zero(env[k]));
        lemma_follow_not_below_zero(env[k], mag[k], g.attack, g.release);
    }
}

/// A gain between 0 and 1 keeps a number within its bound, whatever its sign.
proof fn lemma_turned_down_within(x: Single, gain: Single, bound: nat)
    requires
        x.finite(),
        x.magnitude() <= bound,
        single::in_unit(gain),
    ensures
        single::product(x, gain).finite(),
        single::product(x, gain).magnitude() <= bound,
        single::negated(single::product(x, gain)).finite(),
        single::negated(single::product(x, gain)).magnitude() <= bound,
{
    let p: Single = single::product(x, gain);
    assert(gain.magnitude() <= pow2(149)) by {
        if gain.negative() {
            assert(gain.magnitude() == 0);
        }
    }
    single::lemma_product_bounded(x, gain);
    assert(single::negated(p).mag_bits() == p.mag_bits());
}

/// Gains between 0 and 1 keep the real parts of a spectrum within their bound.
proof fn lemma_gated_re_within(re: Seq<Single>, gain: Seq<Single>, bound: nat)
    requires
        re.len() == FFT_SIZE,
        within(re, bound),
        forall|k: int| 0 <= k < BINS ==> single::in_unit(#[trigger] gain[k]),
    ensures
        within(audio_effects::gated_re(re, gain), bound),
{
    let a: Seq<Single> = audio_effects::gated_re(re, gain);
    assert forall|k: int| 0 <= k < a.len() implies (#[trigger] a[k]).finite() && a[k].magnitude()
        <= bound by {
        let m: int = if k < BINS {
            k
        } else {
            FFT_SIZE - k
        };
        assert(a[k] == single::product(re[m], gain[m]));
        assert(re[m].finite() && re[m].magnitude() <= bound);
        assert(single::in_unit(gain[m]));
        lemma_turned_down_within(re[m], gain[m], bound);
    }
}

/// Gains between 0 and 1 keep a spectrum within its bound.
proof fn lemma_gated_within(re: Seq<Single>, im: Seq<Single>, gain: Seq<Single>, bound: nat)
    requires
        re.len() == FFT_SIZE,
        im.len() == FFT_SIZE,
        within(re, bound),
        within(im, bound),
        forall|k: int| 0 <= k < BINS ==> single::in_unit(#[trigger] gain[k]),
    ensures
        within(audio_effects::gated_re(re, gain), bound),
        within(audio_effects::gated_im(im, gain), bound),
{
    lemma_gated_re_within(re, gain, bound);
    let b: Seq<Single> = audio_effects::gated_im(im, gain);
    assert forall|k: int| 0 <= k < b.len() implies (#[trigger] b[k]).finite() && b[k].magnitude()
        <= bound by {
        let m: int = if k < BINS {
            k
        } else {
            FFT_SIZE - k
        };
        assert(b[k] == single::product(im[m], gain[m]) || b[k] == single::negated(
            single::product(im[m], gain[m]),
        ));
        assert(im[m].finite() && im[m].magnitude() <= bound);
        assert(single::in_unit(gain[m]));
        lemma_turned_down_within(im[m], gain[m], bound);
    }
}

/// The weighted samples of a bounded signal are bounded.
proof fn lemma_frame_within(g: GateRun, bound: nat, x: Seq<Single>, pos: int)
    requires
        tame(g, bound),
        within(x, pow2(149)),
        0 <= pos,
        pos + FFT_SIZE <= x.len(),
    ensures
        within(audio_effects::frame(x, pos, g.weight), pow2(149)),
{
    let f: Seq<Single> = audio_effects::frame(x, pos, g.weight);
    assert forall|n: int| 0 <= n < f.len() implies (#[trigger] f[n]).finite() && f[n].magnitude()
        <= pow2(149) by {
        assert(x[pos + n].finite() && x[pos + n].magnitude() <= pow2(149));
        assert(g.weight[n].finite() && g.weight[n].magnitude() <= pow2(149));
        single::lemma_product_bounded(x[pos + n], g.weight[n]);
    }
}

/// Each sample of the output is as many shares as transforms have reached it.
spec fn bounded_output(out: Seq<Single>, t: int) -> bool {
    forall|i: int|
        0 <= i < out.len() ==> (#[trigger] out[i]).finite() && out[i].magnitude() <= cap(
            covered(i, t) as nat,
        ).magnitude()
}

proof fn lemma_overlap_bounded(g: GateRun, bound: nat, out: Seq<Single>, t: int, re: Seq<Single>)
    requires
        tame(g, bound),
        t > 0,
        bounded_output(out, t - 1),
        re.len() == FFT_SIZE,
        within(re, pow2(277)),
    ensures
        bounded_output(audio_effects::overlapped(out, (t - 1) * HOP, re, g.weight), t),
{
    let pos: int = (t - 1) * HOP;
    let after: Seq<Single> = audio_effects::overlapped(out, pos, re, g.weight);
    assert forall|i: int| 0 <= i < after.len() implies (#[trigger] after[i]).finite()
        && after[i].magnitude() <= cap(covered(i, t) as nat).magnitude() by {
        lemma_covered(i, t);
        assert(out[i].finite() && out[i].magnitude() <= cap(
            covered(i, t - 1) as nat,
        ).magnitude());
        if pos <= i < pos + FFT_SIZE {
            let n: int = i - pos;
            let c: nat = covered(i, t - 1) as nat;
            assert(re[n].finite());
            assert(g.weight[n].finite() && g.weight[n].magnitude() <= pow2(149));
            lemma_share_bounded(re, g.weight, n);
            lemma_cap(c);
            lemma_cap(c + 1);
            assert((c + 1) * pow2(266) == c * pow2(266) + pow2(266)) by (nonlinear_arith);
            single::lemma_sum_bounded(
                out[i],
                audio_effects::frame_share(re, g.weight, n),
                cap(c + 1),
            );
        }
    }
}

proof fn lemma_finite_state(g: GateRun, bound: nat, x: Seq<Single>, t: nat)
    requires
        tame(g, bound),
        within(x, pow2(149)),
        t <= audio_effects::transform_count(x.len()),
    ensures
        gate_state(g, x, t).0.len() == BINS,
        forall|k: int| 0 <= k < BINS ==> not_below_zero(#[trigger] gate_state(g, x, t).0[k]),
        gate_state(g, x, t).1.len() == x.len(),
        bounded_output(gate_state(g, x, t).1, t as int),
    decreases t,
{
    single::lemma_whole_exact(0);
    assert(0 * pow2(149) == 0);
    lemma_gated_length(g, x, t);
    if t > 0 {
        let before: nat = (t - 1) as nat;
        lemma_finite_state(g, bound, x, before);
        let env: Seq<Single> = gate_state(g, x, before).0;
        let out: Seq<Single> = gate_state(g, x, before).1;
        let pos: int = (t - 1) * HOP;
        assert(0 <= pos && pos + 2048 <= x.len()) by (nonlinear_arith)
            requires
                pos == (t - 1) * 512,
                0 < t <= (x.len() - 2048) as nat / 512 + 1,
                x.len() >= 2048,
        ;
        lemma_frame_within(g, bound, x, pos);
        let spectrum: (Seq<Single>, Seq<Single>) = (g.forward)(
            audio_effects::frame(x, pos, g.weight),
        );
        lemma_envelopes_not_below_zero(g, bound, env, spectrum);
        let now: Seq<Single> = env_after(g, env, spectrum);
        let gain: Seq<Single> = gains(g, now);
        assert forall|k: int| 0 <= k < BINS implies single::in_unit(#[trigger] gain[k]) by {
            assert(not_below_zero(now[k]));
            lemma_gain_in_unit(g, bound, now, k);
        }
        lemma_gated_within(spectrum.0, spectrum.1, gain, bound);
        let re: Seq<Single> = (g.inverse)(
            audio_effects::gated_re(spectrum.0, gain),
            audio_effects::gated_im(spectrum.1, gain),
        );
        lemma_overlap_bounded(g, bound, out, t as int, re);
    }
}

proof fn lemma_finite_channel(g: GateRun, bound: nat, x: Seq<Single>)
    requires
        tame(g, bound),
        within(x, pow2(149)),
    ensures
        gated_channel(g, x).len() == x.len(),
        forall|i: int| 0 <= i < x.len() ==> (#[trigger] gated_channel(g, x)[i]).finite(),
{
    let t: nat = audio_effects::transform_count(x.len());
    lemma_finite_state(g, bound, x, t);
    lemma_two_thirds();
    let out: Seq<Single> = gate_state(g, x, t).1;
    assert forall|i: int| 0 <= i < x.len() implies (#[trigger] gated_channel(g, x)[i]).finite() by {
        assert(out[i].finite());
        single::lemma_product_bounded(out[i], single::ratio(2, 3));
    }
}

/// The spectral gate never gives an infinity or a NaN for samples between -1 and 1, whatever the
/// bound that the transforms keep to.
pub proof fn gated_samples_are_finite(g: GateRun, samples: Seq<Single>, ch: nat, bound: nat)
    requires
        ch > 0,
        tame(g, bound),
        within(samples, pow2(149)),
    ensures
        gated_signal(g, samples, ch).len() == samples.len(),
        forall|i: int|
            0 <= i < samples.len() ==> (#[trigger] gated_signal(g, samples, ch)[i]).finite(),
{
    lemma_finite_upto(g, samples, ch, ch, bound);
}

proof fn lemma_finite_upto(g: GateRun, samples: Seq<Single>, ch: nat, n: nat, bound: nat)
    requires
        ch > 0,
        n <= ch,
        tame(g, bound),
        within(samples, pow2(149)),
    ensures
        gated_upto(g, samples, ch, n).len() == samples.len(),
        forall|i: int|
            0 <= i < samples.len() ==> (#[trigger] gated_upto(g, samples, ch, n)[i]).finite(),
    decreases n,
{
    single::lemma_whole_exact(0);
    if n > 0 {
        let c: nat = (n - 1) as nat;
        lemma_finite_upto(g, samples, ch, c, bound);
        let x: Seq<Single> = audio_effects::channel_of(samples, ch, c);
        assert forall|i: int| 0 <= i < x.len() implies (#[trigger] x[i]).finite()
            && x[i].magnitude() <= pow2(149) by {
            audio_effects::lemma_in_frame(i, ch as int, c as int, samples.len() as int);
            assert(x[i] == samples[i * ch + c]);
        }
        lemma_finite_channel(g, bound, x);
        let before: Seq<Single> = gated_upto(g, samples, ch, c);
        let now: Seq<Single> = gated_upto(g, samples, ch, n);
        assert forall|i: int| 0 <= i < samples.len() implies (#[trigger] now[i]).finite() by {
            assert(before[i].finite());
            assert(i / (ch as int) >= 0) by (nonlinear_arith)
                requires
                    i >= 0,
                    ch > 0,
            ;
        }
    }
}

} // verus!
