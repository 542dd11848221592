//! The stages that work on samples in memory.
//!
//! Samples are interleaved singles, mono or stereo. What lies here is everything but the
//! transcendental functions and the transforms, which are taken between two passes: a pass ends
//! by handing out the numbers that such a function is to be applied to, and the next one starts
//! from its results.

use vstd::prelude::*;

use crate::args;
use crate::args::{Arg, ArgModel};
use crate::fixed;
use crate::rounding;
use crate::single;
use crate::single::Single;
use crate::types::ReductionProfile;

verus! {

// ---------------------------------------------------------------------------
// Channels
// ---------------------------------------------------------------------------

/// The samples of channel `c`, out of `ch` interleaved ones.
pub open spec fn channel_of(samples: Seq<Single>, ch: nat, c: nat) -> Seq<Single> {
    Seq::new(samples.len() / ch, |i: int| samples[i * ch + c])
}

pub(crate) proof fn lemma_in_frame(i: int, ch: int, c: int, len: int)
    requires
        0 <= i < len / ch,
        0 <= c < ch,
        len >= 0,
    ensures
        0 <= i * ch + c < len,
        0 <= i * ch <= len,
{
    assert(0 <= i * ch + c < len && 0 <= i * ch <= len) by (nonlinear_arith)
        requires
            0 <= i < len / ch,
            0 <= c < ch,
            len >= 0,
    ;
}

/// Takes the samples of one channel out.
pub fn channel(samples: &[Single], ch: usize, c: usize) -> (r: Vec<Single>)
    requires
        c < ch,
    ensures
        r@ == channel_of(samples@, ch as nat, c as nat),
{
    let frames: usize = samples.len() / ch;
    let mut r: Vec<Single> = Vec::new();
    for i in 0..frames
        invariant
            c < ch,
            frames == samples@.len() / ch as nat,
            samples@.len() <= usize::MAX,
            r@ == channel_of(samples@, ch as nat, c as nat).take(i as int),
    {
        proof {
            lemma_in_frame(i as int, ch as int, c as int, samples@.len() as int);
        }
        r.push(samples[i * ch + c]);
        assert(channel_of(samples@, ch as nat, c as nat).take(i as int + 1) == channel_of(
            samples@,
            ch as nat,
            c as nat,
        ).take(i as int).push(samples@[i * ch + c]));
    }
    assert(channel_of(samples@, ch as nat, c as nat).take(frames as int) == channel_of(
        samples@,
        ch as nat,
        c as nat,
    ));
    r
}

/// `out` with channel `c` replaced.
pub open spec fn with_channel(out: Seq<Single>, ch: nat, c: nat, data: Seq<Single>) -> Seq<Single> {
    Seq::new(
        out.len(),
        |k: int|
            if k % (ch as int) == c && k / (ch as int) < data.len() {
                data[k / (ch as int)]
            } else {
                out[k]
            },
    )
}

/// Puts the samples of one channel in place.
pub fn set_channel(out: &mut Vec<Single>, ch: usize, c: usize, data: &[Single])
    requires
        c < ch,
        data@.len() == old(out)@.len() / ch as nat,
    ensures
        final(out)@ == with_channel(old(out)@, ch as nat, c as nat, data@),
{
    let ghost start: Seq<Single> = out@;
    let n: usize = out.len();
    assert(with_channel(start, ch as nat, c as nat, data@.take(0)) =~= start);
    for i in 0..data.len()
        invariant
            c < ch,
            n == out@.len(),
            n == start.len(),
            data@.len() == n as nat / ch as nat,
            out@ == with_channel(start, ch as nat, c as nat, data@.take(i as int)),
    {
        let ghost before: Seq<Single> = out@;
        proof {
            lemma_in_frame(i as int, ch as int, c as int, n as int);
        }
        out.set(i * ch + c, data[i]);
        proof {
            let now: Seq<Single> = with_channel(start, ch as nat, c as nat, data@.take(i as int + 1));
            assert forall|k: int| 0 <= k < n implies out@[k] == now[k] by {
                lemma_position(k, ch as int, c as int, i as int);
            }
            assert(out@ =~= now);
        }
    }
    assert(data@.take(data@.len() as int) == data@);
}

/// Where the place of sample `i` of channel `c` is.
pub(crate) proof fn lemma_position(k: int, ch: int, c: int, i: int)
    requires
        0 <= k,
        0 <= c < ch,
        0 <= i,
    ensures
        k == i * ch + c <==> (k % ch == c && k / ch == i),
{
    vstd::arithmetic::div_mod::lemma_fundamental_div_mod(k, ch);
    if k == i * ch + c {
        vstd::arithmetic::div_mod::lemma_fundamental_div_mod_converse(k, ch, i, c);
    } else if k % ch == c && k / ch == i {
        assert(ch * i == i * ch) by (nonlinear_arith);
    }
}

/// So many zeros.
pub open spec fn zeros(n: nat) -> Seq<Single> {
    Seq::new(n, |i: int| single::whole(0))
}

/// So many zeros.
pub(crate) fn zero_samples(n: usize) -> (r: Vec<Single>)
    ensures
        r@ == zeros(n as nat),
{
    let mut r: Vec<Single> = Vec::new();
    for i in 0..n
        invariant
            r@ == zeros(i as nat),
    {
        r.push(Single::from_i32(0));
        assert(r@ =~= zeros((i + 1) as nat));
    }
    r
}

/// What `f` gives for each of the numbers.
pub(crate) fn each<F: Fn(Single) -> Single>(x: &[Single], f: &F) -> (r: Vec<Single>)
    requires
        forall|v: Single| #[trigger] call_requires(*f, (v,)),
    ensures
        r@.len() == x@.len(),
        forall|k: int| 0 <= k < x@.len() ==> call_ensures(*f, (x@[k],), #[trigger] r@[k]),
{
    let mut r: Vec<Single> = Vec::new();
    for k in 0..x.len()
        invariant
            r@.len() == k,
            forall|v: Single| #[trigger] call_requires(*f, (v,)),
            forall|j: int| 0 <= j < k ==> call_ensures(*f, (x@[j],), #[trigger] r@[j]),
    {
        r.push(f(x[k]));
    }
    r
}

/// Replacing a channel changes that channel and no other.
pub(crate) proof fn lemma_channel_replaced(
    out: Seq<Single>,
    ch: nat,
    c: nat,
    data: Seq<Single>,
    other: nat,
)
    requires
        c < ch,
        other < ch,
        data.len() == out.len() / ch,
    ensures
        channel_of(with_channel(out, ch, c, data), ch, other) == if other == c {
            data
        } else {
            channel_of(out, ch, other)
        },
{
    let now: Seq<Single> = with_channel(out, ch, c, data);
    let want: Seq<Single> = if other == c {
        data
    } else {
        channel_of(out, ch, other)
    };
    assert forall|i: int| 0 <= i < out.len() / ch implies channel_of(now, ch, other)[i]
        == want[i] by {
        lemma_in_frame(i, ch as int, other as int, out.len() as int);
        lemma_position(i * ch + other, ch as int, other as int, i);
    }
    assert(channel_of(now, ch, other) =~= want);
}

// ---------------------------------------------------------------------------
// Downward expander
// ---------------------------------------------------------------------------

/// The margin below the noise floor, in dB, for a safety percentage: from 2 dB at 0% to 8 dB at
/// 100%.
pub open spec fn margin_db(safety_pct: Single) -> Single {
    let pct = single::clamped(safety_pct, single::whole(0), single::whole(100));
    single::sum(
        single::whole(2),
        single::product(
            single::quotient(pct, single::whole(100)),
            single::difference(single::whole(8), single::whole(2)),
        ),
    )
}

/// The margin in dB for a safety percentage.
pub fn safety_pct_to_margin_db(safety_pct: Single) -> (r: Single)
    ensures
        r == margin_db(safety_pct),
{
    let pct: Single = safety_pct.clamp(Single::from_i32(0), Single::from_i32(100));
    let span: Single = Single::from_i32(8).minus(Single::from_i32(2));
    Single::from_i32(2).plus(pct.over(Single::from_i32(100)).times(span))
}

/// The settings of the downward expander.
#[derive(Clone, Copy, Debug)]
pub struct ExpanderParams {
    /// 0 to 100; higher is more conservative.
    pub safety_pct: Single,
    pub reduction_profile: ReductionProfile,
    /// Width of the soft knee in dB.
    pub knee_db: Single,
    pub attack_ms: Single,
    pub release_ms: Single,
    pub hold_ms: Single,
}

impl ExpanderParams {
    /// The settings that a take starts with.
    pub open spec fn initial() -> ExpanderParams {
        ExpanderParams {
            safety_pct: single::whole(50),
            reduction_profile: ReductionProfile::Recommended,
            knee_db: single::whole(3),
            attack_ms: single::whole(10),
            release_ms: single::whole(200),
            hold_ms: single::whole(60),
        }
    }
}

impl Default for ExpanderParams {
    fn default() -> (r: Self)
        ensures
            r == ExpanderParams::initial(),
    {
        ExpanderParams {
            safety_pct: Single::from_i32(50),
            reduction_profile: ReductionProfile::Recommended,
            knee_db: Single::from_i32(3),
            attack_ms: Single::from_i32(10),
            release_ms: Single::from_i32(200),
            hold_ms: Single::from_i32(60),
        }
    }
}

/// The numbers that the expander runs with.
#[derive(Clone, Copy, Debug)]
pub struct ExpanderPlan {
    pub threshold_db: Single,
    pub knee_db: Single,
    pub max_reduction_db: Single,
    /// The lowest gain is 10 to this power.
    pub floor_exponent: Single,
    /// Samples in the window of the level detector.
    pub rms_win: usize,
    /// The coefficient for rising levels is e to this power.
    pub attack_exponent: Single,
    /// The coefficient for falling levels is e to this power.
    pub release_exponent: Single,
    pub hold_samples: usize,
}

/// Milliseconds in samples.
pub open spec fn ms_in_samples(ms: Single, sr: u32) -> Single {
    single::product(single::product(ms, single::ratio(1, 1000)), single::whole(sr as int))
}

/// `-1` over the milliseconds in samples.
pub open spec fn decay_exponent(ms: Single, sr: u32) -> Single {
    single::quotient(single::whole(-1), ms_in_samples(ms, sr))
}

/// The window of the level detector: 3 ms, at least one sample.
pub open spec fn rms_window(sr: u32) -> nat {
    let n = single::rounded_index(single::product(single::whole(sr as int), single::ratio(3, 1000)));
    if n < 1 {
        1
    } else {
        n
    }
}

/// The plan for a sample rate, settings, and a noise floor.
pub open spec fn plan(sr: u32, p: ExpanderParams, noise_floor_db: Single) -> ExpanderPlan {
    ExpanderPlan {
        threshold_db: single::difference(noise_floor_db, margin_db(p.safety_pct)),
        knee_db: single::maximum(p.knee_db, single::ratio(1, 10)),
        max_reduction_db: single::whole(p.reduction_profile.whole_db()),
        floor_exponent: single::quotient(
            single::whole(p.reduction_profile.whole_db()),
            single::whole(20),
        ),
        rms_win: rms_window(sr) as usize,
        attack_exponent: decay_exponent(p.attack_ms, sr),
        release_exponent: decay_exponent(p.release_ms, sr),
        hold_samples: single::rounded_index(ms_in_samples(p.hold_ms, sr)) as usize,
    }
}

/// Works out the plan; `None` where the expander hands the samples back as they are.
pub fn expander_plan(
    len: usize,
    sample_rate: u32,
    channels: u16,
    params: &ExpanderParams,
    noise_floor_db: Single,
) -> (r: Option<ExpanderPlan>)
    ensures
        r == if len == 0 || channels == 0 || sample_rate == 0 {
            None
        } else {
            Some(plan(sample_rate, *params, noise_floor_db))
        },
{
    if len == 0 || channels == 0 || sample_rate == 0 {
        return None;
    }
    let sr: Single = Single::from_u64(sample_rate as u64);
    let milli: Single = Single::of_ratio(1, 1000);
    let max_reduction_db: Single = params.reduction_profile.db();
    let win: usize = sr.times(Single::of_ratio(3, 1000)).round_to_index();
    let minus_one: Single = Single::from_i32(-1);
    Some(
        ExpanderPlan {
            threshold_db: noise_floor_db.minus(safety_pct_to_margin_db(params.safety_pct)),
            knee_db: params.knee_db.max(Single::of_ratio(1, 10)),
            max_reduction_db,
            floor_exponent: max_reduction_db.over(Single::from_i32(20)),
            rms_win: if win < 1 {
                1
            } else {
                win
            },
            attack_exponent: minus_one.over(params.attack_ms.times(milli).times(sr)),
            release_exponent: minus_one.over(params.release_ms.times(milli).times(sr)),
            hold_samples: params.hold_ms.times(milli).times(sr).round_to_index(),
        },
    )
}

/// `x * x`.
pub open spec fn square(x: Single) -> Single {
    single::product(x, x)
}

/// The running sum of squares over the last `win` samples, after `i` samples: each step takes
/// the square that leaves the window off, and then adds the one that enters it.
pub open spec fn running_sum(x: Seq<Single>, win: nat, i: nat) -> Single
    decreases i,
{
    if i == 0 {
        single::whole(0)
    } else {
        let k = i - 1;
        single::sum(
            single::difference(
                running_sum(x, win, (i - 1) as nat),
                if k >= win {
                    square(x[k - win])
                } else {
                    single::whole(0)
                },
            ),
            square(x[k]),
        )
    }
}

/// The mean square at sample `i`; rounding must not make it negative.
pub open spec fn mean_square(x: Seq<Single>, win: nat, i: int) -> Single {
    single::quotient(
        single::maximum(running_sum(x, win, (i + 1) as nat), single::whole(0)),
        single::whole(win as int),
    )
}

/// The mean square at every sample.
pub fn mean_squares(x: &[Single], win: usize) -> (r: Vec<Single>)
    requires
        win > 0,
    ensures
        r@ == Seq::new(x@.len(), |i: int| mean_square(x@, win as nat, i)),
{
    let zero: Single = Single::from_i32(0);
    let width: Single = Single::from_u64(win as u64);
    let mut sum: Single = zero;
    let mut r: Vec<Single> = Vec::new();
    for i in 0..x.len()
        invariant
            win > 0,
            zero == single::whole(0),
            width == single::whole(win as int),
            sum == running_sum(x@, win as nat, i as nat),
            r@ == Seq::new(i as nat, |k: int| mean_square(x@, win as nat, k)),
    {
        let gone: Single = if i >= win {
            x[i - win].times(x[i - win])
        } else {
            zero
        };
        sum = sum.minus(gone).plus(x[i].times(x[i]));
        r.push(sum.max(zero).over(width));
        assert(r@ =~= Seq::new((i + 1) as nat, |k: int| mean_square(x@, win as nat, k)));
    }
    r
}

/// `1e-10`, below which a level counts as silence.
pub open spec fn silence() -> Single {
    single::ratio(1, 10_000_000_000)
}

/// The level in dB for a root mean square and its decimal logarithm.
pub open spec fn level_db(rms: Single, log10: Single) -> Single {
    if single::less(silence(), rms) {
        single::product(single::whole(20), log10)
    } else {
        single::whole(-200)
    }
}

/// The levels in dB, from root mean squares and their decimal logarithms.
pub fn levels(rms: &[Single], log10: &[Single]) -> (r: Vec<Single>)
    requires
        rms@.len() == log10@.len(),
    ensures
        r@ == Seq::new(rms@.len(), |i: int| level_db(rms@[i], log10@[i])),
{
    let floor: Single = Single::from_i32(1).over(Single::from_u64(10_000_000_000));
    let mut r: Vec<Single> = Vec::new();
    for i in 0..rms.len()
        invariant
            rms@.len() == log10@.len(),
            floor == silence(),
            r@ == Seq::new(i as nat, |k: int| level_db(rms@[k], log10@[k])),
    {
        r.push(
            if floor.lt(rms[i]) {
                Single::from_i32(20).times(log10[i])
            } else {
                Single::from_i32(-200)
            },
        );
        assert(r@ =~= Seq::new((i + 1) as nat, |k: int| level_db(rms@[k], log10@[k])));
    }
    r
}

/// One step of a one-pole follower: from `from` towards `to`.
pub open spec fn follow(from: Single, to: Single, rising: Single, falling: Single) -> Single {
    single::sum(
        to,
        single::product(
            if single::less(from, to) {
                rising
            } else {
                falling
            },
            single::difference(from, to),
        ),
    )
}

fn follow_step(from: Single, to: Single, rising: Single, falling: Single) -> (r: Single)
    ensures
        r == follow(from, to, rising, falling),
{
    let coef: Single = if from.lt(to) {
        rising
    } else {
        falling
    };
    to.plus(coef.times(from.minus(to)))
}

/// The envelope of the levels. It starts at the first level, so that a file does not open with
/// an attack from silence.
pub open spec fn envelope_at(level: Seq<Single>, attack: Single, release: Single, i: int) -> Single
    decreases i,
{
    if i <= 0 {
        level[0]
    } else {
        follow(envelope_at(level, attack, release, i - 1), level[i], attack, release)
    }
}

/// The envelope of the levels.
pub fn envelope(level: &[Single], attack: Single, release: Single) -> (r: Vec<Single>)
    ensures
        r@ == Seq::new(level@.len(), |i: int| envelope_at(level@, attack, release, i)),
{
    let mut r: Vec<Single> = Vec::new();
    for i in 0..level.len()
        invariant
            r@ == Seq::new(i as nat, |k: int| envelope_at(level@, attack, release, k)),
    {
        let e: Single = if i == 0 {
            level[0]
        } else {
            follow_step(r[i - 1], level[i], attack, release)
        };
        r.push(e);
        assert(r@ =~= Seq::new((i + 1) as nat, |k: int| envelope_at(level@, attack, release, k)));
    }
    r
}

/// The gain that a level asks for.
#[derive(Clone, Copy, PartialEq, Eq, Debug, Structural)]
pub enum GainRegion {
    /// No reduction.
    Open,
    /// In the knee: the gain is 10 to this power.
    Knee { exponent: Single },
    /// The full reduction of the profile.
    Floor,
}

/// The gain that a level asks for: none at the threshold or above it, the full reduction a knee
/// below it or further down, and in between as many dB of it as the level is into the knee.
pub open spec fn region(p: ExpanderPlan, env_db: Single) -> GainRegion {
    if single::at_most(p.threshold_db, env_db) {
        GainRegion::Open
    } else if single::less(single::difference(p.threshold_db, p.knee_db), env_db) {
        GainRegion::Knee {
            exponent: single::quotient(
                single::product(
                    p.max_reduction_db,
                    single::quotient(single::difference(p.threshold_db, env_db), p.knee_db),
                ),
                single::whole(20),
            ),
        }
    } else {
        GainRegion::Floor
    }
}

/// The gain that a level asks for.
pub fn gain_region(p: &ExpanderPlan, env_db: Single) -> (r: GainRegion)
    ensures
        r == region(*p, env_db),
{
    if p.threshold_db.le(env_db) {
        GainRegion::Open
    } else if p.threshold_db.minus(p.knee_db).lt(env_db) {
        let ratio: Single = p.threshold_db.minus(env_db).over(p.knee_db);
        GainRegion::Knee { exponent: p.max_reduction_db.times(ratio).over(Single::from_i32(20)) }
    } else {
        GainRegion::Floor
    }
}

/// How long the level has been below the threshold after sample `i`, up to `hold` samples.
pub open spec fn held_for(env_db: Seq<Single>, threshold_db: Single, hold: nat, i: int) -> nat
    decreases i + 1,
{
    if i < 0 || !single::less(env_db[i], threshold_db) {
        0
    } else {
        let before = held_for(env_db, threshold_db, hold, i - 1);
        if before < hold {
            before + 1
        } else {
            before
        }
    }
}

/// The smoothed gain after sample `i`. While the hold lasts the gain does not fall.
pub open spec fn gain_at(
    env_db: Seq<Single>,
    target: Seq<Single>,
    threshold_db: Single,
    hold: nat,
    attack: Single,
    release: Single,
    i: int,
) -> Single
    decreases i + 1,
{
    if i < 0 {
        single::whole(1)
    } else {
        let before = gain_at(env_db, target, threshold_db, hold, attack, release, i - 1);
        let count = held_for(env_db, threshold_db, hold, i);
        let wanted = if 0 < count < hold {
            single::maximum(before, target[i])
        } else {
            target[i]
        };
        follow(before, wanted, attack, release)
    }
}

/// The samples of one channel with the smoothed gains applied.
pub fn expand_channel(
    x: &[Single],
    env_db: &[Single],
    target: &[Single],
    threshold_db: Single,
    hold: usize,
    attack: Single,
    release: Single,
) -> (r: Vec<Single>)
    requires
        x@.len() == env_db@.len(),
        x@.len() == target@.len(),
    ensures
        r@ == Seq::new(
            x@.len(),
            |i: int|
                single::product(
                    x@[i],
                    gain_at(env_db@, target@, threshold_db, hold as nat, attack, release, i),
                ),
        ),
{
    let mut gain: Single = Single::from_i32(1);
    let mut count: usize = 0;
    let mut r: Vec<Single> = Vec::new();
    for i in 0..x.len()
        invariant
            x@.len() == env_db@.len(),
            x@.len() == target@.len(),
            count <= hold,
            count == held_for(env_db@, threshold_db, hold as nat, i - 1),
            gain == gain_at(
                env_db@,
                target@,
                threshold_db,
                hold as nat,
                attack,
                release,
                i - 1,
            ),
            r@ == Seq::new(
                i as nat,
                |k: int|
                    single::product(
                        x@[k],
                        gain_at(env_db@, target@, threshold_db, hold as nat, attack, release, k),
                    ),
            ),
    {
        if env_db[i].lt(threshold_db) {
            if count < hold {
                count = count + 1;
            }
        } else {
            count = 0;
        }
        let wanted: Single = if 0 < count && count < hold {
            gain.max(target[i])
        } else {
            target[i]
        };
        gain = follow_step(gain, wanted, attack, release);
        r.push(x[i].times(gain));
        assert(r@ =~= Seq::new(
            (i + 1) as nat,
            |k: int|
                single::product(
                    x@[k],
                    gain_at(env_db@, target@, threshold_db, hold as nat, attack, release, k),
                ),
        ));
    }
    r
}

// ---------------------------------------------------------------------------
// Noise floor
// ---------------------------------------------------------------------------

/// The length of an analysis window: 25 ms.
pub open spec fn floor_window(sr: u32) -> nat {
    single::rounded_index(single::product(single::whole(sr as int), single::ratio(25, 1000)))
}

/// The length of the analysis windows; `None` where there is nothing to analyze: no samples, no
/// sample rate, or fewer samples than one window takes.
pub fn noise_floor_window(len: usize, sample_rate: u32) -> (r: Option<usize>)
    ensures
        match r {
            Some(w) => w == floor_window(sample_rate) && len > 0 && sample_rate > 0 && 0 < w <= len,
            None => len == 0 || sample_rate == 0 || floor_window(sample_rate) == 0 || len
                < floor_window(sample_rate),
        },
{
    if len == 0 || sample_rate == 0 {
        return None;
    }
    let w: usize = Single::from_u64(sample_rate as u64).times(
        Single::of_ratio(25, 1000),
    ).round_to_index();
    if w == 0 || len < w {
        None
    } else {
        Some(w)
    }
}

/// The place of sample `n` in a window of `len` samples, from 0 to 1: what the argument of the
/// window's cosine is made of.
pub open spec fn window_place(n: int, len: int) -> Single {
    single::quotient(single::whole(n), single::whole(len - 1))
}

/// The places of all samples in a window.
pub fn window_places(len: usize) -> (r: Vec<Single>)
    requires
        len > 0,
    ensures
        r@ == Seq::new(len as nat, |n: int| window_place(n, len as int)),
{
    let last: Single = Single::from_u64((len - 1) as u64);
    let mut r: Vec<Single> = Vec::new();
    for n in 0..len
        invariant
            len > 0,
            last == single::whole(len - 1),
            r@ == Seq::new(n as nat, |k: int| window_place(k, len as int)),
    {
        r.push(Single::from_u64(n as u64).over(last));
        assert(r@ =~= Seq::new((n + 1) as nat, |k: int| window_place(k, len as int)));
    }
    r
}

/// The weight of a Hann window for a cosine: `0.5 - 0.5 * cos`.
pub open spec fn hann_weight(cos: Single) -> Single {
    single::difference(single::ratio(1, 2), single::product(single::ratio(1, 2), cos))
}

/// The weights of a Hann window, from the cosines of its places.
pub fn hann_weights(cos: &[Single]) -> (r: Vec<Single>)
    ensures
        r@ == Seq::new(cos@.len(), |i: int| hann_weight(cos@[i])),
{
    let half: Single = Single::of_ratio(1, 2);
    let mut r: Vec<Single> = Vec::new();
    for i in 0..cos.len()
        invariant
            half == single::ratio(1, 2),
            r@ == Seq::new(i as nat, |k: int| hann_weight(cos@[k])),
    {
        r.push(half.minus(half.times(cos[i])));
        assert(r@ =~= Seq::new((i + 1) as nat, |k: int| hann_weight(cos@[k])));
    }
    r
}

/// The sum of the squares of the first `n` weighted samples from `pos` on.
pub open spec fn weighted_energy(x: Seq<Single>, pos: int, weight: Seq<Single>, n: nat) -> Single
    decreases n,
{
    if n == 0 {
        single::whole(0)
    } else {
        let k = n - 1;
        single::sum(
            weighted_energy(x, pos, weight, (n - 1) as nat),
            square(single::product(x[pos + k], weight[k])),
        )
    }
}

/// The number of windows that fit, half a window apart.
pub open spec fn window_count(len: nat, win: nat) -> nat {
    ((len - win) as nat / (win / 2) + 1) as nat
}

/// The mean square in each window, half a window apart.
pub fn window_energies(x: &[Single], weight: &[Single]) -> (r: Vec<Single>)
    requires
        2 <= weight@.len() <= x@.len(),
    ensures
        r@ == Seq::new(
            window_count(x@.len(), weight@.len()),
            |j: int|
                single::quotient(
                    weighted_energy(
                        x@,
                        j * (weight@.len() / 2),
                        weight@,
                        weight@.len(),
                    ),
                    single::whole(weight@.len() as int),
                ),
        ),
{
    let win: usize = weight.len();
    let hop: usize = win / 2;
    let len: usize = x.len();
    let width: Single = Single::from_u64(win as u64);
    let count: usize = (len - win) / hop + 1;
    let mut r: Vec<Single> = Vec::new();
    for j in 0..count
        invariant
            win == weight@.len(),
            hop == win / 2,
            len == x@.len(),
            2 <= win <= len,
            width == single::whole(win as int),
            count == window_count(len as nat, win as nat),
            r@ == Seq::new(
                j as nat,
                |k: int|
                    single::quotient(
                        weighted_energy(x@, k * hop, weight@, win as nat),
                        single::whole(win as int),
                    ),
            ),
    {
        assert(0 <= j * hop && j * hop + win <= len) by (nonlinear_arith)
            requires
                j < (len - win) / (hop as int) + 1,
                hop > 0,
                win <= len,
                j >= 0,
        ;
        let pos: usize = j * hop;
        let mut sum: Single = Single::from_i32(0);
        for n in 0..win
            invariant
                win == weight@.len(),
                len == x@.len(),
                pos + win <= len,
                sum == weighted_energy(x@, pos as int, weight@, n as nat),
        {
            let s: Single = x[pos + n].times(weight[n]);
            sum = sum.plus(s.times(s));
        }
        r.push(sum.over(width));
        assert(r@ =~= Seq::new(
            (j + 1) as nat,
            |k: int|
                single::quotient(
                    weighted_energy(x@, k * hop, weight@, win as nat),
                    single::whole(win as int),
                ),
        ));
    }
    r
}

/// `1e-7`: windows at or below this level are digital silence and do not count.
pub open spec fn faintest() -> Single {
    single::ratio(1, 10_000_000)
}

/// The levels that count, in dB: those of windows above digital silence, in order.
pub open spec fn audible(rms: Seq<Single>, log10: Seq<Single>) -> Seq<Single>
    decreases rms.len(),
{
    if rms.len() == 0 {
        Seq::empty()
    } else {
        let head = audible(rms.drop_last(), log10.drop_last());
        if single::less(faintest(), rms.last()) {
            head.push(single::product(single::whole(20), log10.last()))
        } else {
            head
        }
    }
}

/// Keeps the levels of the windows above digital silence.
pub fn audible_levels(rms: &[Single], log10: &[Single]) -> (r: Vec<Single>)
    requires
        rms@.len() == log10@.len(),
    ensures
        r@ == audible(rms@, log10@),
{
    let floor: Single = Single::of_ratio(1, 10_000_000);
    let mut r: Vec<Single> = Vec::new();
    for i in 0..rms.len()
        invariant
            rms@.len() == log10@.len(),
            floor == faintest(),
            r@ == audible(rms@.take(i as int), log10@.take(i as int)),
    {
        assert(rms@.take(i as int + 1).drop_last() == rms@.take(i as int));
        assert(log10@.take(i as int + 1).drop_last() == log10@.take(i as int));
        if floor.lt(rms[i]) {
            r.push(Single::from_i32(20).times(log10[i]));
        }
    }
    assert(rms@.take(rms@.len() as int) == rms@);
    assert(log10@.take(log10@.len() as int) == log10@);
    r
}

/// How many of the values are below `v`.
pub open spec fn count_below(values: Seq<Single>, v: Single) -> nat
    decreases values.len(),
{
    if values.len() == 0 {
        0
    } else {
        count_below(values.drop_last(), v) + if single::less(values.last(), v) {
            1nat
        } else {
            0nat
        }
    }
}

/// How many of the values equal `v`.
pub open spec fn count_equal(values: Seq<Single>, v: Single) -> nat
    decreases values.len(),
{
    if values.len() == 0 {
        0
    } else {
        count_equal(values.drop_last(), v) + if values.last().value() == v.value() {
            1nat
        } else {
            0nat
        }
    }
}

/// Where the value at `p` comes when the values are sorted, equal ones keeping their order.
pub open spec fn sorted_place(values: Seq<Single>, p: int) -> nat {
    count_below(values, values[p]) + count_equal(values.take(p), values[p])
}

/// The place of the 12th percentile among `n` sorted values.
pub open spec fn percentile_place(n: nat) -> nat {
    let i = single::rounded_index(single::product(single::whole(n as int), single::ratio(12, 100)));
    if i < n {
        i
    } else {
        (n - 1) as nat
    }
}

/// How many of the values have a bit pattern of at most `k`.
spec fn count_to(values: Seq<Single>, k: int) -> nat
    decreases values.len(),
{
    if values.len() == 0 {
        0
    } else {
        count_to(values.drop_last(), k) + if single::key(values.last()) <= k {
            1nat
        } else {
            0nat
        }
    }
}

proof fn lemma_count_to(values: Seq<Single>, v: Single)
    requires
        !v.nan(),
        forall|i: int| 0 <= i < values.len() ==> !values[i].nan(),
    ensures
        count_below(values, v) == count_to(values, single::key(v) - 1),
        count_below(values, v) + count_equal(values, v) == count_to(values, single::key(v)),
    decreases values.len(),
{
    if values.len() > 0 {
        lemma_count_to(values.drop_last(), v);
        single::lemma_value_order(values.last(), v);
        single::lemma_value_order(v, values.last());
    }
}

proof fn lemma_count_all(values: Seq<Single>, k: int)
    ensures
        k >= 0x8000_0000 ==> count_to(values, k) == values.len(),
        k <= -0x8000_0000 ==> count_to(values, k) == 0,
    decreases values.len(),
{
    if values.len() > 0 {
        lemma_count_all(values.drop_last(), k);
    }
}

fn count_up_to(values: &Vec<Single>, k: i64) -> (n: usize)
    ensures
        n == count_to(values@, k as int),
        n <= values@.len(),
{
    let mut n: usize = 0;
    for i in 0..values.len()
        invariant
            n <= i,
            n == count_to(values@.take(i as int), k as int),
    {
        assert(values@.take(i as int + 1).drop_last() == values@.take(i as int));
        if values[i].order_key() <= k {
            n = n + 1;
        }
    }
    assert(values@.take(values@.len() as int) == values@);
    n
}

/// The value that comes at place `place` when the values are sorted.
fn at_sorted_place(values: &Vec<Single>, place: usize) -> (r: Single)
    requires
        place < values@.len(),
        forall|i: int| 0 <= i < values@.len() ==> !(#[trigger] values@[i]).nan(),
    ensures
        exists|p: int|
            0 <= p < values@.len() && #[trigger] values@[p] == r && sorted_place(values@, p)
                == place,
{
    let mut lo: i64 = -0x8000_0000;
    let mut hi: i64 = 0x8000_0000;
    proof {
        lemma_count_all(values@, lo as int);
        lemma_count_all(values@, hi as int);
    }
    while hi - lo > 1
        invariant
            -0x8000_0000 <= lo < hi <= 0x8000_0000,
            count_to(values@, lo as int) <= place,
            count_to(values@, hi as int) > place,
        decreases hi - lo,
    {
        let mid: i64 = lo + (hi - lo) / 2;
        if count_up_to(values, mid) > place {
            hi = mid;
        } else {
            lo = mid;
        }
    }
    let below: usize = count_up_to(values, lo);
    let nth: usize = place - below;
    let mut seen: usize = 0;
    let mut p: usize = 0;
    while p < values.len()
        invariant
            p <= values@.len(),
            lo == hi - 1,
            below == count_to(values@, lo as int),
            nth == place - below,
            place < count_to(values@, hi as int),
            below <= place,
            seen <= nth,
            seen <= p,
            seen == count_to(values@.take(p as int), hi as int) - count_to(
                values@.take(p as int),
                lo as int,
            ),
            forall|i: int| 0 <= i < values@.len() ==> !(#[trigger] values@[i]).nan(),
        decreases values@.len() - p,
    {
        let v: Single = values[p];
        let ghost head: Seq<Single> = values@.take(p as int);
        proof {
            assert(values@.take(p as int + 1).drop_last() == head);
            assert(values@.take(p as int + 1).last() == v);
        }
        if v.order_key() == hi {
            if seen == nth {
                proof {
                    lemma_count_to(values@, v);
                    lemma_count_to(head, v);
                    assert(sorted_place(values@, p as int) == place);
                }
                return v;
            }
            seen = seen + 1;
        }
        p = p + 1;
    }
    proof {
        assert(values@.take(values@.len() as int) == values@);
        assert(false);
    }
    values[0]
}

/// The noise floor is the 12th percentile of the levels. Fewer than ten levels are not enough to
/// tell.
pub open spec fn is_noise_floor(levels: Seq<Single>, r: Option<Single>) -> bool {
    match r {
        None => levels.len() < 10,
        Some(v) => levels.len() >= 10 && exists|p: int|
            0 <= p < levels.len() && #[trigger] levels[p] == v && sorted_place(levels, p)
                == percentile_place(levels.len()),
    }
}

/// The noise floor of these levels.
pub fn noise_floor(levels: &Vec<Single>) -> (r: Option<Single>)
    requires
        forall|i: int| 0 <= i < levels@.len() ==> !(#[trigger] levels@[i]).nan(),
    ensures
        is_noise_floor(levels@, r),
{
    let n: usize = levels.len();
    if n < 10 {
        return None;
    }
    let i: usize = Single::from_u64(n as u64).times(Single::of_ratio(12, 100)).round_to_index();
    let place: usize = if i < n {
        i
    } else {
        n - 1
    };
    Some(at_sorted_place(levels, place))
}

/// The loudest sample: the largest magnitude, 0 if there are none.
pub open spec fn peak(x: Seq<Single>) -> Single
    decreases x.len(),
{
    if x.len() == 0 {
        single::whole(0)
    } else {
        single::maximum(peak(x.drop_last()), single::absolute(x.last()))
    }
}

/// The loudest sample.
pub fn peak_of(x: &[Single]) -> (r: Single)
    ensures
        r == peak(x@),
{
    let mut m: Single = Single::from_i32(0);
    for i in 0..x.len()
        invariant
            m == peak(x@.take(i as int)),
    {
        assert(x@.take(i as int + 1).drop_last() == x@.take(i as int));
        m = m.max(x[i].abs());
    }
    assert(x@.take(x@.len() as int) == x@);
    m
}

/// The peak level in dB, from the peak and its decimal logarithm; minus infinity for silence.
pub fn peak_level(peak: Single, log10: Single) -> (r: Single)
    ensures
        r == if single::less(single::whole(0), peak) {
            single::product(single::whole(20), log10)
        } else {
            single::infinity(true)
        },
{
    if Single::from_i32(0).lt(peak) {
        Single::from_i32(20).times(log10)
    } else {
        Single::from_bits(0xFF80_0000)
    }
}

// ---------------------------------------------------------------------------
// Spectral gate
// ---------------------------------------------------------------------------

/// The settings of the spectral gate.
#[derive(Clone, Copy, Debug)]
pub struct SpectralGateParams {
    pub threshold_db: Single,
    pub ratio: Single,
    pub attack_s: Single,
    pub release_s: Single,
}

impl SpectralGateParams {
    /// The settings that a take starts with.
    pub open spec fn initial() -> SpectralGateParams {
        SpectralGateParams {
            threshold_db: single::whole(-45),
            ratio: single::whole(2),
            attack_s: single::ratio(2, 1000),
            release_s: single::ratio(80, 1000),
        }
    }
}

impl Default for SpectralGateParams {
    fn default() -> (r: Self)
        ensures
            r == SpectralGateParams::initial(),
    {
        SpectralGateParams {
            threshold_db: Single::from_i32(-45),
            ratio: Single::from_i32(2),
            attack_s: Single::of_ratio(2, 1000),
            release_s: Single::of_ratio(80, 1000),
        }
    }
}

/// Samples in one transform.
pub const FFT_SIZE: usize = 2048;

/// Samples from one transform to the next.
pub const HOP: usize = 512;

/// Frequency bins of one transform, up to half the sample rate.
pub const BINS: usize = 1025;

/// The numbers of the spectral gate.
#[derive(Clone, Copy, Debug)]
pub struct GatePlan {
    /// The threshold is 10 to this power.
    pub threshold_exponent: Single,
    /// The power to which a level below the threshold is taken, over the threshold.
    pub slope: Single,
    /// The coefficient for rising levels is e to this power.
    pub attack_exponent: Single,
    /// The coefficient for falling levels is e to this power.
    pub release_exponent: Single,
}

/// The seconds from one transform to the next.
pub open spec fn frame_time(sr: u32) -> Single {
    single::quotient(single::whole(512), single::whole(sr as int))
}

/// Works out the numbers of the spectral gate.
pub fn gate_plan(sample_rate: u32, p: &SpectralGateParams) -> (r: GatePlan)
    ensures
        r.threshold_exponent == single::quotient(p.threshold_db, single::whole(20)),
        r.slope == single::difference(
            single::maximum(p.ratio, single::whole(1)),
            single::whole(1),
        ),
        r.attack_exponent == single::quotient(
            single::negated(frame_time(sample_rate)),
            p.attack_s,
        ),
        r.release_exponent == single::quotient(
            single::negated(frame_time(sample_rate)),
            p.release_s,
        ),
{
    let back: Single = Single::from_i32(512).over(Single::from_u64(sample_rate as u64)).negate();
    let one: Single = Single::from_i32(1);
    GatePlan {
        threshold_exponent: p.threshold_db.over(Single::from_i32(20)),
        slope: p.ratio.max(one).minus(one),
        attack_exponent: back.over(p.attack_s),
        release_exponent: back.over(p.release_s),
    }
}

/// How many transforms fit into `frames` samples.
pub open spec fn transform_count(frames: nat) -> nat {
    if frames < FFT_SIZE {
        0
    } else {
        (frames - FFT_SIZE) as nat / HOP as nat + 1
    }
}

/// How many transforms fit into `frames` samples.
pub fn transforms(frames: usize) -> (n: usize)
    ensures
        n == transform_count(frames as nat),
        n > 0 ==> (n - 1) * HOP + FFT_SIZE <= frames,
{
    if frames < FFT_SIZE {
        0
    } else {
        (frames - FFT_SIZE) / HOP + 1
    }
}

/// The weighted samples that go into the transform at `pos`.
pub open spec fn frame(x: Seq<Single>, pos: int, weight: Seq<Single>) -> Seq<Single> {
    Seq::new(weight.len(), |n: int| single::product(x[pos + n], weight[n]))
}

/// The weighted samples that go into the transform at `pos`.
pub fn frame_at(x: &[Single], pos: usize, weight: &[Single]) -> (r: Vec<Single>)
    requires
        pos + weight@.len() <= x@.len(),
    ensures
        r@ == frame(x@, pos as int, weight@),
{
    let len: usize = x.len();
    let mut r: Vec<Single> = Vec::new();
    for n in 0..weight.len()
        invariant
            len == x@.len(),
            pos + weight@.len() <= len,
            r@ == Seq::new(n as nat, |k: int| single::product(x@[pos + k], weight@[k])),
    {
        r.push(x[pos + n].times(weight[n]));
        assert(r@ =~= Seq::new((n + 1) as nat, |k: int| single::product(x@[pos + k], weight@[k])));
    }
    assert(r@ =~= frame(x@, pos as int, weight@));
    r
}

/// The squared magnitude of each of the bins.
pub open spec fn powers(re: Seq<Single>, im: Seq<Single>) -> Seq<Single> {
    Seq::new(BINS as nat, |k: int| single::sum(square(re[k]), square(im[k])))
}

/// The squared magnitude of each of the bins.
pub fn bin_powers(re: &[Single], im: &[Single]) -> (r: Vec<Single>)
    requires
        re@.len() == FFT_SIZE,
        im@.len() == FFT_SIZE,
    ensures
        r@ == powers(re@, im@),
{
    let mut r: Vec<Single> = Vec::new();
    for k in 0..BINS
        invariant
            re@.len() == FFT_SIZE,
            im@.len() == FFT_SIZE,
            r@ == Seq::new(k as nat, |j: int| single::sum(square(re@[j]), square(im@[j]))),
    {
        r.push(re[k].times(re[k]).plus(im[k].times(im[k])));
        assert(r@ =~= Seq::new((k + 1) as nat, |j: int| single::sum(square(re@[j]), square(im@[j]))));
    }
    assert(r@ =~= powers(re@, im@));
    r
}

/// The envelopes, each moved towards the magnitude of its bin.
pub open spec fn followed(
    env: Seq<Single>,
    mag: Seq<Single>,
    attack: Single,
    release: Single,
) -> Seq<Single> {
    Seq::new(mag.len(), |k: int| follow(env[k], mag[k], attack, release))
}

/// Moves the envelope of each bin towards its magnitude.
pub fn follow_bins(env: &mut Vec<Single>, mag: &[Single], attack: Single, release: Single)
    requires
        old(env)@.len() == mag@.len(),
    ensures
        final(env)@ == followed(old(env)@, mag@, attack, release),
{
    let ghost start: Seq<Single> = env@;
    for k in 0..mag.len()
        invariant
            start.len() == mag@.len(),
            env@.len() == mag@.len(),
            forall|j: int| 0 <= j < k ==> env@[j] == follow(start[j], mag@[j], attack, release),
            forall|j: int| k <= j < env@.len() ==> env@[j] == start[j],
    {
        let e: Single = follow_step(env[k], mag[k], attack, release);
        env.set(k, e);
    }
    assert(env@ =~= followed(start, mag@, attack, release));
}

/// How far a bin is below the threshold, as the fraction of it that its envelope is at; `None`
/// where it is not below it.
pub open spec fn below(env: Single, threshold: Single) -> Option<Single> {
    if single::less(env, threshold) {
        Some(single::quotient(env, threshold))
    } else {
        None
    }
}

/// How far a bin is below the threshold, as the fraction of it that its envelope is at; `None`
/// where it is not below it.
pub fn below_gate(env: Single, threshold: Single) -> (r: Option<Single>)
    ensures
        r == below(env, threshold),
{
    if env.lt(threshold) {
        Some(env.over(threshold))
    } else {
        None
    }
}

/// The gain of a bin: the fraction taken to the slope where it is below the threshold, never
/// negative; 1 where it is not.
pub open spec fn gain_of(power: Option<Single>) -> Single {
    match power {
        Some(g) => single::maximum(g, single::whole(0)),
        None => single::whole(1),
    }
}

/// The gain of a bin: the fraction taken to the slope where it is below the threshold, never
/// negative; 1 where it is not.
pub fn gate_gain(power: Option<Single>) -> (r: Single)
    ensures
        r == gain_of(power),
{
    match power {
        Some(g) => g.max(Single::from_i32(0)),
        None => Single::from_i32(1),
    }
}

/// The real parts after the gains, the upper half being the mirror of the lower one.
pub open spec fn gated_re(re: Seq<Single>, gain: Seq<Single>) -> Seq<Single> {
    Seq::new(
        FFT_SIZE as nat,
        |k: int|
            if k < BINS {
                single::product(re[k], gain[k])
            } else {
                single::product(re[FFT_SIZE - k], gain[FFT_SIZE - k])
            },
    )
}

/// The imaginary parts after the gains, the upper half being the mirror of the lower one with
/// the other sign.
pub open spec fn gated_im(im: Seq<Single>, gain: Seq<Single>) -> Seq<Single> {
    Seq::new(
        FFT_SIZE as nat,
        |k: int|
            if k < BINS {
                single::product(im[k], gain[k])
            } else {
                single::negated(single::product(im[FFT_SIZE - k], gain[FFT_SIZE - k]))
            },
    )
}

/// Applies the gains to the bins, keeping the spectrum that of a real signal.
pub fn gate_bins(re: &[Single], im: &[Single], gain: &[Single]) -> (r: (Vec<Single>, Vec<Single>))
    requires
        re@.len() == FFT_SIZE,
        im@.len() == FFT_SIZE,
        gain@.len() == BINS,
    ensures
        r.0@ == gated_re(re@, gain@),
        r.1@ == gated_im(im@, gain@),
{
    let mut a: Vec<Single> = Vec::new();
    let mut b: Vec<Single> = Vec::new();
    for k in 0..FFT_SIZE
        invariant
            re@.len() == FFT_SIZE,
            im@.len() == FFT_SIZE,
            gain@.len() == BINS,
            a@ == gated_re(re@, gain@).take(k as int),
            b@ == gated_im(im@, gain@).take(k as int),
    {
        if k < BINS {
            a.push(re[k].times(gain[k]));
            b.push(im[k].times(gain[k]));
        } else {
            let m: usize = FFT_SIZE - k;
            a.push(re[m].times(gain[m]));
            b.push(im[m].times(gain[m]).negate());
        }
        assert(a@ =~= gated_re(re@, gain@).take(k as int + 1));
        assert(b@ =~= gated_im(im@, gain@).take(k as int + 1));
    }
    assert(a@ =~= gated_re(re@, gain@));
    assert(b@ =~= gated_im(im@, gain@));
    (a, b)
}

/// What a transform adds to sample `n` of its frame: the real part over the size of the
/// transform, weighted again.
pub open spec fn frame_share(re: Seq<Single>, weight: Seq<Single>, n: int) -> Single {
    single::product(
        single::product(re[n], single::quotient(single::whole(1), single::whole(2048))),
        weight[n],
    )
}

/// The output with the result of the transform at `pos` added.
pub open spec fn overlapped(
    out: Seq<Single>,
    pos: int,
    re: Seq<Single>,
    weight: Seq<Single>,
) -> Seq<Single> {
    Seq::new(
        out.len(),
        |i: int|
            if pos <= i < pos + FFT_SIZE {
                single::sum(out[i], frame_share(re, weight, i - pos))
            } else {
                out[i]
            },
    )
}

/// Adds the result of the transform at `pos` to the output.
pub fn overlap_add(out: &mut Vec<Single>, pos: usize, re: &[Single], weight: &[Single])
    requires
        re@.len() == FFT_SIZE,
        weight@.len() == FFT_SIZE,
        pos + FFT_SIZE <= old(out)@.len(),
    ensures
        final(out)@ == overlapped(old(out)@, pos as int, re@, weight@),
{
    let ghost start: Seq<Single> = out@;
    let len: usize = out.len();
    let norm: Single = Single::from_i32(1).over(Single::from_i32(2048));
    for n in 0..FFT_SIZE
        invariant
            re@.len() == FFT_SIZE,
            weight@.len() == FFT_SIZE,
            out@.len() == start.len(),
            len == start.len(),
            pos + FFT_SIZE <= len,
            norm == single::quotient(single::whole(1), single::whole(2048)),
            forall|i: int|
                0 <= i < start.len() ==> out@[i] == (if pos <= i < pos + n {
                    single::sum(start[i], frame_share(re@, weight@, i - pos))
                } else {
                    start[i]
                }),
    {
        let v: Single = out[pos + n].plus(re[n].times(norm).times(weight[n]));
        out.set(pos + n, v);
    }
    assert(out@ =~= overlapped(start, pos as int, re@, weight@));
}

/// Two thirds of every sample.
pub open spec fn made_up(x: Seq<Single>) -> Seq<Single> {
    Seq::new(x.len(), |i: int| single::product(x[i], single::ratio(2, 3)))
}

/// Makes up for the overlap of the windows: two thirds of every sample.
pub fn make_up(x: &[Single]) -> (r: Vec<Single>)
    ensures
        r@ == made_up(x@),
{
    let comp: Single = Single::of_ratio(2, 3);
    let mut r: Vec<Single> = Vec::new();
    for i in 0..x.len()
        invariant
            comp == single::ratio(2, 3),
            r@ == Seq::new(i as nat, |k: int| single::product(x@[k], single::ratio(2, 3))),
    {
        r.push(x[i].times(comp));
        assert(r@ =~= Seq::new((i + 1) as nat, |k: int| single::product(x@[k], single::ratio(2, 3))));
    }
    assert(r@ =~= made_up(x@));
    r
}

// ---------------------------------------------------------------------------
// Dry and wet
// ---------------------------------------------------------------------------

/// `dry` and `wet` mixed: `dry * (1 - mix) + wet * mix`.
pub open spec fn mixed(dry: Single, wet: Single, mix: Single) -> Single {
    single::sum(
        single::product(dry, single::difference(single::whole(1), mix)),
        single::product(wet, mix),
    )
}

/// A mix held between 0 and 1.
pub open spec fn held_mix(mix: Single) -> Single {
    single::clamped(mix, single::whole(0), single::whole(1))
}

// ---------------------------------------------------------------------------
// nnnoiseless
// ---------------------------------------------------------------------------

/// The settings of the denoiser.
#[derive(Clone, Copy, Debug)]
pub struct NnnoiseParams {
    /// 0 is the input alone, 1 the denoised signal alone.
    pub mix: Single,
}

impl NnnoiseParams {
    /// The settings that a take starts with.
    pub open spec fn initial() -> NnnoiseParams {
        NnnoiseParams { mix: single::ratio(75, 100) }
    }
}

impl Default for NnnoiseParams {
    fn default() -> (r: Self)
        ensures
            r == NnnoiseParams::initial(),
    {
        NnnoiseParams { mix: Single::of_ratio(75, 100) }
    }
}

/// A sample in the range of 16-bit samples.
pub open spec fn scaled_up(x: Single) -> Single {
    single::clamped(
        single::product(x, single::whole(32768)),
        single::whole(-32768),
        single::whole(32767),
    )
}

/// Frame `f` of `size` samples, scaled up; zeros behind the end of the signal.
pub open spec fn denoise_frame(x: Seq<Single>, size: nat, f: int) -> Seq<Single> {
    Seq::new(
        size,
        |n: int|
            if f * size + n < x.len() {
                scaled_up(x[f * size + n])
            } else {
                single::whole(0)
            },
    )
}

/// The frames that the whole signal takes.
pub open spec fn frame_count(len: nat, size: nat) -> nat {
    if len % size == 0 {
        len / size
    } else {
        len / size + 1
    }
}

/// One frame for the denoiser.
pub fn frame_for_denoiser(x: &[Single], size: usize, f: usize) -> (r: Vec<Single>)
    requires
        size > 0,
        f < frame_count(x@.len(), size as nat),
    ensures
        r@ == denoise_frame(x@, size as nat, f as int),
{
    let len: usize = x.len();
    assert(f <= len / size);
    assert(0 <= f * size <= len) by (nonlinear_arith)
        requires
            size > 0,
            0 <= f <= len as int / size as int,
    ;
    let from: usize = f * size;
    let up: Single = Single::from_i32(32768);
    let lo: Single = Single::from_i32(-32768);
    let hi: Single = Single::from_i32(32767);
    let mut r: Vec<Single> = Vec::new();
    for n in 0..size
        invariant
            len == x@.len(),
            from == f * size,
            from <= len,
            up == single::whole(32768),
            lo == single::whole(-32768),
            hi == single::whole(32767),
            r@ == denoise_frame(x@, size as nat, f as int).take(n as int),
    {
        if n < len - from {
            r.push(x[from + n].times(up).clamp(lo, hi));
        } else {
            r.push(Single::from_i32(0));
        }
        assert(r@ =~= denoise_frame(x@, size as nat, f as int).take(n as int + 1));
    }
    assert(r@ =~= denoise_frame(x@, size as nat, f as int));
    r
}

/// How many frames the whole signal takes.
pub fn denoiser_frames(len: usize, size: usize) -> (n: usize)
    requires
        size > 0,
    ensures
        n == frame_count(len as nat, size as nat),
{
    let whole: usize = len / size;
    if len % size == 0 {
        whole
    } else {
        proof {
            assert(whole < usize::MAX) by (nonlinear_arith)
                requires
                    whole == len as int / size as int,
                    size > 0,
                    len <= usize::MAX,
                    len % size != 0,
            ;
        }
        whole + 1
    }
}

/// The output of the denoiser at sample `i`: scaled back, and taken `shift` samples later, which
/// is how far the denoiser lags; silence behind its end.
pub open spec fn denoised(wet: Seq<Single>, shift: int, i: int) -> Single {
    if i + shift < wet.len() {
        single::quotient(wet[i + shift], single::whole(32768))
    } else {
        single::whole(0)
    }
}

/// Mixes the input with what the denoiser made of it.
pub fn mix_denoised(dry: &[Single], wet: &[Single], shift: usize, params: &NnnoiseParams) -> (r: Vec<
    Single,
>)
    ensures
        r@ == Seq::new(
            dry@.len(),
            |i: int| mixed(dry@[i], denoised(wet@, shift as int, i), held_mix(params.mix)),
        ),
{
    let mix: Single = params.mix.clamp(Single::from_i32(0), Single::from_i32(1));
    let rest: Single = Single::from_i32(1).minus(mix);
    let down: Single = Single::from_i32(32768);
    let mut r: Vec<Single> = Vec::new();
    for i in 0..dry.len()
        invariant
            mix == held_mix(params.mix),
            rest == single::difference(single::whole(1), mix),
            down == single::whole(32768),
            r@ == Seq::new(
                i as nat,
                |k: int| mixed(dry@[k], denoised(wet@, shift as int, k), mix),
            ),
    {
        let w: Single = if shift < wet.len() && i < wet.len() - shift {
            wet[i + shift].over(down)
        } else {
            Single::from_i32(0)
        };
        r.push(dry[i].times(rest).plus(w.times(mix)));
        assert(r@ =~= Seq::new(
            (i + 1) as nat,
            |k: int| mixed(dry@[k], denoised(wet@, shift as int, k), mix),
        ));
    }
    r
}

// ---------------------------------------------------------------------------
// DeepFilterNet3
// ---------------------------------------------------------------------------

/// The settings of the dereverberation.
#[derive(Clone, Copy, Debug)]
pub struct DereverbParams {
    /// 1 is the full effect.
    pub mix: Single,
    /// 0 to 100; the most that is taken away, in dB.
    pub attenuation_limit: Single,
    /// Suppresses very noisy parts more aggressively.
    pub post_filter: bool,
}

impl Default for DereverbParams {
    fn default() -> (r: Self)
        ensures
            r == (DereverbParams {
                mix: single::ratio(8, 10),
                attenuation_limit: single::whole(30),
                post_filter: false,
            }),
    {
        DereverbParams {
            mix: Single::of_ratio(8, 10),
            attenuation_limit: Single::from_i32(30),
            post_filter: false,
        }
    }
}

/// The command line of `deep-filter`: compensate its delay, limit the attenuation, write into the
/// output directory.
pub open spec fn dereverb_cmd(p: DereverbParams) -> Seq<ArgModel> {
    let base = seq![
        args::word("-D"@),
        args::word("-a"@),
        args::word(
            fixed::fixed(
                single::clamped(p.attenuation_limit, single::whole(0), single::whole(100)),
                1,
            ),
        ),
        args::word("-o"@),
        ArgModel::Output,
        ArgModel::Input,
    ];
    if p.post_filter {
        base.push(args::word("--pf"@))
    } else {
        base
    }
}

/// The command line of `deep-filter`.
pub fn dereverb_args(p: &DereverbParams) -> (cmd: Vec<Arg>)
    ensures
        args::model(cmd@) == dereverb_cmd(*p),
{
    let limit: Single = p.attenuation_limit.clamp(Single::from_i32(0), Single::from_i32(100));
    let limit_text: String = fixed::fixed_text(limit, 1);
    let mut cmd: Vec<Arg> = args::empty();
    args::push_text(&mut cmd, "-D");
    args::push_text(&mut cmd, "-a");
    args::push_text(&mut cmd, limit_text.as_str());
    args::push_text(&mut cmd, "-o");
    args::push(&mut cmd, Arg::Output);
    args::push(&mut cmd, Arg::Input);
    if p.post_filter {
        args::push_text(&mut cmd, "--pf");
    }
    assert(args::model(cmd@) == dereverb_cmd(*p));
    cmd
}

/// Mixes the input with the dereverberated signal; where that is shorter, the input goes on
/// alone.
pub fn mix_dereverbed(dry: &[Single], wet: &[Single], params: &DereverbParams) -> (r: Vec<Single>)
    ensures
        r@ == Seq::new(
            dry@.len(),
            |i: int|
                if i < wet@.len() {
                    mixed(dry@[i], wet@[i], held_mix(params.mix))
                } else {
                    dry@[i]
                },
        ),
{
    let mix: Single = params.mix.clamp(Single::from_i32(0), Single::from_i32(1));
    let rest: Single = Single::from_i32(1).minus(mix);
    let mut r: Vec<Single> = Vec::new();
    for i in 0..dry.len()
        invariant
            mix == held_mix(params.mix),
            rest == single::difference(single::whole(1), mix),
            r@ == Seq::new(
                i as nat,
                |k: int|
                    if k < wet@.len() {
                        mixed(dry@[k], wet@[k], mix)
                    } else {
                        dry@[k]
                    },
            ),
    {
        if i < wet.len() {
            r.push(dry[i].times(rest).plus(wet[i].times(mix)));
        } else {
            r.push(dry[i]);
        }
        assert(r@ =~= Seq::new(
            (i + 1) as nat,
            |k: int|
                if k < wet@.len() {
                    mixed(dry@[k], wet@[k], mix)
                } else {
                    dry@[k]
                },
        ));
    }
    r
}

/// An integer sample of `bits` bits as a number from -1 to 1.
pub fn from_int_sample(s: i32, bits: u16) -> (r: Single)
    requires
        1 <= bits <= 32,
    ensures
        r == single::quotient(
            single::whole(s as int),
            single::whole(vstd::arithmetic::power2::pow2((bits - 1) as nat) as int),
        ),
{
    proof {
        vstd::arithmetic::power2::lemma_pow2_strictly_increases((bits - 1) as nat, 64);
        vstd::arithmetic::power2::lemma2_to64();
        vstd::bits::lemma_u64_shl_is_mul(1, (bits - 1) as u64);
    }
    let full: u64 = 1u64 << ((bits - 1) as u64);
    Single::from_i32(s).over(Single::from_u64(full))
}

/// The sum of `x[from..to]`, from left to right.
pub open spec fn sum_between(x: Seq<Single>, from: int, to: int) -> Single
    decreases to - from,
{
    if to <= from {
        single::whole(0)
    } else {
        single::sum(sum_between(x, from, to - 1), x[to - 1])
    }
}

/// Brings interleaved channels down to one by averaging them; one channel stays as it is.
pub fn downmix(x: &[Single], ch: usize) -> (r: Vec<Single>)
    requires
        ch > 0,
    ensures
        ch == 1 ==> r@ == x@,
        ch > 1 ==> r@ == Seq::new(
            x@.len() / ch as nat,
            |i: int|
                single::quotient(
                    sum_between(x@, i * ch, i * ch + ch),
                    single::whole(ch as int),
                ),
        ),
{
    let mut r: Vec<Single> = Vec::new();
    if ch == 1 {
        for i in 0..x.len()
            invariant
                r@ == x@.take(i as int),
        {
            r.push(x[i]);
            assert(x@.take(i as int + 1) == x@.take(i as int).push(x@[i as int]));
        }
        assert(x@.take(x@.len() as int) == x@);
        return r;
    }
    let len: usize = x.len();
    let frames: usize = len / ch;
    let width: Single = Single::from_u64(ch as u64);
    for i in 0..frames
        invariant
            ch > 1,
            len == x@.len(),
            frames == len as nat / ch as nat,
            width == single::whole(ch as int),
            r@ == Seq::new(
                i as nat,
                |k: int|
                    single::quotient(
                        sum_between(x@, k * ch, k * ch + ch),
                        single::whole(ch as int),
                    ),
            ),
    {
        proof {
            lemma_in_frame(i as int, ch as int, ch - 1, len as int);
        }
        let start: usize = i * ch;
        let mut sum: Single = Single::from_i32(0);
        for n in 0..ch
            invariant
                len == x@.len(),
                start + ch <= len,
                start == i * ch,
                sum == sum_between(x@, start as int, start + n),
        {
            sum = sum.plus(x[start + n]);
        }
        r.push(sum.over(width));
        assert(r@ =~= Seq::new(
            (i + 1) as nat,
            |k: int|
                single::quotient(
                    sum_between(x@, k * ch, k * ch + ch),
                    single::whole(ch as int),
                ),
        ));
    }
    r
}

// ---------------------------------------------------------------------------
// Voice equalizer
// ---------------------------------------------------------------------------

/// One band of the voice equalizer.
#[derive(Clone, Copy, PartialEq, Eq, Debug, Structural)]
pub enum BandShape {
    LowShelf,
    Peaking,
    HighShelf,
}

/// The settings of a band.
#[derive(Clone, Copy, Debug)]
pub struct Band {
    pub shape: BandShape,
    pub gain_db: Single,
    pub frequency: u32,
    /// The quality factor, in tenths; `None` stands for that of a Butterworth filter.
    pub q_tenths: Option<u32>,
}

/// The gain of a band, in halves of a dB, at a strength held between 0 and 1.
pub open spec fn band_gain(halves: int, strength: Single) -> Single {
    single::product(
        single::ratio(halves, 2),
        single::clamped(strength, single::whole(0), single::whole(1)),
    )
}

/// The bands of the voice equalizer: -3 dB below 120 Hz, -1.5 dB at 400 Hz, +2 dB at 2500 Hz,
/// +1.5 dB above 10 kHz, all scaled by the strength.
pub open spec fn bands(strength: Single) -> Seq<Band> {
    seq![
        Band {
            shape: BandShape::LowShelf,
            gain_db: band_gain(-6, strength),
            frequency: 120,
            q_tenths: None,
        },
        Band {
            shape: BandShape::Peaking,
            gain_db: band_gain(-3, strength),
            frequency: 400,
            q_tenths: Some(10),
        },
        Band {
            shape: BandShape::Peaking,
            gain_db: band_gain(4, strength),
            frequency: 2500,
            q_tenths: Some(12),
        },
        Band {
            shape: BandShape::HighShelf,
            gain_db: band_gain(3, strength),
            frequency: 10000,
            q_tenths: None,
        },
    ]
}

/// The bands of the voice equalizer at a strength.
pub fn voice_eq_bands(strength: Single) -> (r: Vec<Band>)
    ensures
        r@ == bands(strength),
{
    let s: Single = strength.clamp(Single::from_i32(0), Single::from_i32(1));
    let mut r: Vec<Band> = Vec::new();
    r.push(
        Band {
            shape: BandShape::LowShelf,
            gain_db: Single::of_ratio(-6, 2).times(s),
            frequency: 120,
            q_tenths: None,
        },
    );
    r.push(
        Band {
            shape: BandShape::Peaking,
            gain_db: Single::of_ratio(-3, 2).times(s),
            frequency: 400,
            q_tenths: Some(10),
        },
    );
    r.push(
        Band {
            shape: BandShape::Peaking,
            gain_db: Single::of_ratio(4, 2).times(s),
            frequency: 2500,
            q_tenths: Some(12),
        },
    );
    r.push(
        Band {
            shape: BandShape::HighShelf,
            gain_db: Single::of_ratio(3, 2).times(s),
            frequency: 10000,
            q_tenths: None,
        },
    );
    assert(r@ =~= bands(strength));
    r
}

// ---------------------------------------------------------------------------
// Laws
// ---------------------------------------------------------------------------

/// The percentage, held between 0 and 100, is a finite number that is not negative; `-0` passes
/// for 0.
proof fn lemma_clamped_pct(pct: Single)
    requires
        !pct.nan(),
    ensures
        ({
            let c = single::clamped(pct, single::whole(0), single::whole(100));
            c.finite() && c.value() >= 0 && c.magnitude() <= single::whole(100).magnitude()
        }),
{
    single::lemma_whole_exact(0);
    single::lemma_whole_exact(100);
    single::lemma_units_order(0, 100);
    assert(0 * vstd::arithmetic::power2::pow2(149) == 0);
    single::lemma_value_order(pct, single::whole(0));
    single::lemma_value_order(pct, single::whole(100));
    single::lemma_value_order(single::whole(100), pct);
}

/// The span of the margin is 6 dB.
proof fn lemma_span()
    ensures
        single::difference(single::whole(8), single::whole(2)) == single::whole(6),
{
    let unit: nat = vstd::arithmetic::power2::pow2(149);
    single::lemma_whole_exact(2);
    single::lemma_whole_exact(8);
    let two: Single = single::whole(2);
    let eight: Single = single::whole(8);
    vstd::arithmetic::power2::lemma_pow2_pos(149);
    assert(single::negated(two).value() == -two.value());
    assert(eight.value() + single::negated(two).value() == 6 * unit);
}

/// The percentage as a share of the span.
proof fn lemma_share(pct: Single)
    requires
        pct.finite(),
        pct.value() >= 0,
        pct.magnitude() <= single::whole(100).magnitude(),
    ensures
        ({
            let unit = vstd::arithmetic::power2::pow2(149);
            let q = single::quotient(pct, single::whole(100));
            let plain = single::rounded(false, pct.magnitude() * unit, (100 * unit) as nat);
            &&& q.finite() && q.value() >= 0 && q.magnitude() <= unit
            &&& q.magnitude() == plain.magnitude()
            &&& plain.finite()
        }),
{
    let unit: nat = vstd::arithmetic::power2::pow2(149);
    vstd::arithmetic::power2::lemma_pow2_pos(149);
    single::lemma_whole_exact(0);
    single::lemma_whole_exact(1);
    single::lemma_whole_exact(100);
    let hundred: Single = single::whole(100);
    let n: nat = pct.magnitude() * unit;
    let d: nat = hundred.magnitude();
    assert(n <= unit * d) by (nonlinear_arith)
        requires
            n == pct.magnitude() * unit,
            pct.magnitude() <= d,
    ;
    assert(0 * d == 0);
    single::lemma_rounded_between(n, d, single::whole(0), single::whole(1));
    single::lemma_rounded_rounds(true, n, d);
    single::lemma_rounded_rounds(false, n, d);
    let q: Single = single::quotient(pct, hundred);
    single::lemma_zero_magnitude(pct);
    assert(pct.negative() ==> pct.magnitude() == 0);
    assert(q.magnitude() == single::rounded(false, n, d).magnitude());
    assert(q.negative() ==> n == 0) by {
        assert(0 * unit == 0);
    }
    if q.negative() {
        single::lemma_rounded_between(0, d, single::whole(0), single::whole(0));
    }
}

/// A share of the span, in dB.
proof fn lemma_share_of_span(q: Single)
    requires
        q.finite(),
        q.value() >= 0,
        q.magnitude() <= vstd::arithmetic::power2::pow2(149),
    ensures
        ({
            let unit = vstd::arithmetic::power2::pow2(149);
            let p = single::product(q, single::whole(6));
            let plain = single::rounded(false, q.magnitude() * (6 * unit) as nat, unit);
            &&& p.finite() && p.value() >= 0 && p.magnitude() <= 6 * unit
            &&& p.magnitude() == plain.magnitude()
            &&& plain.finite()
        }),
{
    let unit: nat = vstd::arithmetic::power2::pow2(149);
    vstd::arithmetic::power2::lemma_pow2_pos(149);
    single::lemma_whole_exact(0);
    single::lemma_whole_exact(6);
    let six: Single = single::whole(6);
    let n: nat = q.magnitude() * six.magnitude();
    assert(n <= six.magnitude() * unit) by (nonlinear_arith)
        requires
            n == q.magnitude() * six.magnitude(),
            q.magnitude() <= unit,
    ;
    assert(0 * unit == 0);
    single::lemma_rounded_between(n, unit, single::whole(0), six);
    single::lemma_rounded_rounds(true, n, unit);
    single::lemma_rounded_rounds(false, n, unit);
    let p: Single = single::product(q, six);
    assert(p.magnitude() == single::rounded(false, n, unit).magnitude());
    if p.negative() {
        single::lemma_zero_magnitude(q);
        assert(n == 0) by (nonlinear_arith)
            requires
                n == q.magnitude() * six.magnitude(),
                q.magnitude() == 0,
        ;
        single::lemma_rounded_between(0, unit, single::whole(0), single::whole(0));
    }
}

/// Each of the three steps of the margin, for a percentage that is not negative.
proof fn lemma_margin(pct: Single)
    requires
        pct.finite(),
        pct.value() >= 0,
        pct.magnitude() <= single::whole(100).magnitude(),
    ensures
        ({
            let unit = vstd::arithmetic::power2::pow2(149);
            let q = single::quotient(pct, single::whole(100));
            let p = single::product(
                q,
                single::difference(single::whole(8), single::whole(2)),
            );
            let m = single::sum(single::whole(2), p);
            &&& q.finite() && q.value() >= 0 && q.magnitude() <= unit
            &&& q.magnitude() == single::rounded(
                false,
                pct.magnitude() * unit,
                (100 * unit) as nat,
            ).magnitude()
            &&& single::rounded(false, pct.magnitude() * unit, (100 * unit) as nat).finite()
            &&& p.finite() && p.value() >= 0 && p.magnitude() <= 6 * unit
            &&& single::rounded(false, q.magnitude() * (6 * unit) as nat, unit).finite()
            &&& p.magnitude() == single::rounded(
                false,
                q.magnitude() * (6 * unit) as nat,
                unit,
            ).magnitude()
            &&& m == single::rounded(false, (2 * unit + p.magnitude()) as nat, 1)
            &&& m.finite() && !m.negative() && 2 * unit <= m.magnitude() <= 8 * unit
        }),
{
    let unit: nat = vstd::arithmetic::power2::pow2(149);
    vstd::arithmetic::power2::lemma_pow2_pos(149);
    single::lemma_whole_exact(2);
    single::lemma_whole_exact(8);
    lemma_span();
    lemma_share(pct);
    let q: Single = single::quotient(pct, single::whole(100));
    lemma_share_of_span(q);
    let p: Single = single::product(q, single::whole(6));
    single::lemma_zero_magnitude(p);
    let n: nat = (2 * unit + p.magnitude()) as nat;
    assert(single::whole(2).value() + p.value() == n);
    single::lemma_rounded_between(n, 1, single::whole(2), single::whole(8));
}

/// Whatever the percentage, the margin lies between 2 and 8 dB.
pub proof fn the_margin_lies_between_2_and_8_db(safety_pct: Single)
    requires
        !safety_pct.nan(),
    ensures
        single::at_most(single::whole(2), margin_db(safety_pct)),
        single::at_most(margin_db(safety_pct), single::whole(8)),
{
    lemma_clamped_pct(safety_pct);
    lemma_margin(single::clamped(safety_pct, single::whole(0), single::whole(100)));
    single::lemma_whole_exact(2);
    single::lemma_whole_exact(8);
}

/// A higher safety percentage never makes the margin smaller.
pub proof fn a_higher_percentage_is_never_less_safe(a: Single, b: Single)
    requires
        single::at_most(a, b),
    ensures
        single::at_most(margin_db(a), margin_db(b)),
{
    let zero: Single = single::whole(0);
    let hundred: Single = single::whole(100);
    let ca: Single = single::clamped(a, zero, hundred);
    let cb: Single = single::clamped(b, zero, hundred);
    single::lemma_whole_exact(0);
    single::lemma_whole_exact(100);
    single::lemma_units_order(0, 100);
    lemma_clamped_pct(a);
    lemma_clamped_pct(b);
    lemma_margin(ca);
    lemma_margin(cb);
    assert(ca.value() <= cb.value());
    let unit: nat = vstd::arithmetic::power2::pow2(149);
    vstd::arithmetic::power2::lemma_pow2_pos(149);
    let qa: Single = single::quotient(ca, hundred);
    let qb: Single = single::quotient(cb, hundred);
    assert(ca.magnitude() * unit <= cb.magnitude() * unit) by (nonlinear_arith)
        requires
            ca.magnitude() <= cb.magnitude(),
    ;
    let d1: nat = (100 * unit) as nat;
    single::lemma_rounded_monotone(ca.magnitude() * unit, cb.magnitude() * unit, d1);
    let six: nat = (6 * unit) as nat;
    assert(qa.magnitude() * six <= qb.magnitude() * six) by (nonlinear_arith)
        requires
            qa.magnitude() <= qb.magnitude(),
    ;
    single::lemma_rounded_monotone(qa.magnitude() * six, qb.magnitude() * six, unit);
    let span: Single = single::difference(single::whole(8), single::whole(2));
    let pa: Single = single::product(qa, span);
    let pb: Single = single::product(qb, span);
    single::lemma_rounded_monotone(
        (2 * unit + pa.magnitude()) as nat,
        (2 * unit + pb.magnitude()) as nat,
        1,
    );
}

/// The expander never amplifies and never turns the signal round: as long as the gains asked for
/// and the coefficients lie between 0 and 1, so does every smoothed gain.
pub proof fn the_expander_never_amplifies(
    env_db: Seq<Single>,
    target: Seq<Single>,
    threshold_db: Single,
    hold: nat,
    attack: Single,
    release: Single,
    i: int,
)
    requires
        i < target.len(),
        forall|k: int| 0 <= k < target.len() ==> single::in_unit(#[trigger] target[k]),
        single::in_unit(attack),
        single::in_unit(release),
    ensures
        single::in_unit(gain_at(env_db, target, threshold_db, hold, attack, release, i)),
    decreases i + 1,
{
    if i < 0 {
        single::lemma_whole_exact(1);
        vstd::arithmetic::power2::lemma_pow2_pos(149);
        assert(gain_at(env_db, target, threshold_db, hold, attack, release, i) == single::whole(1));
        assert(1 * vstd::arithmetic::power2::pow2(149) == vstd::arithmetic::power2::pow2(149));
    } else {
        the_expander_never_amplifies(
            env_db,
            target,
            threshold_db,
            hold,
            attack,
            release,
            i - 1,
        );
        let before: Single = gain_at(env_db, target, threshold_db, hold, attack, release, i - 1);
        let count: nat = held_for(env_db, threshold_db, hold, i);
        let wanted: Single = if 0 < count < hold {
            single::maximum(before, target[i])
        } else {
            target[i]
        };
        assert(single::in_unit(wanted));
        let coef: Single = if single::less(before, wanted) {
            attack
        } else {
            release
        };
        single::lemma_step_in_unit(before, wanted, coef);
        assert(gain_at(env_db, target, threshold_db, hold, attack, release, i) == single::sum(
            wanted,
            single::product(coef, single::difference(before, wanted)),
        ));
    }
}

/// A gain between 0 and 1 makes no sample louder.
pub proof fn no_sample_gets_louder(x: Single, gain: Single)
    requires
        x.finite(),
        single::in_unit(gain),
    ensures
        single::product(x, gain).finite(),
        single::product(x, gain).magnitude() <= x.magnitude(),
{
    let unit: nat = vstd::arithmetic::power2::pow2(149);
    vstd::arithmetic::power2::lemma_pow2_pos(149);
    single::lemma_whole_exact(0);
    assert(0 * unit == 0);
    single::lemma_zero_magnitude(gain);
    let n: nat = x.magnitude() * gain.magnitude();
    assert(n <= x.magnitude() * unit) by (nonlinear_arith)
        requires
            n == x.magnitude() * gain.magnitude(),
            gain.magnitude() <= unit,
    ;
    single::lemma_rounded_between(n, unit, single::whole(0), x);
    single::lemma_rounded_rounds(true, n, unit);
    single::lemma_rounded_rounds(false, n, unit);
}

/// The reduction is capped: where no gain below `floor` is asked for, none is reached, as long as
/// the coefficient of the attack is at most `1 - 2^-22`. Closer to 1 a step up can lose to its
/// own rounding.
pub proof fn the_reduction_is_capped(
    env_db: Seq<Single>,
    target: Seq<Single>,
    threshold_db: Single,
    hold: nat,
    attack: Single,
    release: Single,
    floor: Single,
    i: int,
)
    requires
        i < target.len(),
        single::in_unit(floor),
        forall|k: int|
            0 <= k < target.len() ==> single::in_unit(#[trigger] target[k]) && single::at_most(
                floor,
                target[k],
            ),
        single::in_unit(attack),
        attack.magnitude() <= 0x3f_ffff * vstd::arithmetic::power2::pow2(127),
        single::in_unit(release),
    ensures
        single::at_most(
            floor,
            gain_at(env_db, target, threshold_db, hold, attack, release, i),
        ),
    decreases i + 1,
{
    if i < 0 {
        single::lemma_whole_exact(1);
        assert(gain_at(env_db, target, threshold_db, hold, attack, release, i) == single::whole(1));
        assert(1 * vstd::arithmetic::power2::pow2(149) == vstd::arithmetic::power2::pow2(149));
    } else {
        the_reduction_is_capped(
            env_db,
            target,
            threshold_db,
            hold,
            attack,
            release,
            floor,
            i - 1,
        );
        the_expander_never_amplifies(env_db, target, threshold_db, hold, attack, release, i - 1);
        let before: Single = gain_at(env_db, target, threshold_db, hold, attack, release, i - 1);
        let count: nat = held_for(env_db, threshold_db, hold, i);
        let wanted: Single = if 0 < count < hold {
            single::maximum(before, target[i])
        } else {
            target[i]
        };
        let coef: Single = if single::less(before, wanted) {
            attack
        } else {
            release
        };
        single::lemma_step_not_below(before, wanted, coef, floor);
        assert(gain_at(env_db, target, threshold_db, hold, attack, release, i) == single::sum(
            wanted,
            single::product(coef, single::difference(before, wanted)),
        ));
    }
}

/// While the hold lasts, what is asked for is never less than the gain already reached.
pub proof fn the_hold_keeps_the_gain_from_falling(
    env_db: Seq<Single>,
    target: Seq<Single>,
    threshold_db: Single,
    hold: nat,
    attack: Single,
    release: Single,
    i: int,
)
    requires
        0 <= i < target.len(),
        0 < held_for(env_db, threshold_db, hold, i) < hold,
        !gain_at(env_db, target, threshold_db, hold, attack, release, i - 1).nan(),
    ensures
        ({
            let before = gain_at(env_db, target, threshold_db, hold, attack, release, i - 1);
            &&& gain_at(env_db, target, threshold_db, hold, attack, release, i) == follow(
                before,
                single::maximum(before, target[i]),
                attack,
                release,
            )
            &&& single::at_most(before, single::maximum(before, target[i]))
        }),
{
}

/// The hold is counted up while the level is below the threshold, and never past its length.
pub proof fn the_hold_is_bounded(env_db: Seq<Single>, threshold_db: Single, hold: nat, i: int)
    ensures
        held_for(env_db, threshold_db, hold, i) <= hold,
    decreases i + 1,
{
    if i >= 0 {
        the_hold_is_bounded(env_db, threshold_db, hold, i - 1);
    }
}

/// The spectral gate leaves the spectrum of a real signal: each bin above the middle is the
/// mirror of one below it, with the imaginary part turned round.
pub proof fn the_gated_spectrum_is_that_of_a_real_signal(
    re: Seq<Single>,
    im: Seq<Single>,
    gain: Seq<Single>,
    k: int,
)
    requires
        0 < k < FFT_SIZE / 2,
    ensures
        gated_re(re, gain)[FFT_SIZE - k] == gated_re(re, gain)[k],
        gated_im(im, gain)[FFT_SIZE - k] == single::negated(gated_im(im, gain)[k]),
{
}

/// A level in the knee is a number, and so is the threshold above it.
proof fn lemma_knee_ends(t: Single, k: Single, env_db: Single)
    requires
        !single::at_most(t, env_db),
        single::less(single::difference(t, k), env_db),
        !k.nan(),
        k.value() > 0,
    ensures
        t.finite(),
        env_db.finite(),
        env_db.value() < t.value(),
{
    let edge: Single = single::difference(t, k);
    assert(!t.nan());
    single::lemma_value_order(t, env_db);
    single::lemma_value_order(edge, env_db);
    if t.infinite() {
        if t.negative() {
            assert(single::key(t) <= single::key(env_db));
        } else if k.finite() {
            assert(edge == t);
        }
    }
}

/// A level in the knee is no further below the threshold than the knee reaches.
#[verifier::spinoff_prover]
proof fn lemma_knee_distance(t: Single, k: Single, env_db: Single)
    requires
        t.finite(),
        env_db.finite(),
        env_db.value() < t.value(),
        !k.nan(),
        k.value() > 0,
        single::less(single::difference(t, k), env_db),
        k.infinite() ==> !single::difference(t, env_db).infinite(),
    ensures
        single::difference(t, env_db).finite(),
        !single::difference(t, env_db).negative(),
        k.finite() ==> single::difference(t, env_db).magnitude() <= k.magnitude(),
{
    let d: Single = single::difference(t, env_db);
    single::lemma_difference_not_negative(t, env_db);
    if k.finite() {
        single::lemma_difference_keeps_bounds(t, k, env_db);
        single::lemma_difference_keeps_bounds(t, env_db, k);
        single::lemma_finite_below(d, k);
    }
}

/// A gain asked for in the knee lies between the cap and no reduction, as an exponent of 10.
proof fn lemma_knee(p: ExpanderPlan, env_db: Single)
    requires
        region(p, env_db) is Knee,
        !p.knee_db.nan(),
        p.knee_db.value() > 0,
        p.max_reduction_db.finite(),
        p.max_reduction_db.negative(),
        p.floor_exponent == single::quotient(p.max_reduction_db, single::whole(20)),
        p.knee_db.infinite() ==> !single::difference(p.threshold_db, env_db).infinite(),
    ensures
        single::at_most(p.floor_exponent, region(p, env_db)->exponent),
        single::at_most(region(p, env_db)->exponent, single::whole(0)),
{
    lemma_knee_ends(p.threshold_db, p.knee_db, env_db);
    lemma_knee_distance(p.threshold_db, p.knee_db, env_db);
    lemma_part_of_reduction(
        p.max_reduction_db,
        single::difference(p.threshold_db, env_db),
        p.knee_db,
    );
}

/// The part of a reduction that a distance is of the knee.
proof fn lemma_part_of_reduction(m: Single, d: Single, k: Single)
    requires
        m.finite(),
        m.negative(),
        d.finite(),
        !d.negative(),
        !k.nan(),
        !k.negative(),
        k.value() > 0,
        k.finite() ==> d.magnitude() <= k.magnitude(),
    ensures
        ({
            let part = single::quotient(
                single::product(m, single::quotient(d, k)),
                single::whole(20),
            );
            &&& single::at_most(single::quotient(m, single::whole(20)), part)
            &&& single::at_most(part, single::whole(0))
        }),
{
    let unit: nat = vstd::arithmetic::power2::pow2(149);
    vstd::arithmetic::power2::lemma_pow2_pos(149);
    single::lemma_whole_exact(0);
    single::lemma_whole_exact(1);
    single::lemma_whole_exact(20);
    assert(0 * unit == 0);
    // The share of the knee is between 0 and 1.
    let r: Single = single::quotient(d, k);
    single::lemma_zero_magnitude(single::zero(false));
    assert(r.finite() && !r.negative() && r.magnitude() <= unit) by {
        if k.finite() {
            let n: nat = d.magnitude() * unit;
            assert(0 * k.magnitude() == 0);
            assert(n <= unit * k.magnitude()) by (nonlinear_arith)
                requires
                    n == d.magnitude() * unit,
                    d.magnitude() <= k.magnitude(),
            ;
            single::lemma_rounded_between(n, k.magnitude(), single::whole(0), single::whole(1));
        }
    }
    // That share of the reduction is no more than all of it.
    let part: Single = single::product(m, r);
    let n2: nat = m.magnitude() * r.magnitude();
    assert(n2 <= m.magnitude() * unit) by (nonlinear_arith)
        requires
            n2 == m.magnitude() * r.magnitude(),
            r.magnitude() <= unit,
    ;
    single::lemma_rounded_between(n2, unit, single::whole(0), m);
    single::lemma_rounded_rounds(true, n2, unit);
    single::lemma_rounded_rounds(false, n2, unit);
    assert(part.finite() && part.negative() && part.magnitude() <= m.magnitude());
    // Dividing keeps the order.
    let twenty: nat = single::whole(20).magnitude();
    let low: nat = part.magnitude() * unit;
    let all: nat = m.magnitude() * unit;
    assert(low <= all) by (nonlinear_arith)
        requires
            low == part.magnitude() * unit,
            all == m.magnitude() * unit,
            part.magnitude() <= m.magnitude(),
    ;
    assert(all <= m.magnitude() * twenty) by (nonlinear_arith)
        requires
            all == m.magnitude() * unit,
            twenty >= unit,
    ;
    assert(0 * twenty == 0);
    single::lemma_rounded_between(all, twenty, single::whole(0), m);
    single::lemma_rounded_monotone(low, all, twenty);
    single::lemma_rounded_rounds(true, low, twenty);
    single::lemma_rounded_rounds(false, low, twenty);
    single::lemma_rounded_rounds(true, all, twenty);
    single::lemma_rounded_rounds(false, all, twenty);
}

/// The narrowest knee is a positive number.
proof fn lemma_narrowest_knee()
    ensures
        single::ratio(1, 10).finite(),
        single::ratio(1, 10).value() > 0,
{
    let unit: nat = vstd::arithmetic::power2::pow2(149);
    single::lemma_whole_exact(1);
    single::lemma_whole_exact(10);
    rounding::lemma_pow2_monotone(4, 149);
    vstd::arithmetic::power2::lemma2_to64();
    let least: Single = Single { bits: 1 };
    assert(least.magnitude() == 1);
    let n: nat = unit * unit;
    let d: nat = (10 * unit) as nat;
    assert(1 * d <= n <= unit * d) by (nonlinear_arith)
        requires
            n == unit * unit,
            d == 10 * unit,
            unit >= 16,
    ;
    single::lemma_rounded_between(n, d, least, single::whole(1));
}

/// The cap of a profile is a reduction.
pub(crate) proof fn lemma_cap_reduces(sample_rate: u32, params: ExpanderParams, noise_floor_db: Single)
    ensures
        single::at_most(
            plan(sample_rate, params, noise_floor_db).floor_exponent,
            single::whole(0),
        ),
{
    let unit: nat = vstd::arithmetic::power2::pow2(149);
    vstd::arithmetic::power2::lemma_pow2_pos(149);
    single::lemma_whole_exact(0);
    assert(0 * unit == 0);
    single::lemma_whole_exact(20);
    single::lemma_whole_exact(params.reduction_profile.whole_db());
    let m: Single = single::whole(params.reduction_profile.whole_db());
    single::lemma_rounded_rounds(true, m.magnitude() * unit, single::whole(20).magnitude());
}

/// The gain that any level asks for is between the cap of the profile and no reduction at all:
/// in the knee its exponent lies between that of the cap and 0. What is left out is a knee without
/// end together with a distance to the threshold too large for a number.
pub proof fn no_gain_below_the_cap_is_asked_for(
    sample_rate: u32,
    params: ExpanderParams,
    noise_floor_db: Single,
    env_db: Single,
)
    requires
        ({
            let p = plan(sample_rate, params, noise_floor_db);
            p.knee_db.infinite() ==> !single::difference(p.threshold_db, env_db).infinite()
        }),
    ensures
        ({
            let p = plan(sample_rate, params, noise_floor_db);
            region(p, env_db) matches GainRegion::Knee { exponent } ==> single::at_most(
                p.floor_exponent,
                exponent,
            ) && single::at_most(exponent, single::whole(0))
        }),
{
    let p: ExpanderPlan = plan(sample_rate, params, noise_floor_db);
    lemma_narrowest_knee();
    single::lemma_whole_exact(params.reduction_profile.whole_db());
    if region(p, env_db) is Knee {
        lemma_knee(p, env_db);
    }
}

} // verus!
