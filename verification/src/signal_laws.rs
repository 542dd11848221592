//! Laws of the signal processing: what holds of it whatever goes in.

use vstd::arithmetic::div_mod::*;
use vstd::arithmetic::power2::*;
use vstd::prelude::*;

use crate::audio_effects;
use crate::audio_effects::{BINS, FFT_SIZE, HOP};
use crate::exact;
use crate::level_laws;
use crate::rounding;
use crate::single;
use crate::single::Single;
use crate::spectral_gate;
use crate::spectral_gate::GateRun;

verus! {

// ---------------------------------------------------------------------------
// The transforms of the spectral gate
// ---------------------------------------------------------------------------

/// The transforms overlap by three quarters, and have a bin for each frequency up to half the
/// sample rate.
pub proof fn transforms_overlap_by_three_quarters()
    ensures
        4 * HOP == FFT_SIZE,
        2 * (BINS - 1) == FFT_SIZE,
        FFT_SIZE == 2048,
{
}

/// A transform is run exactly where it fits into the signal.
pub proof fn a_transform_runs_where_it_fits(frames: nat, t: nat)
    ensures
        t < audio_effects::transform_count(frames) <==> t * HOP + FFT_SIZE <= frames,
{
}

/// The transforms of a signal are counted by where they fit: the next one would reach past the end.
pub proof fn the_transforms_are_those_that_fit(frames: usize, n: usize, t: nat)
    requires
        call_ensures(audio_effects::transforms, (frames,), n),
    ensures
        t < n <==> t * HOP + FFT_SIZE <= frames,
        frames >= FFT_SIZE ==> n > 0 && frames - ((n - 1) * HOP + FFT_SIZE) < HOP,
        frames < FFT_SIZE ==> n == 0,
{
    a_transform_runs_where_it_fits(frames as nat, t);
}

/// What the transforms leave out at the end is shorter than the distance between two of them.
pub proof fn the_transforms_reach_to_the_end(frames: nat)
    requires
        frames >= FFT_SIZE,
    ensures
        audio_effects::transform_count(frames) > 0,
        ({
            let end = (audio_effects::transform_count(frames) - 1) * HOP + FFT_SIZE;
            end <= frames && frames - end < HOP
        }),
{
}

/// The transform `t` covers the sample `i`.
pub open spec fn covers(t: nat, i: nat) -> bool {
    t * HOP <= i < t * HOP + FFT_SIZE
}

/// Every sample before the end of the last transform is covered by one.
pub proof fn every_sample_is_covered(frames: nat, i: nat)
    requires
        frames >= FFT_SIZE,
        i < (audio_effects::transform_count(frames) - 1) * HOP + FFT_SIZE,
    ensures
        exists|t: nat| t < audio_effects::transform_count(frames) && #[trigger] covers(t, i),
{
    let n: nat = audio_effects::transform_count(frames);
    let t: nat = if i / 512 < n {
        i / 512
    } else {
        (n - 1) as nat
    };
    assert(t < n && covers(t, i));
}

// ---------------------------------------------------------------------------
// The noise floor
// ---------------------------------------------------------------------------

/// The closest single to 0.12.
proof fn lemma_twelve_percent()
    ensures
        single::ratio(12, 100).finite(),
        !single::ratio(12, 100).negative(),
        16106127 * pow2(122) <= single::ratio(12, 100).magnitude() <= 16106128 * pow2(122),
{
    let lo: Single = Single { bits: 0x3DF5_C28F };
    let hi: Single = Single { bits: 0x3DF5_C290 };
    let q: nat = pow2(122);
    let u: nat = pow2(149);
    lemma_pow2_pos(122);
    lemma_pow2_pos(149);
    lemma_pow2_adds(122, 27);
    assert(pow2(27) == 0x800_0000) by {
        lemma2_to64();
    }
    exact::lemma_whole_magnitude(12);
    exact::lemma_whole_magnitude(100);
    assert(0x3DF5_C28Fnat / 0x80_0000 == 123 && 0x3DF5_C28Fnat % 0x80_0000 == 0x75_C28F);
    assert(0x3DF5_C290nat / 0x80_0000 == 123 && 0x3DF5_C290nat % 0x80_0000 == 0x75_C290);
    assert(lo.magnitude() == 16106127 * q);
    assert(hi.magnitude() == 16106128 * q);
    single::lemma_zero_magnitude(single::whole(12));
    single::lemma_zero_magnitude(single::whole(100));
    let n: nat = single::whole(12).magnitude() * u;
    let d: nat = single::whole(100).magnitude();
    assert(n == 12 * (u * u)) by (nonlinear_arith)
        requires
            n == (12 * u) * u,
    ;
    assert((16106127 * q) * (100 * u) <= 12 * (u * u) <= (16106128 * q) * (100 * u))
        by (nonlinear_arith)
        requires
            u == q * 0x800_0000,
    ;
    single::lemma_rounded_between(n, d, lo, hi);
}

/// The noise floor is taken at the place that lies 12 percent up the sorted levels, to the nearest
/// level but for the rounding of the product.
#[verifier::spinoff_prover]
pub proof fn the_noise_floor_lies_twelve_percent_up(n: nat)
    requires
        10 <= n < 0x100_0000,
    ensures
        audio_effects::percentile_place(n) < n,
        800000 * (100 * audio_effects::percentile_place(n) - 12 * n - 50) <= n,
        800000 * (12 * n - 100 * audio_effects::percentile_place(n) - 50) <= n,
        n < 0x10_0000 ==> -51 <= 100 * audio_effects::percentile_place(n) - 12 * n <= 51,
{
    let q: nat = pow2(122);
    let u: nat = pow2(149);
    lemma_pow2_pos(122);
    lemma_pow2_pos(149);
    lemma_pow2_adds(122, 27);
    assert(pow2(27) == 0x800_0000 && pow2(24) == 0x100_0000) by {
        lemma2_to64();
    }
    lemma_twelve_percent();
    exact::lemma_whole_magnitude(n as int);
    let r: nat = single::ratio(12, 100).magnitude();
    let w: nat = single::whole(n as int).magnitude();
    let e: nat = w * r;
    let x: Single = single::product(single::whole(n as int), single::ratio(12, 100));
    let nr: nat = n * r;
    assert(e == nr * u) by (nonlinear_arith)
        requires
            e == (n * u) * r,
            nr == n * r,
    ;
    single::lemma_rounded_rounds(false, e, u);
    let m: nat = rounding::nearest(e, u, 24);
    assert(nr <= n * (16106128 * q)) by (nonlinear_arith)
        requires
            nr == n * r,
            r <= 16106128 * q,
    ;
    assert(nr >= n * (16106127 * q)) by (nonlinear_arith)
        requires
            nr == n * r,
            r >= 16106127 * q,
    ;
    let nq: nat = n * q;
    assert(n * (16106128 * q) == 16106128 * nq && n * (16106127 * q) == 16106127 * nq)
        by (nonlinear_arith)
        requires
            nq == n * q,
    ;
    assert(nq >= 10 * q) by (nonlinear_arith)
        requires
            nq == n * q,
            n >= 10,
    ;
    assert(nr >= 0x100_0000);
    assert(pow2(24) * u <= e) by (nonlinear_arith)
        requires
            e == nr * u,
            nr >= 0x100_0000,
            pow2(24) == 0x100_0000,
    ;
    rounding::lemma_nearest_close(e, u, 24);
    assert(0x100_0000 * m <= 0x100_0000 * nr + nr && 0x100_0000 * nr <= 0x100_0000 * m + nr)
        by (nonlinear_arith)
        requires
            0x100_0000 * (m * u) <= 0x100_0000 * e + e,
            0x100_0000 * e <= 0x100_0000 * (m * u) + e,
            e == nr * u,
            u > 0,
    ;
    assert(nq < 0x100_0000 * q) by (nonlinear_arith)
        requires
            nq == n * q,
            n < 0x100_0000,
            q > 0,
    ;
    assert(m < single::overflow_bound()) by {
        lemma_pow2_adds(122, 49);
        lemma_pow2_adds(25, 24);
        assert(pow2(25) == 0x200_0000) by {
            lemma2_to64();
        }
        assert(pow2(122) * pow2(49) == 0x2_0000_0000_0000 * q) by (nonlinear_arith)
            requires
                pow2(49) == 0x2_0000_0000_0000,
                q == pow2(122),
        ;
        assert(m <= 2 * nr);
        assert(m < pow2(171));
        rounding::lemma_pow2_monotone(171, 277);
    }
    assert(x.finite() && x.magnitude() == m && !x.negative());
    let p: nat = single::units_of(x);
    lemma_fundamental_div_mod((2 * m + u) as int, (2 * u) as int);
    lemma_mod_bound((2 * m + u) as int, (2 * u) as int);
    let up: nat = u * p;
    assert((2 * u) * p == 2 * up) by (nonlinear_arith)
        requires
            up == u * p,
    ;
    assert(2 * up <= 2 * m + u);
    assert(2 * m < 2 * up + u);
    // in units of q
    let pq: nat = p * q;
    assert(up == 0x800_0000 * pq) by (nonlinear_arith)
        requires
            up == u * p,
            u == q * 0x800_0000,
            pq == p * q,
    ;
    let gap: int = 100 * p - 12 * n;
    assert(gap * q == 100 * pq - 12 * nq) by (nonlinear_arith)
        requires
            gap == 100 * p - 12 * n,
            pq == p * q,
            nq == n * q,
    ;
    assert(100 * m <= 100 * nr + 97 * nq);
    assert(100 * nr <= 100 * m + 97 * nq);
    assert(100 * nr <= 1610612736 * nq + 64 * nq);
    assert(1610612736 * nq <= 100 * nr + 64 * nq);
    let gq: int = gap * q;
    assert(0x800_0000 * gq == 100 * up - 1610612736 * nq);
    assert(0x800_0000 * gq <= 50 * u + 161 * nq);
    assert(-(0x800_0000 * gq) <= 50 * u + 161 * nq);
    assert(0x800_0000 * gap <= 50 * 0x800_0000 + 161 * n) by (nonlinear_arith)
        requires
            0x800_0000 * gq <= 50 * u + 161 * nq,
            u == q * 0x800_0000,
            nq == n * q,
            gq == gap * q,
            q > 0,
    ;
    assert(-(0x800_0000 * gap) <= 50 * 0x800_0000 + 161 * n) by (nonlinear_arith)
        requires
            -(0x800_0000 * gq) <= 50 * u + 161 * nq,
            u == q * 0x800_0000,
            nq == n * q,
            gq == gap * q,
            q > 0,
    ;
    assert(p < n);
    assert(p < 0x100_0000);
    assert(audio_effects::percentile_place(n) == p);
}

/// The levels that are at most `v`.
pub open spec fn up_to(levels: Seq<Single>, v: Single) -> Seq<Single> {
    levels.filter(|l: Single| single::at_most(l, v))
}

/// The levels that are at least `v`.
pub open spec fn from_on(levels: Seq<Single>, v: Single) -> Seq<Single> {
    levels.filter(|l: Single| single::at_most(v, l))
}

proof fn lemma_counts(levels: Seq<Single>, v: Single)
    requires
        !v.nan(),
        forall|i: int| 0 <= i < levels.len() ==> !(#[trigger] levels[i]).nan(),
    ensures
        up_to(levels, v).len() == audio_effects::count_below(levels, v)
            + audio_effects::count_equal(levels, v),
        from_on(levels, v).len() + audio_effects::count_below(levels, v) == levels.len(),
    decreases levels.len(),
{
    reveal(Seq::filter);
    if levels.len() > 0 {
        let rest: Seq<Single> = levels.drop_last();
        assert forall|i: int| 0 <= i < rest.len() implies !(#[trigger] rest[i]).nan() by {
            assert(rest[i] == levels[i]);
        }
        lemma_counts(rest, v);
        assert(!levels.last().nan());
    }
}

proof fn lemma_equal_before(levels: Seq<Single>, p: int, v: Single)
    requires
        0 <= p < levels.len(),
        levels[p] == v,
    ensures
        audio_effects::count_equal(levels.take(p), v) < audio_effects::count_equal(levels, v),
    decreases levels.len(),
{
    let rest: Seq<Single> = levels.drop_last();
    if p < levels.len() - 1 {
        assert(levels.take(p) =~= rest.take(p));
        lemma_equal_before(rest, p, v);
    } else {
        assert(levels.take(p) =~= rest);
    }
}

/// At least 12 percent of the levels, but for the rounding, are no higher than the noise floor, and
/// at least 88 percent no lower.
pub proof fn the_noise_floor_splits_the_levels(levels: Seq<Single>, v: Single)
    requires
        forall|i: int| 0 <= i < levels.len() ==> !(#[trigger] levels[i]).nan(),
        levels.len() < 0x10_0000,
        audio_effects::is_noise_floor(levels, Some(v)),
    ensures
        levels.len() >= 10,
        levels.contains(v),
        100 * up_to(levels, v).len() >= 12 * levels.len() + 49,
        100 * from_on(levels, v).len() >= 88 * levels.len() - 51,
{
    let p: int = choose|p: int|
        0 <= p < levels.len() && #[trigger] levels[p] == v && audio_effects::sorted_place(levels, p)
            == audio_effects::percentile_place(levels.len());
    the_noise_floor_lies_twelve_percent_up(levels.len());
    lemma_counts(levels, v);
    lemma_equal_before(levels, p, v);
}

/// The noise floor that is found is one of the levels, with at least 12 percent of them no higher
/// and at least 88 percent no lower, but for the rounding; it takes ten levels to find one.
pub proof fn the_noise_floor_that_is_found(levels: &Vec<Single>, r: Option<Single>)
    requires
        forall|i: int| 0 <= i < levels@.len() ==> !(#[trigger] levels@[i]).nan(),
        levels@.len() < 0x10_0000,
        call_ensures(audio_effects::noise_floor, (levels,), r),
    ensures
        r is Some <==> levels@.len() >= 10,
        r matches Some(v) ==> levels@.contains(v) && 100 * up_to(levels@, v).len() >= 12
            * levels@.len() + 49 && 100 * from_on(levels@, v).len() >= 88 * levels@.len() - 51,
{
    if let Some(v) = r {
        the_noise_floor_splits_the_levels(levels@, v);
    }
}

/// There is a noise floor exactly where there are ten levels or more.
pub proof fn ten_levels_make_a_noise_floor(levels: Seq<Single>, r: Option<Single>)
    requires
        audio_effects::is_noise_floor(levels, r),
    ensures
        r is Some <==> levels.len() >= 10,
{
}

// ---------------------------------------------------------------------------
// Overlap and gains of the spectral gate
// ---------------------------------------------------------------------------

/// How many of the first `t` transforms cover the sample `i`.
pub open spec fn covering(i: nat, t: nat) -> nat
    decreases t,
{
    if t == 0 {
        0
    } else {
        covering(i, (t - 1) as nat) + if covers((t - 1) as nat, i) {
            1nat
        } else {
            0nat
        }
    }
}

proof fn lemma_covering(i: nat, t: nat)
    ensures
        ({
            let b = i / 512;
            let first: int = if b >= 3 {
                b - 3
            } else {
                0
            };
            let last: int = if t < b + 1 {
                t as int
            } else {
                b as int + 1
            };
            covering(i, t) == if last > first {
                last - first
            } else {
                0
            }
        }),
        covering(i, t) <= 4,
    decreases t,
{
    if t > 0 {
        let s: nat = (t - 1) as nat;
        lemma_covering(i, s);
        let b: nat = i / 512;
        assert(512 * b <= i < 512 * b + 512);
        assert(covers(s, i) <==> s <= b && b < s + 4);
    }
}

/// A flat window.
pub open spec fn flat(weight: Seq<Single>) -> bool {
    weight.len() == FFT_SIZE && forall|n: int|
        0 <= n < weight.len() ==> #[trigger] weight[n] == single::whole(1)
}

/// The share of 2048 in one transform is 1: the size of the transform is divided out.
proof fn lemma_unit_share(v: int)
    requires
        0 <= v <= 0x1000,
    ensures
        single::product(
            single::whole(2048 * v),
            single::quotient(single::whole(1), single::whole(2048)),
        ) == single::whole(v),
{
    let q: Single = Single { bits: 0x3A00_0000 };
    let u: nat = pow2(149);
    lemma_pow2_pos(149);
    lemma_pow2_pos(115);
    lemma_pow2_adds(23, 115);
    lemma_pow2_adds(11, 138);
    assert(pow2(23) == 0x80_0000 && pow2(11) == 2048) by {
        lemma2_to64();
    }
    assert(0x3A00_0000nat / 0x80_0000 == 116 && 0x3A00_0000nat % 0x80_0000 == 0);
    assert(q.magnitude() == pow2(138));
    exact::lemma_whole_magnitude(1);
    exact::lemma_whole_magnitude(2048);
    exact::lemma_whole_magnitude(2048 * v);
    exact::lemma_whole_magnitude(v);
    assert(1 * u == u);
    let h: nat = pow2(138);
    assert(u * u == h * (2048 * u)) by (nonlinear_arith)
        requires
            u == 2048 * h,
    ;
    exact::lemma_quotient_held(single::whole(1), single::whole(2048), q);
    assert(((2048 * v) * u) * h == (v * u) * u) by (nonlinear_arith)
        requires
            u == 2048 * h,
    ;
    exact::lemma_held(single::whole(v), u);
}

/// Under a flat window, where every transform comes back as ones, each sample comes out as the
/// number of transforms that cover it, times two thirds: every transform that fits is put back at
/// its own place, once, and nothing else is.
pub proof fn every_transform_is_put_back_in_its_place(g: GateRun, x: Seq<Single>, i: nat)
    requires
        flat(g.weight),
        forall|a: Seq<Single>, b: Seq<Single>|
            (#[trigger] (g.inverse)(a, b)) == Seq::new(
                FFT_SIZE as nat,
                |n: int| single::whole(2048),
            ),
        i < x.len(),
    ensures
        spectral_gate::gated_channel(g, x).len() == x.len(),
        spectral_gate::gated_channel(g, x)[i as int] == single::product(
            single::whole(covering(i, audio_effects::transform_count(x.len())) as int),
            single::ratio(2, 3),
        ),
        FFT_SIZE - HOP <= i && (i / 512 + 1) * HOP + (FFT_SIZE - HOP) <= x.len() ==> covering(
            i,
            audio_effects::transform_count(x.len()),
        ) == 4,
        x.len() >= FFT_SIZE && i + HOP < x.len() ==> covering(
            i,
            audio_effects::transform_count(x.len()),
        ) > 0,
{
    let n: nat = audio_effects::transform_count(x.len());
    lemma_put_back(g, x, i, n);
    lemma_covering(i, n);
}

proof fn lemma_put_back(g: GateRun, x: Seq<Single>, i: nat, t: nat)
    requires
        flat(g.weight),
        forall|a: Seq<Single>, b: Seq<Single>|
            (#[trigger] (g.inverse)(a, b)) == Seq::new(
                FFT_SIZE as nat,
                |n: int| single::whole(2048),
            ),
        i < x.len(),
    ensures
        spectral_gate::gate_state(g, x, t).1.len() == x.len(),
        spectral_gate::gate_state(g, x, t).1[i as int] == single::whole(covering(i, t) as int),
    decreases t,
{
    if t > 0 {
        let s: nat = (t - 1) as nat;
        lemma_put_back(g, x, i, s);
        lemma_covering(i, s);
        let (env, out) = spectral_gate::gate_state(g, x, s);
        let pos: int = s * HOP;
        let spectrum = (g.forward)(audio_effects::frame(x, pos, g.weight));
        let now: Seq<Single> = spectral_gate::env_after(g, env, spectrum);
        let gain: Seq<Single> = spectral_gate::gains(g, now);
        let re: Seq<Single> = (g.inverse)(
            audio_effects::gated_re(spectrum.0, gain),
            audio_effects::gated_im(spectrum.1, gain),
        );
        if covers(s, i) {
            let n: int = i - pos;
            assert(re[n] == single::whole(2048));
            assert(g.weight[n] == single::whole(1));
            lemma_unit_share(1);
            exact::lemma_whole_magnitude(1);
            exact::lemma_times_one(single::whole(1));
            exact::lemma_whole_sum(covering(i, s) as int, 1);
        }
    }
}

/// In a signal of one transform, what comes back at a place goes to that place.
pub proof fn one_transform_keeps_its_order(g: GateRun, x: Seq<Single>, v: Seq<int>, i: int)
    requires
        flat(g.weight),
        x.len() == FFT_SIZE,
        v.len() == FFT_SIZE,
        forall|a: Seq<Single>, b: Seq<Single>|
            (#[trigger] (g.inverse)(a, b)) == Seq::new(
                FFT_SIZE as nat,
                |n: int| single::whole(2048 * v[n]),
            ),
        0 <= i < FFT_SIZE,
        0 <= v[i] <= 0x1000,
    ensures
        spectral_gate::gated_channel(g, x)[i] == single::product(
            single::whole(v[i]),
            single::ratio(2, 3),
        ),
{
    reveal_with_fuel(spectral_gate::gate_state, 2);
    let (env, out) = spectral_gate::gate_state(g, x, 0);
    let spectrum = (g.forward)(audio_effects::frame(x, 0, g.weight));
    let now: Seq<Single> = spectral_gate::env_after(g, env, spectrum);
    let gain: Seq<Single> = spectral_gate::gains(g, now);
    let re: Seq<Single> = (g.inverse)(
        audio_effects::gated_re(spectrum.0, gain),
        audio_effects::gated_im(spectrum.1, gain),
    );
    assert(re[i] == single::whole(2048 * v[i]));
    assert(g.weight[i] == single::whole(1));
    assert(out[i] == single::whole(0));
    lemma_unit_share(v[i]);
    exact::lemma_whole_magnitude(v[i]);
    exact::lemma_times_one(single::whole(v[i]));
    exact::lemma_whole_sum(0, v[i]);
    assert(spectral_gate::gate_state(g, x, 1).1[i] == single::whole(v[i]));
    assert(audio_effects::transform_count(x.len()) == 1);
}

/// Under a flat window a frame holds the samples from its place on, as they are.
pub proof fn a_frame_holds_the_samples_from_its_place_on(
    x: Seq<Single>,
    pos: int,
    weight: Seq<Single>,
    n: int,
)
    requires
        flat(weight),
        0 <= n < FFT_SIZE,
        0 <= pos && pos + FFT_SIZE <= x.len(),
        x[pos + n].finite(),
    ensures
        audio_effects::frame(x, pos, weight).len() == FFT_SIZE,
        audio_effects::frame(x, pos, weight)[n] == x[pos + n],
{
    assert(weight[n] == single::whole(1));
    exact::lemma_times_one(x[pos + n]);
}

/// The power of a bin with whole parts is the sum of their squares.
pub proof fn the_power_of_a_bin(re: Seq<Single>, im: Seq<Single>, k: int, a: int, b: int)
    requires
        0 <= k < BINS,
        re.len() == FFT_SIZE,
        im.len() == FFT_SIZE,
        -0x800 < a < 0x800,
        -0x800 < b < 0x800,
        re[k] == single::whole(a),
        im[k] == single::whole(b),
    ensures
        audio_effects::powers(re, im).len() == BINS,
        audio_effects::powers(re, im)[k] == single::whole(a * a + b * b),
{
    assert(0 <= a * a <= 0x3F_F001 && 0 <= b * b <= 0x3F_F001) by (nonlinear_arith)
        requires
            -0x800 < a < 0x800,
            -0x800 < b < 0x800,
    ;
    level_laws::lemma_square_of_whole(a);
    level_laws::lemma_square_of_whole(b);
    exact::lemma_whole_sum(a * a, b * b);
}

/// The envelopes start at nothing, and with an instant attack and release each is the root of the
/// power of its own bin.
pub proof fn each_bin_has_its_own_envelope(
    g: GateRun,
    env: Seq<Single>,
    spectrum: (Seq<Single>, Seq<Single>),
    k: int,
    a: int,
    e: int,
)
    requires
        0 <= k < BINS,
        env.len() == BINS,
        0 < a < 0x80_0000,
        0 <= e < 0x80_0000,
        env[k] == single::whole(e),
        (g.root)(audio_effects::powers(spectrum.0, spectrum.1)[k]) == single::whole(a),
        g.attack == single::whole(0),
        g.release == single::whole(0),
    ensures
        spectral_gate::env_after(g, env, spectrum).len() == BINS,
        spectral_gate::env_after(g, env, spectrum)[k] == single::whole(a),
{
    exact::lemma_whole_zero();
    exact::lemma_whole_difference(e, a);
    single::lemma_whole_exact(e - a);
    single::lemma_whole_exact(a);
    single::lemma_units_order(0, a);
    assert(0 * pow2(149) == 0);
    let z: Single = single::whole(0);
    single::lemma_zero_magnitude(z);
    single::lemma_zero_product(z, single::whole(e - a));
    lemma_zero_value(single::product(z, single::whole(e - a)));
    exact::lemma_plus_zero(single::whole(a), single::product(z, single::whole(e - a)));
}

/// The larger of two numbers.
pub open spec fn larger(a: int, b: int) -> int {
    if a < b {
        b
    } else {
        a
    }
}

/// The largest of the first `t` values, 0 where there are none.
pub open spec fn largest(v: Seq<int>, t: nat) -> int
    decreases t,
{
    if t == 0 {
        0
    } else {
        larger(largest(v, (t - 1) as nat), v[t - 1])
    }
}

/// The envelope of a bin goes on from one transform to the next: with an instant attack and without
/// a release it is the largest root of the bin's power so far.
pub proof fn an_envelope_goes_on_from_transform_to_transform(
    g: GateRun,
    x: Seq<Single>,
    k: int,
    v: Seq<int>,
    t: nat,
)
    requires
        0 <= k < BINS,
        t <= v.len(),
        forall|s: int| 0 <= s < v.len() ==> 0 < #[trigger] v[s] < 0x80_0000,
        forall|s: int|
            0 <= s < v.len() ==> {
                let f = (g.forward)(audio_effects::frame(x, s * HOP, g.weight));
                (g.root)(audio_effects::powers(f.0, f.1)[k]) == single::whole(#[trigger] v[s])
            },
        g.attack == single::whole(0),
        g.release == single::whole(1),
    ensures
        spectral_gate::gate_state(g, x, t).0.len() == BINS,
        spectral_gate::gate_state(g, x, t).0[k] == single::whole(largest(v, t)),
        0 <= largest(v, t) < 0x80_0000,
    decreases t,
{
    if t > 0 {
        let s: nat = (t - 1) as nat;
        an_envelope_goes_on_from_transform_to_transform(g, x, k, v, s);
        let f = (g.forward)(audio_effects::frame(x, s * HOP, g.weight));
        let a: int = v[s as int];
        assert((g.root)(audio_effects::powers(f.0, f.1)[k]) == single::whole(a));
        let e: int = largest(v, s);
        lemma_follow_the_largest(e, a);
        let env: Seq<Single> = spectral_gate::gate_state(g, x, s).0;
        assert(spectral_gate::env_after(g, env, f)[k] == audio_effects::follow(
            env[k],
            single::whole(a),
            g.attack,
            g.release,
        ));
    }
}

proof fn lemma_follow_the_largest(e: int, a: int)
    requires
        0 <= e < 0x80_0000,
        0 < a < 0x80_0000,
    ensures
        audio_effects::follow(
            single::whole(e),
            single::whole(a),
            single::whole(0),
            single::whole(1),
        ) == single::whole(larger(e, a)),
{
    exact::lemma_whole_zero();
    exact::lemma_whole_difference(e, a);
    single::lemma_whole_exact(e - a);
    single::lemma_whole_exact(a);
    single::lemma_whole_exact(e);
    single::lemma_units_order(0, a);
    assert(0 * pow2(149) == 0);
    if e < a {
        single::lemma_units_order(e, a);
        let z: Single = single::whole(0);
        single::lemma_zero_magnitude(z);
        single::lemma_zero_product(z, single::whole(e - a));
        lemma_zero_value(single::product(z, single::whole(e - a)));
        exact::lemma_plus_zero(single::whole(a), single::product(z, single::whole(e - a)));
    } else {
        if a < e {
            single::lemma_units_order(a, e);
        }
        exact::lemma_times_one(single::whole(e - a));
        exact::lemma_whole_sum(a, e - a);
    }
}

/// A bin from the threshold on passes as it is; one below is turned down by its fraction of the
/// threshold taken to the slope, never below nothing.
pub proof fn only_bins_below_the_threshold_are_turned_down(
    g: GateRun,
    env: Seq<Single>,
    k: int,
    e: int,
    t: int,
)
    requires
        0 <= k < BINS,
        env.len() == BINS,
        0 <= e < 0x100_0000,
        0 < t < 0x100_0000,
        env[k] == single::whole(e),
        g.threshold == single::whole(t),
    ensures
        e >= t ==> spectral_gate::gains(g, env)[k] == single::whole(1),
        e < t ==> spectral_gate::gains(g, env)[k] == single::maximum(
            (g.power)(single::ratio(e, t)),
            single::whole(0),
        ),
{
    single::lemma_whole_exact(e);
    single::lemma_whole_exact(t);
    if e < t {
        single::lemma_units_order(e, t);
    } else if t < e {
        single::lemma_units_order(t, e);
    }
}

/// The gains go to the bins they were made for, and to the mirrored ones.
pub proof fn each_bin_gets_its_own_gain(
    re: Seq<Single>,
    im: Seq<Single>,
    gain: Seq<Single>,
    k: int,
)
    requires
        re.len() == FFT_SIZE,
        im.len() == FFT_SIZE,
        gain.len() == BINS,
        0 <= k < BINS,
        re[k].finite(),
        im[k].finite(),
        gain[k] == single::whole(1),
    ensures
        audio_effects::gated_re(re, gain).len() == FFT_SIZE,
        audio_effects::gated_im(im, gain).len() == FFT_SIZE,
        audio_effects::gated_re(re, gain)[k] == re[k],
        audio_effects::gated_im(im, gain)[k] == im[k],
{
    exact::lemma_times_one(re[k]);
    exact::lemma_times_one(im[k]);
}

// ---------------------------------------------------------------------------
// Mixing
// ---------------------------------------------------------------------------

/// A mix of 0 leaves the dry signal, a mix of 1 the wet one. In between the silent side adds
/// nothing: the dry signal alone counts by what the mix leaves, the wet one alone by the mix.
pub proof fn the_mix_goes_from_dry_to_wet(dry: Single, wet: Single, mix: Single)
    requires
        dry.finite(),
        wet.finite(),
        single::in_unit(mix),
    ensures
        audio_effects::mixed(dry, wet, single::whole(0)).value() == dry.value(),
        audio_effects::mixed(dry, wet, single::whole(1)).value() == wet.value(),
        audio_effects::mixed(single::whole(0), wet, mix).value() == single::product(
            wet,
            mix,
        ).value(),
        audio_effects::mixed(dry, single::whole(0), mix).value() == single::product(
            dry,
            single::difference(single::whole(1), mix),
        ).value(),
{
    exact::lemma_whole_zero();
    exact::lemma_whole_magnitude(1);
    exact::lemma_whole_difference(1, 0);
    exact::lemma_whole_difference(1, 1);
    exact::lemma_times_one(dry);
    exact::lemma_times_one(wet);
    let z: Single = single::whole(0);
    single::lemma_zero_magnitude(z);
    single::lemma_zero_product(wet, z);
    single::lemma_zero_product(dry, z);
    lemma_zero_value(single::product(wet, z));
    lemma_zero_value(single::product(dry, z));
    exact::lemma_plus_zero(dry, single::product(wet, z));
    exact::lemma_plus_zero(wet, single::product(dry, z));
    let left: Single = single::difference(single::whole(1), mix);
    lemma_difference_from_one(mix);
    single::lemma_product_bounded(wet, mix);
    single::lemma_product_bounded(dry, left);
    single::lemma_zero_product(z, mix);
    lemma_zero_value(single::product(z, mix));
    single::lemma_zero_product(z, left);
    lemma_zero_value(single::product(z, left));
    exact::lemma_plus_zero(single::product(wet, mix), single::product(z, left));
    exact::lemma_plus_zero(single::product(dry, left), single::product(z, mix));
}

proof fn lemma_zero_value(a: Single)
    requires
        single::is_zero(a),
    ensures
        a.finite(),
        a.value() == 0,
{
    single::lemma_zero_magnitude(a);
}

/// What the mix leaves to 1 is of magnitude 1 at most.
proof fn lemma_difference_from_one(mix: Single)
    requires
        single::in_unit(mix),
    ensures
        single::in_unit(single::difference(single::whole(1), mix)),
{
    exact::lemma_whole_zero();
    single::lemma_whole_exact(1);
    single::lemma_whole_exact(0);
    exact::lemma_whole_magnitude(1);
    lemma_pow2_pos(149);
    assert(1 * pow2(149) == pow2(149));
    let d: Single = single::difference(single::whole(1), mix);
    single::lemma_difference_keeps_bounds(single::whole(1), mix, single::whole(0));
    single::lemma_difference_keeps_bounds(single::whole(1), mix, single::whole(1));
    single::lemma_value_order(d, single::whole(1));
    single::lemma_value_order(single::whole(0), d);
    single::lemma_zero_magnitude(d);
    single::lemma_finite_magnitude(single::whole(1));
    if d.infinite() {
        if d.negative() {
            assert(d.value() < 0);
        } else {
            assert(d.value() > pow2(149));
        }
    }
}

} // verus!
