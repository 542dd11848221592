//! Laws of samples and channels: scaling, averaging, mixing and measuring them.

use vstd::arithmetic::div_mod::*;
use vstd::arithmetic::power2::*;
use vstd::prelude::*;

use crate::args::ArgModel;
use crate::audio_effects;
use crate::audio_effects::{BandShape, DereverbParams, GatePlan, NnnoiseParams, SpectralGateParams};
use crate::exact;
use crate::fixed;
use crate::signal_laws;
use crate::single;
use crate::single::Single;

verus! {

// ---------------------------------------------------------------------------
// Frames for the denoiser
// ---------------------------------------------------------------------------

/// There is a frame exactly where it holds a sample.
pub proof fn a_frame_holds_a_sample(len: nat, size: nat, f: nat)
    requires
        size > 0,
    ensures
        f < audio_effects::frame_count(len, size) <==> f * size < len,
{
    lemma_fundamental_div_mod(len as int, size as int);
    lemma_mod_bound(len as int, size as int);
    let q: nat = len / size;
    if f < q {
        assert(f * size + size <= size * q) by (nonlinear_arith)
            requires
                f + 1 <= q,
        ;
    } else if f == q {
        assert(f * size == size * q) by (nonlinear_arith)
            requires
                f == q,
        ;
    } else {
        assert(f * size >= size * q + size) by (nonlinear_arith)
            requires
                f >= q + 1,
        ;
    }
}

/// Every sample goes to one place of one frame; behind the last one the frames are filled up with
/// silence.
pub proof fn every_sample_has_its_place_in_a_frame(x: Seq<Single>, size: nat, f: nat, n: nat)
    requires
        n < size,
    ensures
        audio_effects::denoise_frame(x, size, f as int).len() == size,
        f * size + n < x.len() ==> audio_effects::denoise_frame(x, size, f as int)[n as int]
            == audio_effects::scaled_up(x[f * size + n as int]),
        f * size + n >= x.len() ==> audio_effects::denoise_frame(x, size, f as int)[n as int]
            == single::whole(0),
{
}

/// Samples are scaled to 16 bits without loss, and held within their range.
pub proof fn samples_are_scaled_to_16_bits(x: Single)
    requires
        x.finite(),
    ensures
        ({
            let y = audio_effects::scaled_up(x);
            &&& y.finite()
            &&& -32768 * pow2(149) <= y.value() <= 32767 * pow2(149)
            &&& -32768 * pow2(149) <= 32768 * x.value() <= 32767 * pow2(149) ==> y.value() == 32768
                * x.value()
            &&& 32768 * x.value() > 32767 * pow2(149) ==> y == single::whole(32767)
            &&& 32768 * x.value() < -32768 * pow2(149) ==> y == single::whole(-32768)
        }),
{
    single::lemma_whole_exact(32767);
    single::lemma_whole_exact(-32768);
    single::lemma_units_order(-32768, 32767);
    assert(pow2(15) == 32768) by {
        lemma2_to64();
    }
    let p: Single = single::product(x, single::whole(32768));
    if x.magnitude() * pow2(15) < single::overflow_bound() {
        exact::lemma_times_power(x, 15);
        assert(x.value() * 32768 == 32768 * x.value());
    } else {
        lemma_pow2_pos(149);
        exact::lemma_whole_magnitude(32768);
        let n: nat = x.magnitude() * (32768 * pow2(149));
        single::lemma_rounded_rounds(x.negative(), n, pow2(149));
        lemma_huge(x.magnitude());
        exact::lemma_unit_is_large();
        single::lemma_finite_magnitude(x);
        lemma_pow2_strictly_increases(200, 277);
        assert(p.infinite());
        assert(p.magnitude() == pow2(277)) by {
            if p.negative() {
                single::lemma_zero_magnitude(p);
                assert(p == single::infinity(true));
            } else {
                assert(p == single::infinity(false));
            }
        }
        assert(pow2(277) > 32768 * pow2(149));
    }
}

proof fn lemma_huge(m: nat)
    requires
        m * pow2(15) >= single::overflow_bound(),
    ensures
        crate::rounding::nearest(m * (32768 * pow2(149)), pow2(149), 24) >= single::overflow_bound(),
        32768 * m > 32768 * pow2(149),
{
    let u: nat = pow2(149);
    lemma_pow2_pos(149);
    assert(pow2(15) == 32768 && pow2(24) == 0x100_0000) by {
        lemma2_to64();
    }
    assert(m * 32768 == 32768 * m);
    let b: nat = pow2(277);
    let n: nat = m * (32768 * u);
    assert(b * u <= n) by (nonlinear_arith)
        requires
            n == m * (32768 * u),
            m * 32768 >= b,
    ;
    crate::rounding::lemma_nearest_monotone(b * u, n, u, 24);
    crate::rounding::lemma_nearest_keeps(1, 277, u, 24);
    assert(1 * b == b);
    lemma_pow2_adds(128, 149);
    assert(pow2(128) >= 0x1_0000_0000) by {
        lemma2_to64();
        crate::rounding::lemma_pow2_monotone(32, 128);
    }
    assert(b >= 0x1_0000_0000 * u) by (nonlinear_arith)
        requires
            b == pow2(128) * u,
            pow2(128) >= 0x1_0000_0000,
    ;
}

/// What comes back from the denoiser is scaled back, earlier by the delay of the denoiser, and
/// silent where nothing came back.
pub proof fn the_delay_of_the_denoiser_is_taken_out(wet: Seq<Single>, v: Seq<int>, shift: nat, i: nat)
    requires
        wet.len() == v.len(),
        forall|k: int| 0 <= k < v.len() ==> #[trigger] wet[k] == single::whole(v[k]),
        forall|k: int| 0 <= k < v.len() ==> -32768 <= #[trigger] v[k] <= 32768,
    ensures
        i + shift < wet.len() ==> audio_effects::denoised(wet, shift as int, i as int).finite()
            && 32768 * audio_effects::denoised(wet, shift as int, i as int).value() == v[i
            + shift as int] * pow2(149),
        i + shift >= wet.len() ==> audio_effects::denoised(wet, shift as int, i as int)
            == single::whole(0),
{
    if i + shift < wet.len() {
        let k: int = i + shift as int;
        lemma_over_32768(v[k]);
    }
}

proof fn lemma_over_32768(s: int)
    requires
        -0x100_0000 < s < 0x100_0000,
    ensures
        single::quotient(single::whole(s), single::whole(32768)).finite(),
        32768 * single::quotient(single::whole(s), single::whole(32768)).value() == s * pow2(149),
{
    assert(pow2(15) == 32768) by {
        lemma2_to64();
    }
    exact::lemma_whole_power(15);
    exact::lemma_whole_magnitude(s);
    single::lemma_whole_exact(s);
    let a: nat = if s < 0 {
        (-s) as nat
    } else {
        s as nat
    };
    assert(single::whole(s).magnitude() == exact::scaled(a, 149));
    exact::lemma_over_power(single::whole(s), 15, 149, a);
}

/// The denoiser at a mix of 0 changes nothing; at a mix of 1 only what came back is heard; mixes
/// beyond are held there.
pub proof fn the_denoiser_is_mixed_in(
    dry: &[Single],
    wet: &[Single],
    shift: usize,
    params: &NnnoiseParams,
    r: Vec<Single>,
    i: int,
)
    requires
        call_ensures(audio_effects::mix_denoised, (dry, wet, shift, params), r),
        0 <= i < dry@.len(),
        dry@[i].finite(),
        i + shift < wet@.len(),
        single::quotient(wet@[i + shift], single::whole(32768)).finite(),
        !params.mix.nan(),
    ensures
        r@.len() == dry@.len(),
        single::at_most(params.mix, single::whole(0)) ==> r@[i].value() == dry@[i].value(),
        single::at_most(single::whole(1), params.mix) ==> r@[i].value() == single::quotient(
            wet@[i + shift],
            single::whole(32768),
        ).value(),
        single::in_unit(params.mix) ==> r@[i] == audio_effects::mixed(
            dry@[i],
            single::quotient(wet@[i + shift], single::whole(32768)),
            params.mix,
        ),
{
    let w: Single = single::quotient(wet@[i + shift], single::whole(32768));
    lemma_held_mix(params.mix);
    lemma_ends_of_the_mix(dry@[i], w, params.mix);
}

proof fn lemma_ends_of_the_mix(dry: Single, wet: Single, mix: Single)
    requires
        dry.finite(),
        wet.finite(),
        !mix.nan(),
    ensures
        single::at_most(mix, single::whole(0)) ==> audio_effects::mixed(
            dry,
            wet,
            audio_effects::held_mix(mix),
        ).value() == dry.value(),
        single::at_most(single::whole(1), mix) ==> audio_effects::mixed(
            dry,
            wet,
            audio_effects::held_mix(mix),
        ).value() == wet.value(),
{
    lemma_held_mix(mix);
    exact::lemma_whole_zero();
    single::lemma_whole_exact(0);
    single::lemma_whole_exact(1);
    lemma_pow2_pos(149);
    assert(1 * pow2(149) == pow2(149));
    assert(0 * pow2(149) == 0);
    signal_laws::the_mix_goes_from_dry_to_wet(dry, wet, single::whole(0));
    if single::at_most(mix, single::whole(0)) {
        if mix.value() == 0 {
            // a zero of either sign
            single::lemma_zero_magnitude(mix);
            if mix.negative() {
                lemma_mix_with_negative_zero(dry, wet);
                assert(mix == single::zero(true));
            } else {
                assert(mix == single::zero(false));
            }
        }
    }
    if single::at_most(single::whole(1), mix) {
        if mix.value() == pow2(149) {
            single::lemma_same_magnitude(mix, single::whole(1));
        }
    }
}

proof fn lemma_mix_with_negative_zero(dry: Single, wet: Single)
    requires
        dry.finite(),
        wet.finite(),
    ensures
        audio_effects::mixed(dry, wet, single::zero(true)).value() == dry.value(),
{
    let z: Single = single::zero(true);
    exact::lemma_whole_zero();
    exact::lemma_whole_magnitude(1);
    single::lemma_zero_magnitude(z);
    exact::lemma_plus_zero(single::whole(1), single::zero(false));
    single::lemma_whole_exact(1);
    lemma_pow2_pos(149);
    assert(1 * pow2(149) == pow2(149));
    assert(single::negated(z) == single::zero(false));
    exact::lemma_times_one(dry);
    single::lemma_zero_product(wet, z);
    single::lemma_zero_magnitude(single::product(wet, z));
    exact::lemma_plus_zero(dry, single::product(wet, z));
}

/// A mix is held between 0 and 1.
pub proof fn lemma_held_mix(mix: Single)
    requires
        !mix.nan(),
    ensures
        single::in_unit(audio_effects::held_mix(mix)),
        single::in_unit(mix) ==> audio_effects::held_mix(mix) == mix,
        single::less(mix, single::whole(0)) ==> audio_effects::held_mix(mix) == single::whole(0),
        single::less(single::whole(1), mix) ==> audio_effects::held_mix(mix) == single::whole(1),
{
    single::lemma_whole_exact(0);
    single::lemma_whole_exact(1);
    lemma_pow2_pos(149);
    assert(1 * pow2(149) == pow2(149));
    assert(0 * pow2(149) == 0);
    single::lemma_finite_magnitude(single::whole(1));
    if mix.infinite() {
        single::lemma_zero_magnitude(mix);
        if mix.negative() {
            assert(mix == single::infinity(true));
        } else {
            assert(mix == single::infinity(false));
        }
        lemma_pow2_strictly_increases(149, 277);
    }
}

/// The dereverb at a mix of 0 changes nothing, at a mix of 1 it replaces the signal; where it gave
/// too few samples the signal stays as it was.
pub proof fn the_dereverb_is_mixed_in(
    dry: &[Single],
    wet: &[Single],
    params: &DereverbParams,
    r: Vec<Single>,
    i: int,
)
    requires
        call_ensures(audio_effects::mix_dereverbed, (dry, wet, params), r),
        0 <= i < dry@.len(),
        dry@[i].finite(),
        i < wet@.len() ==> wet@[i].finite(),
        !params.mix.nan(),
    ensures
        r@.len() == dry@.len(),
        i >= wet@.len() ==> r@[i] == dry@[i],
        i < wet@.len() && single::at_most(params.mix, single::whole(0)) ==> r@[i].value()
            == dry@[i].value(),
        i < wet@.len() && single::at_most(single::whole(1), params.mix) ==> r@[i].value()
            == wet@[i].value(),
        i < wet@.len() && single::in_unit(params.mix) ==> r@[i] == audio_effects::mixed(
            dry@[i],
            wet@[i],
            params.mix,
        ),
{
    lemma_held_mix(params.mix);
    if i < wet@.len() {
        lemma_ends_of_the_mix(dry@[i], wet@[i], params.mix);
    }
}

/// The dereverb is called with its limit, held between 0 and 100 dB, and with its post-filter
/// exactly where that is asked for.
pub proof fn the_dereverb_is_called_as_asked(p: DereverbParams, limit: int)
    requires
        -0x1000 < limit < 0x1000,
        p.attenuation_limit == single::whole(limit),
    ensures
        ({
            let c = audio_effects::dereverb_cmd(p);
            let held: int = if limit < 0 {
                0
            } else if limit > 100 {
                100
            } else {
                limit
            };
            &&& c[1] == ArgModel::Text("-a"@)
            &&& c[2] == ArgModel::Text(fixed::fixed(single::whole(held), 1))
            &&& c[3] == ArgModel::Text("-o"@)
            &&& c[4] == ArgModel::Output
            &&& c[5] == ArgModel::Input
            &&& p.post_filter ==> c.len() == 7 && c[6] == ArgModel::Text("--pf"@)
            &&& !p.post_filter ==> c.len() == 6
        }),
{
    single::lemma_whole_exact(limit);
    single::lemma_whole_exact(0);
    single::lemma_whole_exact(100);
    if limit < 0 {
        single::lemma_units_order(limit, 0);
    } else if limit > 0 {
        single::lemma_units_order(0, limit);
    }
    if limit < 100 {
        single::lemma_units_order(limit, 100);
    } else if limit > 100 {
        single::lemma_units_order(100, limit);
    }
}

// ---------------------------------------------------------------------------
// Whole samples and channels
// ---------------------------------------------------------------------------

/// A whole sample of so many bits stands for its fraction of full scale.
pub proof fn whole_samples_are_fractions_of_full_scale(s: i32, bits: u16, r: Single)
    requires
        1 <= bits <= 32,
        -0x100_0000 < s < 0x100_0000,
        call_ensures(audio_effects::from_int_sample, (s, bits), r),
    ensures
        r.finite(),
        r.value() * pow2((bits - 1) as nat) == s * pow2(149),
{
    let j: nat = (bits - 1) as nat;
    exact::lemma_whole_power(j);
    exact::lemma_whole_magnitude(s as int);
    single::lemma_whole_exact(s as int);
    let a: nat = if s < 0 {
        (-s) as nat
    } else {
        s as nat
    };
    assert(single::whole(s as int).magnitude() == exact::scaled(a, 149));
    exact::lemma_over_power(single::whole(s as int), j, 149, a);
}

/// A whole sample of any size stands for its fraction of full scale, to 24 bits.
pub proof fn large_samples_are_fractions_of_full_scale(s: i32, bits: u16, r: Single)
    requires
        1 <= bits <= 32,
        s != 0,
        call_ensures(audio_effects::from_int_sample, (s, bits), r),
    ensures
        ({
            let n: nat = (if s < 0 {
                -s
            } else {
                s as int
            }) as nat;
            let scaled = r.magnitude() * pow2((bits - 1) as nat);
            &&& r.finite()
            &&& r.negative() == (s < 0)
            &&& 0x100_0000 * scaled <= 0x100_0000 * (n * pow2(149)) + n * pow2(149)
            &&& 0x100_0000 * (n * pow2(149)) <= 0x100_0000 * scaled + n * pow2(149)
        }),
{
    let j: nat = (bits - 1) as nat;
    let n: nat = (if s < 0 {
        -s
    } else {
        s as int
    }) as nat;
    exact::lemma_whole_power(j);
    exact::lemma_whole_close(n);
    let w: Single = single::whole(s as int);
    assert(w.finite() && w.negative() == (s < 0));
    exact::lemma_magnitude_is_scaled(w);
    let (a, k) = choose|a: nat, k: nat|
        a < 0x100_0000 && w.magnitude() == #[trigger] exact::scaled(a, k);
    lemma_scale_is_large(n, a, k, w.magnitude());
    exact::lemma_over_power(w, j, k, a);
}

proof fn lemma_scale_is_large(n: nat, a: nat, k: nat, m: nat)
    requires
        n > 0,
        a < 0x100_0000,
        m == exact::scaled(a, k),
        0x100_0000 * (n * pow2(149)) <= 0x100_0000 * m + n * pow2(149),
    ensures
        k >= 31,
{
    let u: nat = pow2(149);
    exact::lemma_unit_is_large();
    let nu: nat = n * u;
    assert(nu >= u) by (nonlinear_arith)
        requires
            nu == n * u,
            n >= 1,
    ;
    assert(2 * m >= nu);
    if k < 31 {
        crate::rounding::lemma_pow2_monotone(k, 31);
        assert(pow2(31) == 0x8000_0000) by {
            lemma2_to64();
        }
        assert(m < 0x100_0000 * 0x8000_0000) by (nonlinear_arith)
            requires
                m == a * pow2(k),
                a < 0x100_0000,
                pow2(k) <= 0x8000_0000,
                pow2(k) >= 0,
        ;
    }
}

/// The sum of the values from `from` up to `to`.
pub open spec fn total(v: Seq<int>, from: int, to: int) -> int
    decreases to - from,
{
    if to <= from {
        0
    } else {
        total(v, from, to - 1) + v[to - 1]
    }
}

/// No value is larger than `b` in magnitude.
pub open spec fn bounded(v: Seq<int>, b: int) -> bool {
    forall|k: int| 0 <= k < v.len() ==> -b <= #[trigger] v[k] <= b
}

proof fn lemma_sum_between(v: Seq<int>, from: int, to: int, b: int)
    requires
        0 <= from <= to <= v.len(),
        bounded(v, b),
        0 <= b,
        (to - from) * b < 0x100_0000,
    ensures
        audio_effects::sum_between(v.map_values(|i: int| single::whole(i)), from, to)
            == single::whole(total(v, from, to)),
        -((to - from) * b) <= total(v, from, to) <= (to - from) * b,
    decreases to - from,
{
    if from < to {
        assert((to - from) * b == (to - 1 - from) * b + b) by (nonlinear_arith);
        lemma_sum_between(v, from, to - 1, b);
        assert(-b <= v[to - 1] <= b);
        assert((to - 1 - from) * b >= 0) by (nonlinear_arith)
            requires
                to - 1 - from >= 0,
                b >= 0,
        ;
        exact::lemma_whole_sum(total(v, from, to - 1), v[to - 1]);
    } else {
        assert((to - from) * b == 0) by (nonlinear_arith)
            requires
                to == from,
        ;
    }
}

/// Channels are averaged frame by frame: each frame gives its sum over the number of channels, and
/// a frame whose channels agree gives what they hold.
pub proof fn channels_are_averaged_frame_by_frame(
    x: &[Single],
    v: Seq<int>,
    ch: usize,
    b: int,
    r: Vec<Single>,
    i: nat,
)
    requires
        0 < ch < 0x1000,
        0 <= b < 0x1000,
        bounded(v, b),
        x@ == v.map_values(|k: int| single::whole(k)),
        call_ensures(audio_effects::downmix, (x, ch), r),
        i < v.len() / ch as nat,
    ensures
        r@.len() == v.len() / ch as nat,
        r@[i as int] == single::ratio(total(v, i * ch, i * ch + ch), ch as int),
        (forall|k: int| i * ch <= k < i * ch + ch ==> #[trigger] v[k] == v[i * ch]) ==> r@[i as int]
            == single::whole(v[i * ch]),
{
    let len: int = v.len() as int;
    let c: int = ch as int;
    let from: int = i * c;
    assert(x@.len() == v.len());
    lemma_fundamental_div_mod(len, c);
    lemma_mod_bound(len, c);
    assert(from + c <= len) by (nonlinear_arith)
        requires
            from == i * c,
            i + 1 <= len / c,
            len == c * (len / c) + len % c,
            len % c >= 0,
            c > 0,
    ;
    assert(from >= 0) by (nonlinear_arith)
        requires
            from == i * c,
            c > 0,
    ;
    assert(c * b < 0x100_0000) by (nonlinear_arith)
        requires
            0 < c < 0x1000,
            0 <= b < 0x1000,
    ;
    lemma_sum_between(v, from, from + c, b);
    let t: int = total(v, from, from + c);
    if ch == 1 {
        assert(len / 1 == len);
        assert(from == i as int) by (nonlinear_arith)
            requires
                from == i * c,
                c == 1,
        ;
        assert(total(v, from, from) == 0);
        assert(t == v[from]);
        assert(r@[from] == single::whole(t));
        lemma_exact_quotient(t, 1);
    }
    if forall|k: int| from <= k < from + c ==> #[trigger] v[k] == v[from] {
        lemma_same(v, from, from + c, v[from]);
        assert(-b <= v[from] <= b);
        lemma_exact_quotient(v[from], c);
    }
}

proof fn lemma_same(v: Seq<int>, from: int, to: int, w: int)
    requires
        from <= to,
        forall|k: int| from <= k < to ==> #[trigger] v[k] == w,
    ensures
        total(v, from, to) == (to - from) * w,
    decreases to - from,
{
    if from < to {
        lemma_same(v, from, to - 1, w);
        assert((to - from) * w == (to - 1 - from) * w + w) by (nonlinear_arith);
        assert(v[to - 1] == w);
    } else {
        assert((to - from) * w == 0) by (nonlinear_arith)
            requires
                to == from,
        ;
    }
}

/// So many times a number, over so many, is that number.
proof fn lemma_exact_quotient(w: int, c: int)
    requires
        0 < c < 0x1000,
        -0x1000 < w < 0x1000,
    ensures
        single::ratio(c * w, c) == single::whole(w),
{
    let u: nat = pow2(149);
    lemma_pow2_pos(149);
    assert(-0x100_0000 < c * w < 0x100_0000) by (nonlinear_arith)
        requires
            0 < c < 0x1000,
            -0x1000 < w < 0x1000,
    ;
    assert(c * w < 0 <==> w < 0) by (nonlinear_arith)
        requires
            c > 0,
    ;
    exact::lemma_whole_magnitude(c * w);
    exact::lemma_whole_magnitude(c);
    exact::lemma_whole_magnitude(w);
    assert(c * u > 0) by (nonlinear_arith)
        requires
            c > 0,
            u > 0,
    ;
    assert(((c * w) * u) * u == (w * u) * (c * u)) by (nonlinear_arith);
    assert(((-(c * w)) * u) * u == ((-w) * u) * (c * u)) by (nonlinear_arith);
    exact::lemma_quotient_held(single::whole(c * w), single::whole(c), single::whole(w));
}

/// A channel holds every frame's sample of it: the sample at `k` is in channel `k` modulo the
/// number of channels, at the place of its frame.
pub proof fn every_sample_is_in_its_channel(s: Seq<Single>, ch: nat, k: int)
    requires
        ch > 0,
        0 <= k < (s.len() / ch) * ch,
    ensures
        ({
            let c = audio_effects::channel_of(s, ch, (k % (ch as int)) as nat);
            c.len() == s.len() / ch && k / (ch as int) < c.len() && c[k / (ch as int)] == s[k]
        }),
{
    let n: int = ch as int;
    lemma_fundamental_div_mod(k, n);
    lemma_mod_bound(k, n);
    let q: int = k / n;
    assert(q * n + k % n == k) by (nonlinear_arith)
        requires
            k == n * q + k % n,
    ;
    assert(q < s.len() / ch) by (nonlinear_arith)
        requires
            k == n * q + k % n,
            k % n >= 0,
            k < ((s.len() / ch) as int) * n,
            n > 0,
    ;
    assert(q >= 0) by (nonlinear_arith)
        requires
            k == n * q + k % n,
            k >= 0,
            k % n < n,
            n > 0,
    ;
}

/// A channel that is put in place can be taken out again, and the other channels stay.
pub proof fn channels_are_put_in_place(
    out: Seq<Single>,
    ch: nat,
    c: nat,
    data: Seq<Single>,
    k: int,
)
    requires
        c < ch,
        data.len() == out.len() / ch,
        0 <= k < out.len(),
    ensures
        audio_effects::with_channel(out, ch, c, data).len() == out.len(),
        k % (ch as int) != c ==> audio_effects::with_channel(out, ch, c, data)[k] == out[k],
        k % (ch as int) == c && k / (ch as int) < data.len() ==> audio_effects::with_channel(
            out,
            ch,
            c,
            data,
        )[k] == data[k / (ch as int)],
        audio_effects::with_channel(out, ch, c, audio_effects::channel_of(out, ch, c))[k] == out[k],
{
    let n: int = ch as int;
    lemma_fundamental_div_mod(k, n);
    let q: int = k / n;
    assert(q * n + k % n == k) by (nonlinear_arith)
        requires
            k == n * q + k % n,
    ;
    lemma_mod_bound(k, n);
    assert(q >= 0) by (nonlinear_arith)
        requires
            k == n * q + k % n,
            k >= 0,
            k % n < n,
            n > 0,
    ;
}

// ---------------------------------------------------------------------------
// Peaks
// ---------------------------------------------------------------------------

/// The peak is no smaller than any sample's magnitude, and is the magnitude of one of them, or 0
/// where there are none.
pub proof fn the_peak_is_the_largest_magnitude(x: Seq<Single>)
    requires
        forall|k: int| 0 <= k < x.len() ==> !(#[trigger] x[k]).nan(),
    ensures
        !audio_effects::peak(x).nan(),
        audio_effects::peak(x).value() >= 0,
        forall|k: int|
            0 <= k < x.len() ==> (#[trigger] x[k]).magnitude() <= audio_effects::peak(x).value(),
        audio_effects::peak(x) == single::whole(0) || exists|k: int|
            0 <= k < x.len() && audio_effects::peak(x) == single::absolute(#[trigger] x[k]),
    decreases x.len(),
{
    exact::lemma_whole_zero();
    if x.len() > 0 {
        let y: Seq<Single> = x.drop_last();
        assert forall|k: int| 0 <= k < y.len() implies !(#[trigger] y[k]).nan() by {
            assert(y[k] == x[k]);
        }
        the_peak_is_the_largest_magnitude(y);
        let l: Single = x.last();
        assert(l == x[x.len() - 1]);
        let a: Single = single::absolute(l);
        assert(!a.negative() && a.magnitude() == l.magnitude());
        let p: Single = audio_effects::peak(x);
        assert forall|k: int| 0 <= k < x.len() implies (#[trigger] x[k]).magnitude() <= p.value() by {
            if k < y.len() {
                assert(y[k] == x[k]);
            }
        }
        if p != a {
            let q: Single = audio_effects::peak(y);
            assert(p == q);
            if q != single::whole(0) {
                let k: int = choose|k: int|
                    0 <= k < y.len() && q == single::absolute(#[trigger] y[k]);
                assert(x[k] == y[k]);
            }
        } else {
            assert(p == single::absolute(x[x.len() - 1]));
        }
    }
}

/// The level of a peak is 20 times its logarithm; silence has none.
pub proof fn the_level_of_a_peak(peak: Single, log10: Single, r: Single)
    requires
        call_ensures(audio_effects::peak_level, (peak, log10), r),
        !peak.nan(),
    ensures
        peak.value() > 0 ==> r == single::product(single::whole(20), log10),
        peak.value() <= 0 ==> r.infinite() && r.negative(),
{
    exact::lemma_whole_zero();
}

// ---------------------------------------------------------------------------
// Windows, margins and the equalizer
// ---------------------------------------------------------------------------

/// The window is closed at its ends, half open at the quarters, and wide open in the middle.
pub proof fn the_window_opens_in_the_middle()
    ensures
        audio_effects::hann_weight(single::whole(1)).value() == 0,
        audio_effects::hann_weight(single::whole(0)) == single::ratio(1, 2),
        audio_effects::hann_weight(single::whole(-1)) == single::whole(1),
{
    let h: Single = single::ratio(1, 2);
    lemma_half();
    exact::lemma_times_one(h);
    exact::lemma_whole_zero();
    exact::lemma_whole_magnitude(1);
    exact::lemma_whole_magnitude(-1);
    let u: nat = pow2(149);
    lemma_pow2_pos(149);
    assert(1 * u == u);
    single::lemma_zero_magnitude(h);
    single::lemma_zero_product(h, single::whole(0));
    let z: Single = single::product(h, single::whole(0));
    single::lemma_zero_magnitude(z);
    single::lemma_zero_magnitude(single::negated(z));
    exact::lemma_plus_zero(h, single::negated(z));
    let m: Single = single::product(h, single::whole(-1));
    exact::lemma_held(single::negated(h), u);
    assert(single::negated(h).magnitude() == h.magnitude());
    assert(m == single::negated(h));
    assert(single::negated(m) == h);
    exact::lemma_held(single::whole(1), 1);
    assert(single::whole(1).magnitude() * 1 == single::whole(1).magnitude());
}

proof fn lemma_half()
    ensures
        single::ratio(1, 2).finite(),
        !single::ratio(1, 2).negative(),
        2 * single::ratio(1, 2).magnitude() == pow2(149),
        single::ratio(1, 2).magnitude() > 0,
{
    let h: Single = Single { bits: 0x3F00_0000 };
    assert(0x3F00_0000nat / 0x80_0000 == 126 && 0x3F00_0000nat % 0x80_0000 == 0);
    lemma_pow2_adds(23, 125);
    lemma_pow2_unfold(149);
    lemma_pow2_pos(148);
    assert(pow2(23) == 0x80_0000) by {
        lemma2_to64();
    }
    exact::lemma_whole_magnitude(1);
    exact::lemma_whole_magnitude(2);
    let u: nat = pow2(149);
    let k: nat = pow2(148);
    assert(h.magnitude() == k);
    assert(1 * u == u);
    assert(u * u == k * (2 * u)) by (nonlinear_arith)
        requires
            u == 2 * k,
    ;
    exact::lemma_quotient_held(single::whole(1), single::whole(2), h);
}

/// The weight is half of what the cosine leaves to 1.
pub proof fn the_weight_is_half_of_the_rest(cos: Single)
    ensures
        audio_effects::hann_weight(cos) == single::difference(
            single::ratio(1, 2),
            single::product(single::ratio(1, 2), cos),
        ),
{
}

/// The places of a window run from 0 to 1 in equal steps.
pub proof fn the_places_of_a_window(len: int, n: int)
    requires
        2 <= len < 0x100_0000,
        0 <= n < len,
    ensures
        audio_effects::window_place(n, len) == single::ratio(n, len - 1),
        audio_effects::window_place(0, len).value() == 0,
        audio_effects::window_place(len - 1, len) == single::whole(1),
{
    exact::lemma_whole_zero();
    single::lemma_whole_exact(len - 1);
    single::lemma_units_order(0, len - 1);
    single::lemma_zero_magnitude(single::whole(0));
    single::lemma_zero_quotient(single::whole(0), single::whole(len - 1));
    single::lemma_zero_magnitude(audio_effects::window_place(0, len));
    let u: nat = pow2(149);
    lemma_pow2_pos(149);
    exact::lemma_whole_magnitude(len - 1);
    exact::lemma_whole_magnitude(1);
    let m: nat = single::whole(len - 1).magnitude();
    assert(m > 0);
    assert(m * u == (1 * u) * m) by (nonlinear_arith);
    exact::lemma_quotient_held(single::whole(len - 1), single::whole(len - 1), single::whole(1));
}

/// The margin grows by 6 dB from a safety of 0 to one of 100 percent, in proportion, but for the
/// roundings on the way.
pub proof fn the_margin_is_in_proportion_to_the_safety(pct: nat)
    requires
        0 < pct <= 100,
    ensures
        ({
            let m = audio_effects::margin_db(single::whole(pct as int));
            let exact = (200 + 6 * pct) * pow2(149);
            &&& m.finite() && !m.negative()
            &&& 0x100_0000 * (100 * m.magnitude()) <= 0x100_0000 * exact + 3000 * pow2(149)
            &&& 0x100_0000 * exact <= 0x100_0000 * (100 * m.magnitude()) + 3000 * pow2(149)
        }),
{
    let u: nat = pow2(149);
    exact::lemma_unit_is_large();
    single::lemma_whole_exact(0);
    single::lemma_whole_exact(100);
    single::lemma_whole_exact(pct as int);
    single::lemma_units_order(0, pct as int);
    if pct < 100 {
        single::lemma_units_order(pct as int, 100);
    }
    exact::lemma_whole_difference(8, 2);
    exact::lemma_ratio_close(pct, 100);
    let qs: Single = single::ratio(pct as int, 100);
    let q: nat = qs.magnitude();
    let pu: nat = pct * u;
    assert(u <= pu <= 100 * u) by (nonlinear_arith)
        requires
            pu == pct * u,
            1 <= pct <= 100,
    ;
    assert(q * 100 == 100 * q);
    assert(0x100_0000 <= q <= 2 * u);
    exact::lemma_whole_times_close(6, qs);
    let ps: Single = single::product(qs, single::whole(6));
    let p: nat = ps.magnitude();
    exact::lemma_whole_magnitude(2);
    let v: nat = 2 * u + p;
    assert(v * 1 == v);
    assert(p <= 13 * u);
    assert(v <= pow2(200) * 1);
    exact::lemma_rounded_close(false, v, 1);
    let m: nat = single::rounded(false, v, 1).magnitude();
    assert(m * 1 == m);
    assert((200 + 6 * pct) * u == 200 * u + 6 * pu) by (nonlinear_arith)
        requires
            pu == pct * u,
    ;
}

/// The equalizer has four bands, from low to high: it cuts the two low ones by 3 and 1.5 dB and
/// lifts the two high ones by 2 and 1.5 dB at full strength, and does nothing at strength 0.
pub proof fn the_bands_at_full_strength(k: int)
    requires
        0 <= k < 4,
    ensures
        audio_effects::bands(single::whole(1)).len() == 4,
        audio_effects::bands(single::whole(1))[k].gain_db == single::ratio(
            seq![-6int, -3, 4, 3][k],
            2,
        ),
        audio_effects::bands(single::whole(0))[k].gain_db.value() == 0,
        audio_effects::bands(single::whole(1))[k].frequency == seq![120u32, 400, 2500, 10000][k],
        audio_effects::bands(single::whole(1))[k].shape == seq![
            BandShape::LowShelf,
            BandShape::Peaking,
            BandShape::Peaking,
            BandShape::HighShelf,
        ][k],
{
    let h: int = seq![-6int, -3, 4, 3][k];
    exact::lemma_whole_zero();
    exact::lemma_whole_magnitude(1);
    single::lemma_whole_exact(1);
    single::lemma_whole_exact(0);
    lemma_pow2_pos(149);
    assert(1 * pow2(149) == pow2(149));
    lemma_held_mix(single::whole(1));
    lemma_held_mix(single::whole(0));
    let r: Single = single::ratio(h, 2);
    lemma_ratio_is_finite(h);
    exact::lemma_times_one(r);
    single::lemma_zero_magnitude(single::whole(0));
    single::lemma_zero_product(r, single::whole(0));
    single::lemma_zero_magnitude(single::product(r, single::whole(0)));
}

proof fn lemma_ratio_is_finite(h: int)
    requires
        -0x100 < h < 0x100,
        h != 0,
    ensures
        single::ratio(h, 2).finite(),
        single::ratio(h, 2).negative() == (h < 0),
{
    let a: nat = if h < 0 {
        (-h) as nat
    } else {
        h as nat
    };
    exact::lemma_ratio_close(a, 2);
    exact::lemma_whole_magnitude(h);
    exact::lemma_whole_magnitude(a as int);
    exact::lemma_whole_magnitude(2);
    lemma_pow2_pos(149);
    single::lemma_zero_magnitude(single::whole(2));
    assert(2 * pow2(149) > 0);
    let n: nat = single::whole(h).magnitude() * pow2(149);
    let d: nat = single::whole(2).magnitude();
    single::lemma_rounded_rounds(false, n, d);
    single::lemma_rounded_rounds(true, n, d);
    assert(single::whole(a as int).magnitude() == single::whole(h).magnitude());
}

/// A band's gain is its gain at full strength times the strength, held between 0 and 1.
pub proof fn the_strength_scales_every_band(strength: Single, k: int)
    requires
        0 <= k < 4,
        !strength.nan(),
    ensures
        audio_effects::bands(strength).len() == 4,
        single::in_unit(strength) ==> audio_effects::bands(strength)[k].gain_db == single::product(
            audio_effects::bands(single::whole(1))[k].gain_db,
            strength,
        ),
        single::less(single::whole(1), strength) ==> audio_effects::bands(strength)[k].gain_db
            == audio_effects::bands(single::whole(1))[k].gain_db,
        audio_effects::bands(strength)[k].frequency == audio_effects::bands(
            single::whole(1),
        )[k].frequency,
        audio_effects::bands(strength)[k].q_tenths == audio_effects::bands(
            single::whole(1),
        )[k].q_tenths,
        audio_effects::bands(strength)[k].shape == audio_effects::bands(single::whole(1))[k].shape,
{
    the_bands_at_full_strength(k);
    single::lemma_whole_exact(1);
    lemma_pow2_pos(149);
    assert(1 * pow2(149) == pow2(149));
    lemma_held_mix(single::whole(1));
    lemma_held_mix(strength);
    let h: int = seq![-6int, -3, 4, 3][k];
    assert(audio_effects::bands(strength)[k].gain_db == audio_effects::band_gain(h, strength));
    assert(audio_effects::bands(single::whole(1))[k].gain_db == audio_effects::band_gain(
        h,
        single::whole(1),
    ));
}

/// The plan of the spectral gate: its threshold as a power of ten, one less than its ratio, and its
/// two times as the share of them that lies between two transforms.
pub proof fn the_plan_of_the_spectral_gate(
    sr: u32,
    p: &SpectralGateParams,
    r: GatePlan,
    threshold: int,
    ratio: int,
)
    requires
        call_ensures(audio_effects::gate_plan, (sr, p), r),
        p.threshold_db == single::whole(threshold),
        p.ratio == single::whole(ratio),
        -0x1000 < ratio < 0x1000,
        0 < sr < 0x100_0000,
    ensures
        r.threshold_exponent == single::ratio(threshold, 20),
        ratio >= 1 ==> r.slope == single::whole(ratio - 1),
        ratio <= 1 ==> r.slope == single::whole(0),
        r.attack_exponent == single::quotient(
            single::negated(single::ratio(512, sr as int)),
            p.attack_s,
        ),
        r.release_exponent == single::quotient(
            single::negated(single::ratio(512, sr as int)),
            p.release_s,
        ),
{
    single::lemma_whole_exact(ratio);
    single::lemma_whole_exact(1);
    if ratio > 1 {
        single::lemma_units_order(1, ratio);
        exact::lemma_whole_difference(ratio, 1);
    } else {
        if ratio < 1 {
            single::lemma_units_order(ratio, 1);
        }
        exact::lemma_whole_difference(1, 1);
    }
}

} // verus!
