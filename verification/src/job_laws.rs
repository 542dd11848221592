//! Laws of the processing of one file: the stages, the normalization, the command lines and the
//! steps in between.

use vstd::arithmetic::power2::*;
use vstd::prelude::*;

use crate::args;
use crate::args::{ArgModel, Source};
use crate::audio_effects::{ExpanderParams, NnnoiseParams, SpectralGateParams};
use crate::exact;
use crate::ffmpeg;
use crate::fixed;
use crate::memory;
use crate::pipeline;
use crate::pipeline::{ActionModel, Decoding, Event, JobModel, Phase, Stage, StageWork};
use crate::processing;
use crate::processing::NormDecision;
use crate::single;
use crate::single::Single;
use crate::text;
use crate::text_laws;
use crate::types::{LoudnormStats, NormResult, OutputFormat, ProcessingOptions};

verus! {

// ---------------------------------------------------------------------------
// The stages
// ---------------------------------------------------------------------------

/// The stage at `i` is the only one of these stages that `is_one` holds of.
pub open spec fn only_at(s: Seq<Stage>, i: int, is_one: spec_fn(Stage) -> bool) -> bool {
    &&& 0 <= i < s.len()
    &&& forall|k: int| 0 <= k < s.len() ==> (is_one(#[trigger] s[k]) <==> k == i)
}

/// None of these stages is one that `is_one` holds of.
pub open spec fn nowhere(s: Seq<Stage>, is_one: spec_fn(Stage) -> bool) -> bool {
    forall|k: int| 0 <= k < s.len() ==> !is_one(#[trigger] s[k])
}

/// The expander runs once where it is switched on, with the safety margin and the reduction that
/// were chosen, behind one estimate of the noise floor, which comes first; where it is switched
/// off, neither runs.
pub proof fn the_expander_runs_as_chosen(o: ProcessingOptions)
    ensures
        o.automixer_expander ==> exists|i: int|
            only_at(pipeline::stages(o), i, |s: Stage| s is Expand) && #[trigger] pipeline::stages(
                o,
            )[i]
                == (Stage::Expand {
                safety_pct: o.automixer_expander_safety_pct,
                reduction_profile: o.automixer_expander_reduction_profile,
            }) && only_at(pipeline::stages(o), 0, |s: Stage| s is EstimateNoiseFloor) && i > 0,
        !o.automixer_expander ==> nowhere(
            pipeline::stages(o),
            |s: Stage| s is Expand || s is EstimateNoiseFloor,
        ),
{
    let s: Seq<Stage> = pipeline::stages(o);
    if o.automixer_expander {
        let i: int = if o.automixer_dfn3_dereverb {
            2
        } else {
            1
        };
        assert(only_at(s, 0, |s: Stage| s is EstimateNoiseFloor));
        assert(only_at(s, i, |s: Stage| s is Expand) && s[i] is Expand);
    }
}

/// The dereverb runs once where it is switched on, with the mix that was chosen in percent, and
/// with the post-filter as chosen; where it is switched off, it does not run.
pub proof fn the_dereverb_runs_as_chosen(o: ProcessingOptions)
    ensures
        o.automixer_dfn3_dereverb ==> exists|i: int|
            only_at(pipeline::stages(o), i, |s: Stage| s is Dereverb)
                && #[trigger] pipeline::stages(o)[i]
                == (Stage::Dereverb {
                mix: single::quotient(o.automixer_dfn3_mix, single::whole(100)),
                attenuation_limit: single::whole(30),
                post_filter: o.automixer_dfn3_postfilter,
            }),
        !o.automixer_dfn3_dereverb ==> nowhere(pipeline::stages(o), |s: Stage| s is Dereverb),
{
    let s: Seq<Stage> = pipeline::stages(o);
    if o.automixer_dfn3_dereverb {
        let i: int = if o.automixer_expander {
            1
        } else {
            0
        };
        assert(only_at(s, i, |s: Stage| s is Dereverb) && s[i] is Dereverb);
    }
}

/// Of the spectral gate and the denoiser at most one runs, once, the spectral gate before the
/// denoiser where both are switched on; the equalizer always runs once, at half strength, last.
pub proof fn one_denoiser_and_the_equalizer(o: ProcessingOptions)
    ensures
        o.automixer_spectral_gate ==> exists|i: int|
            only_at(pipeline::stages(o), i, |s: Stage| s is SpectralGate) && #[trigger] pipeline::stages(
                o,
            )[i] is SpectralGate,
        !o.automixer_spectral_gate ==> nowhere(pipeline::stages(o), |s: Stage| s is SpectralGate),
        o.automixer_nn_dereverb && !o.automixer_spectral_gate ==> exists|i: int|
            only_at(pipeline::stages(o), i, |s: Stage| s is Denoise) && #[trigger] pipeline::stages(
                o,
            )[i] is Denoise,
        !o.automixer_nn_dereverb || o.automixer_spectral_gate ==> nowhere(
            pipeline::stages(o),
            |s: Stage| s is Denoise,
        ),
        only_at(pipeline::stages(o), pipeline::stages(o).len() - 1, |s: Stage| s is VoiceEq),
        pipeline::stages(o).last() == (Stage::VoiceEq { strength: single::ratio(1, 2) }),
{
    let s: Seq<Stage> = pipeline::stages(o);
    let n: int = s.len() - 1;
    assert(only_at(s, n, |s: Stage| s is VoiceEq));
    if o.automixer_spectral_gate {
        assert(only_at(s, n - 1, |s: Stage| s is SpectralGate) && s[n - 1] is SpectralGate);
    } else if o.automixer_nn_dereverb {
        assert(only_at(s, n - 1, |s: Stage| s is Denoise) && s[n - 1] is Denoise);
    }
}

/// The stages that are set up are those of the options, each with what was chosen for it.
pub proof fn the_stages_that_are_set_up(o: &ProcessingOptions, r: Vec<Stage>, i: int)
    requires
        call_ensures(pipeline::dsp_stages, (o,), r),
        0 <= i < r@.len(),
    ensures
        r@[i] matches Stage::Expand { safety_pct, reduction_profile } ==> o.automixer_expander
            && safety_pct == o.automixer_expander_safety_pct && reduction_profile
            == o.automixer_expander_reduction_profile,
        r@[i] matches Stage::Dereverb { mix, attenuation_limit, post_filter }
            ==> o.automixer_dfn3_dereverb && mix == single::quotient(
            o.automixer_dfn3_mix,
            single::whole(100),
        ) && attenuation_limit == single::whole(30) && post_filter == o.automixer_dfn3_postfilter,
        r@[i] is SpectralGate ==> o.automixer_spectral_gate,
        r@[i] is Denoise ==> o.automixer_nn_dereverb && !o.automixer_spectral_gate,
        r@[i] is EstimateNoiseFloor ==> o.automixer_expander && i == 0,
        r@[i] is VoiceEq <==> i == r@.len() - 1,
        r@.len() == 1 + (if o.automixer_expander {
            2int
        } else {
            0int
        }) + (if o.automixer_dfn3_dereverb {
            1int
        } else {
            0int
        }) + (if o.automixer_spectral_gate || o.automixer_nn_dereverb {
            1int
        } else {
            0int
        }),
{
}

/// The mix of the dereverb in whole percent is that share of 1.
pub proof fn the_mix_is_given_in_percent(o: ProcessingOptions, pct: nat, i: int)
    requires
        o.automixer_dfn3_mix == single::whole(pct as int),
        0 < pct < 0x100_0000,
        0 <= i < pipeline::stages(o).len(),
        pipeline::stages(o)[i] is Dereverb,
    ensures
        ({
            let m = pipeline::stages(o)[i]->mix.magnitude();
            &&& 0x100_0000 * (100 * m) <= 0x100_0000 * (pct * pow2(149)) + pct * pow2(149)
            &&& 0x100_0000 * (pct * pow2(149)) <= 0x100_0000 * (100 * m) + pct * pow2(149)
        }),
        pct == 100 ==> pipeline::stages(o)[i]->mix == single::whole(1),
{
    exact::lemma_ratio_close(pct, 100);
    let m: nat = single::ratio(pct as int, 100).magnitude();
    assert(m * 100 == 100 * m);
    assert(pipeline::stages(o)[i]->mix == single::ratio(pct as int, 100));
    if pct == 100 {
        exact::lemma_whole_magnitude(100);
        exact::lemma_whole_magnitude(1);
        lemma_pow2_pos(149);
        let u: nat = pow2(149);
        assert((100 * u) * u == (1 * u) * (100 * u)) by (nonlinear_arith);
        exact::lemma_quotient_held(single::whole(100), single::whole(100), single::whole(1));
    }
}

/// A stage runs with the settings that it was set up with. The expander takes the noise floor that
/// was found as well, and is passed over where none was; nothing else depends on it.
pub proof fn a_stage_keeps_its_settings(
    mix: Single,
    limit: Single,
    post_filter: bool,
    params: ExpanderParams,
    strength: Single,
    floor: Option<Single>,
)
    requires
        params == (ExpanderParams {
            safety_pct: params.safety_pct,
            reduction_profile: params.reduction_profile,
            ..ExpanderParams::initial()
        }),
    ensures
        pipeline::work(
            Stage::Dereverb { mix, attenuation_limit: limit, post_filter },
            floor,
        ) matches StageWork::Dereverb(p) && p.mix == mix && p.attenuation_limit == limit
            && p.post_filter == post_filter,
        ({
            let w = pipeline::work(
                Stage::Expand {
                    safety_pct: params.safety_pct,
                    reduction_profile: params.reduction_profile,
                },
                floor,
            );
            match floor {
                Some(f) => w == (StageWork::Expand { params, noise_floor_db: f }),
                None => w is PassOver,
            }
        }),
        pipeline::work(Stage::VoiceEq { strength }, floor) == (StageWork::VoiceEq { strength }),
        pipeline::work(Stage::EstimateNoiseFloor, floor) is EstimateNoiseFloor,
        pipeline::work(Stage::SpectralGate, floor) == StageWork::SpectralGate(
            SpectralGateParams::initial(),
        ),
        pipeline::work(Stage::Denoise, floor) == StageWork::Denoise(NnnoiseParams::initial()),
{
}

/// The times of the expander: it opens within 10 ms, holds for 60 ms and closes within 200 ms, with
/// a knee of 3 dB; the spectral gate opens 40 times as fast as it closes, at -45 dB.
pub proof fn the_settings_that_nobody_chooses()
    ensures
        ExpanderParams::initial().attack_ms == single::whole(10),
        ExpanderParams::initial().hold_ms == single::whole(60),
        ExpanderParams::initial().release_ms == single::whole(200),
        ExpanderParams::initial().knee_db == single::whole(3),
        SpectralGateParams::initial().threshold_db == single::whole(-45),
        SpectralGateParams::initial().ratio == single::whole(2),
        SpectralGateParams::initial().attack_s == single::ratio(2, 1000),
        SpectralGateParams::initial().release_s == single::ratio(80, 1000),
        NnnoiseParams::initial().mix == single::ratio(75, 100),
{
}

// ---------------------------------------------------------------------------
// The normalization
// ---------------------------------------------------------------------------

/// Without usable statistics the peak decides. It is normalized exactly where it was measured, is
/// finite, and takes at most 40 dB of gain to reach the target; a gain below zero, which turns the
/// file down, is as good as one above. The gain is then what lies between peak and target.
/// Otherwise the file is left alone.
pub proof fn the_peak_decides_without_statistics(
    duration: Single,
    standard: Option<&LoudnormStats>,
    peak: Option<Single>,
    target: Single,
)
    requires
        standard is Some ==> !single::at_most(single::whole(3), duration),
    ensures
        ({
            let d = processing::decision(duration, standard, None, peak, target);
            match peak {
                Some(p) if p.finite() => {
                    let gain = single::difference(target, p);
                    &&& single::at_most(gain, single::whole(40)) <==> d == (NormDecision::Peak {
                        gain_db: gain,
                    })
                    &&& !single::at_most(gain, single::whole(40)) <==> d is Skipped
                    &&& target.finite() && target.value() - p.value() <= 40 * pow2(149) ==> d is Peak
                },
                _ => d is Skipped,
            }
        }),
{
    if let Some(p) = peak {
        if p.finite() && target.finite() {
            single::lemma_whole_exact(40);
            single::lemma_difference_keeps_bounds(target, p, single::whole(40));
        }
    }
}

/// The decision that is made: without statistics to go by, the peak is brought to the target exactly
/// where the gain that takes is at most 40 dB, above or below zero.
pub proof fn the_decision_that_is_made(
    duration: Single,
    peak: Option<Single>,
    target: Single,
    r: NormDecision,
)
    requires
        call_ensures(
            processing::decide_normalization,
            (duration, None::<&LoudnormStats>, None::<&LoudnormStats>, peak, target),
            r,
        ),
    ensures
        r is Peak <==> peak is Some && peak->0.finite() && single::at_most(
            single::difference(target, peak->0),
            single::whole(40),
        ),
        r matches NormDecision::Peak { gain_db } ==> gain_db == single::difference(target, peak->0),
        r is Peak || r is Skipped,
{
}

/// In whole decibels: the gain is the target less the peak, whichever of the two is the larger, and
/// 40 dB is the most that is applied.
pub proof fn the_gain_in_whole_decibels(duration: Single, peak: int, target: int)
    requires
        -0x40_0000 < peak < 0x40_0000,
        -0x40_0000 < target < 0x40_0000,
    ensures
        processing::decision(duration, None, None, Some(single::whole(peak)), single::whole(target))
            == if target - peak <= 40 {
            NormDecision::Peak { gain_db: single::whole(target - peak) }
        } else {
            NormDecision::Skipped
        },
{
    exact::lemma_whole_difference(target, peak);
    single::lemma_whole_exact(target - peak);
    single::lemma_whole_exact(peak);
    single::lemma_whole_exact(40);
    if target - peak <= 40 {
        if target - peak < 40 {
            single::lemma_units_order(target - peak, 40);
        }
    } else {
        single::lemma_units_order(40, target - peak);
    }
}

/// Statistics that are used are used as they were measured.
pub proof fn statistics_are_used_as_measured(
    duration: Single,
    standard: Option<&LoudnormStats>,
    padded: Option<&LoudnormStats>,
    peak: Option<Single>,
    target: Single,
    secs: int,
)
    requires
        0 <= secs < 0x100_0000,
        duration == single::whole(secs),
    ensures
        standard is Some && secs >= 3 ==> processing::decision(
            duration,
            standard,
            padded,
            peak,
            target,
        ) == NormDecision::Standard(*standard->0),
        padded is Some && (standard is None || secs < 3) ==> processing::decision(
            duration,
            standard,
            padded,
            peak,
            target,
        ) == NormDecision::Padded(*padded->0),
{
    single::lemma_whole_exact(secs);
    single::lemma_whole_exact(3);
    if secs > 3 {
        single::lemma_units_order(3, secs);
    } else if secs < 3 {
        single::lemma_units_order(secs, 3);
    }
}

/// The text that an argument holds.
pub open spec fn text_of(a: ArgModel) -> Seq<char> {
    match a {
        ArgModel::Text(t) => t,
        _ => Seq::empty(),
    }
}

/// Each figure that was measured stands in the filter of the second pass behind its own name, with
/// the target in front.
pub proof fn every_measured_figure_is_handed_back(lufs: Seq<char>, stats: LoudnormStats)
    ensures
        text::contains(ffmpeg::loudnorm_apply(lufs, stats), "loudnorm=I="@ + lufs + ":"@),
        text::contains(
            ffmpeg::loudnorm_apply(lufs, stats),
            ":measured_I="@ + stats.input_i@ + ":"@,
        ),
        text::contains(
            ffmpeg::loudnorm_apply(lufs, stats),
            ":measured_LRA="@ + stats.input_lra@ + ":"@,
        ),
        text::contains(
            ffmpeg::loudnorm_apply(lufs, stats),
            ":measured_TP="@ + stats.input_tp@ + ":"@,
        ),
        text::contains(
            ffmpeg::loudnorm_apply(lufs, stats),
            ":measured_thresh="@ + stats.input_thresh@ + ":"@,
        ),
        text::contains(
            ffmpeg::loudnorm_apply(lufs, stats),
            ":offset="@ + stats.target_offset@ + ":"@,
        ),
{
    reveal_strlit(":");
    reveal_strlit(":TP=-1.5:LRA=1.0:measured_I=");
    reveal_strlit(":measured_I=");
    reveal_strlit(":measured_LRA=");
    reveal_strlit(":measured_TP=");
    reveal_strlit(":measured_thresh=");
    reveal_strlit(":offset=");
    reveal_strlit(":linear=true");
    let f: Seq<char> = ffmpeg::loudnorm_apply(lufs, stats);
    let a: Seq<char> = "loudnorm=I="@ + lufs;
    let b: Seq<char> = a + ":TP=-1.5:LRA=1.0:measured_I="@ + stats.input_i@;
    let c: Seq<char> = b + ":measured_LRA="@ + stats.input_lra@;
    let d: Seq<char> = c + ":measured_TP="@ + stats.input_tp@;
    let e: Seq<char> = d + ":measured_thresh="@ + stats.input_thresh@;
    let g: Seq<char> = e + ":offset="@ + stats.target_offset@;
    let head: Seq<char> = a + ":TP=-1.5:LRA=1.0"@;
    reveal_strlit(":TP=-1.5:LRA=1.0");
    lemma_named(Seq::empty(), "loudnorm=I="@, lufs, f);
    assert(b =~= head + ":measured_I="@ + stats.input_i@);
    lemma_named(head, ":measured_I="@, stats.input_i@, f);
    lemma_named(b, ":measured_LRA="@, stats.input_lra@, f);
    lemma_named(c, ":measured_TP="@, stats.input_tp@, f);
    lemma_named(d, ":measured_thresh="@, stats.input_thresh@, f);
    lemma_named(e, ":offset="@, stats.target_offset@, f);
}

/// A name and its value, with what stands before them and a colon behind them, are found.
proof fn lemma_named(before: Seq<char>, name: Seq<char>, value: Seq<char>, all: Seq<char>)
    requires
        ({
            let n = before + name + value;
            n.len() < all.len() && all.take(n.len() as int) =~= n && all[n.len() as int] == ':'
        }),
    ensures
        text::contains(all, name + value + ":"@),
{
    reveal_strlit(":");
    let n: Seq<char> = before + name + value;
    let needle: Seq<char> = name + value + ":"@;
    assert forall|i: int| 0 <= i < n.len() implies all[i] == n[i] by {
        assert(all.take(n.len() as int)[i] == all[i]);
    }
    assert(all.subrange(before.len() as int, before.len() as int + needle.len()) =~= needle);
    assert(text::found_at(all, needle, before.len() as int));
}

/// What a decision puts into the command line: behind the filters that come first, the second pass
/// with the statistics, the gain in decibels to four places, or nothing.
pub proof fn a_decision_reaches_the_command_line(
    d: NormDecision,
    lufs: Seq<char>,
    sr: u32,
    prefix: Option<Seq<char>>,
)
    ensures
        ({
            let a = processing::norm_args(d, lufs, sr, prefix);
            let own = match d {
                NormDecision::Standard(s) => Some(ffmpeg::loudnorm_apply(lufs, s)),
                NormDecision::Padded(s) => Some(ffmpeg::loudnorm_apply(lufs, s)),
                NormDecision::Peak { gain_db } => Some(
                    "volume="@ + fixed::fixed(gain_db, 4) + "dB"@,
                ),
                NormDecision::Skipped => None,
            };
            &&& match (prefix, own) {
                (None, None) => a.len() == 2,
                (Some(p), None) => a.len() == 4 && a[1] == ArgModel::Text(p),
                (None, Some(f)) => a.len() == 4 && a[1] == ArgModel::Text(f),
                (Some(p), Some(f)) => a.len() == 4 && a[1] == ArgModel::Text(p + ","@ + f),
            }
            &&& a.len() == 4 ==> a[0] == ArgModel::Text("-af"@)
            &&& a[a.len() - 2] == ArgModel::Text("-ar"@)
            &&& a.last() == ArgModel::Text(text::decimal(sr as nat))
        }),
        processing::norm_result(d) is Standard <==> d is Standard,
        processing::norm_result(d) is Padded <==> d is Padded,
        processing::norm_result(d) is Skipped <==> d is Skipped,
        d matches NormDecision::Peak { gain_db } ==> processing::norm_result(d) == (
        NormResult::Peak { gain_db }),
{
}

// ---------------------------------------------------------------------------
// The output format
// ---------------------------------------------------------------------------

/// Every format names its codec, and no two formats the same one.
pub proof fn every_format_names_its_codec(f: OutputFormat, g: OutputFormat, kbps: u32)
    ensures
        processing::format_args(f, kbps).len() >= 2,
        processing::format_args(f, kbps)[0] == ArgModel::Text("-c:a"@),
        f != g ==> processing::format_args(f, kbps)[1] != processing::format_args(g, kbps)[1],
{
    lemma_codecs_differ(f, g);
}

proof fn lemma_codecs_differ(f: OutputFormat, g: OutputFormat)
    ensures
        f != g ==> f.codec_text() != g.codec_text(),
{
    reveal_strlit("adpcm_ima_wav");
    reveal_strlit("pcm_s16le");
    reveal_strlit("pcm_s24le");
    reveal_strlit("flac");
    reveal_strlit("libmp3lame");
    reveal_strlit("libvorbis");
    assert("adpcm_ima_wav"@.len() == 13 && "libmp3lame"@.len() == 10 && "flac"@.len() == 4
        && "pcm_s16le"@.len() == 9 && "pcm_s24le"@.len() == 9 && "libvorbis"@.len() == 9);
    assert("pcm_s16le"@[5] == '1' && "pcm_s24le"@[5] == '2' && "libvorbis"@[5] == 'r');
}

/// Formats without loss take no bitrate. MP3 at every bitrate, and Ogg Vorbis above 48 kbit/s, are
/// given exactly that bitrate, as `-b:a` and the number with a `k`. Below, where its encoder has
/// no bitrates, Ogg Vorbis is given its two lowest qualities, the lowest up to 36 kbit/s.
pub proof fn the_bitrate_is_the_one_that_was_chosen(f: OutputFormat, kbps: u32)
    ensures
        f != OutputFormat::Mp3 && f != OutputFormat::Ogg ==> processing::format_args(f, kbps).len()
            == 2,
        f == OutputFormat::Mp3 || (f == OutputFormat::Ogg && kbps > 48) ==> {
            let a = processing::format_args(f, kbps);
            let t = text_of(a[3]);
            &&& a.len() == 4
            &&& a[2] == ArgModel::Text("-b:a"@)
            &&& a[3] is Text
            &&& t.len() > 1
            &&& t.last() == 'k'
            &&& text::digits_value(t.drop_last()) == Some(kbps as nat)
            &&& t == text::decimal(kbps as nat) + "k"@
        },
        f == OutputFormat::Ogg && kbps <= 48 ==> {
            let a = processing::format_args(f, kbps);
            &&& a.len() == 4
            &&& a[2] == ArgModel::Text("-q:a"@)
            &&& a[3] == ArgModel::Text(
                if kbps <= 36 {
                    "-1"@
                } else {
                    "0"@
                },
            )
        },
{
    reveal_strlit("k");
    text_laws::a_decimal_reads_back(kbps as nat);
    let t: Seq<char> = text::decimal(kbps as nat) + "k"@;
    assert(t.drop_last() =~= text::decimal(kbps as nat));
}

/// Different bitrates are asked for differently.
pub proof fn different_bitrates_differ(f: OutputFormat, a: u32, b: u32)
    requires
        f == OutputFormat::Mp3 || (f == OutputFormat::Ogg && a > 48 && b > 48),
        a != b,
    ensures
        processing::format_args(f, a) != processing::format_args(f, b),
{
    the_bitrate_is_the_one_that_was_chosen(f, a);
    the_bitrate_is_the_one_that_was_chosen(f, b);
}

/// The encode reads the source, writes the output and nothing else, with the filters before the
/// format, and the output last.
pub proof fn the_encode_reads_filters_and_writes(
    source: Source,
    o: ProcessingOptions,
    filters: Seq<ArgModel>,
)
    ensures
        ({
            let c = pipeline::encode_cmd(source, o, filters);
            let f = processing::format_args(o.output_format, o.bitrate_kbps);
            &&& c[0] == ArgModel::Text("-nostdin"@)
            &&& c[3] == ArgModel::Text("-i"@)
            &&& c[4] == args::read_from(source)
            &&& c.last() == ArgModel::Output
            &&& c.len() == 6 + filters.len() + f.len() + 1
            &&& c.subrange(6, 6 + filters.len() as int) == filters
            &&& c.subrange(6 + filters.len() as int, c.len() - 1) == f
        }),
{
    let c: Seq<ArgModel> = pipeline::encode_cmd(source, o, filters);
    let f: Seq<ArgModel> = processing::format_args(o.output_format, o.bitrate_kbps);
    assert(c.subrange(6, 6 + filters.len() as int) =~= filters);
    assert(c.subrange(6 + filters.len() as int, c.len() - 1) =~= f);
}

// ---------------------------------------------------------------------------
// The steps
// ---------------------------------------------------------------------------

/// A file is probed first where anything has to be known of it, and encoded at once otherwise.
pub proof fn a_file_is_probed_where_it_matters(o: ProcessingOptions, lufs: Seq<char>)
    ensures
        ({
            let s = pipeline::advance(pipeline::fresh(o, lufs), Event::Begin);
            &&& o.automixer || o.target_lufs is Some <==> s.action is Probe
            &&& !o.automixer && o.target_lufs is None <==> s.action is Encode
            &&& s.action is Encode ==> s.action->Encode_result is Skipped
            &&& s.action matches ActionModel::Probe { cmd } ==> cmd.last() == ArgModel::Input
                && cmd[0] == ArgModel::Text("-nostdin"@)
            &&& s.job.opts == o && s.job.lufs == lufs
        }),
{
}

/// The rate of the input is the one that was probed, or 44.1 kHz where none was found. The stages
/// run at 48 kHz where the dereverb or the denoiser is switched on, and at the rate of the input
/// otherwise; the decoding pass gives mono samples at that rate, and the memory for them is reserved
/// before.
pub proof fn the_stages_run_at_a_rate_that_suits_them(
    j: JobModel,
    rate: Option<u32>,
    duration: Option<Single>,
)
    requires
        j.opts.automixer,
    ensures
        ({
            let s = pipeline::advance(
                j,
                Event::Probed { sample_rate: rate, duration },
            );
            &&& rate matches Some(r) ==> s.job.source_sr == r
            &&& rate is None ==> s.job.source_sr == 44100
            &&& j.opts.automixer_dfn3_dereverb || j.opts.automixer_nn_dereverb ==> s.job.dsp_sr
                == 48000
            &&& !j.opts.automixer_dfn3_dereverb && !j.opts.automixer_nn_dereverb ==> s.job.dsp_sr
                == s.job.source_sr
            &&& s.job.phase == Phase::Decoding
            &&& s.job.opts == j.opts && s.job.lufs == j.lufs && s.job.source == j.source
            &&& s.action->reserve == memory::footprint(
                duration,
                s.job.dsp_sr,
                j.opts.automixer_dfn3_dereverb,
            )
            &&& s.action matches ActionModel::Decode { reserve, cmd } && follows(
                cmd,
                "-ar"@,
                text::decimal(s.job.dsp_sr as nat),
            ) && follows(cmd, "-ac"@, "1"@) && follows(cmd, "-f"@, "f32le"@) && follows(
                cmd,
                "-af"@,
                processing::deesser_text(),
            ) && cmd.last() == ArgModel::Text("pipe:1"@) && cmd[4] == ArgModel::Input
        }),
{
    let s: pipeline::Step = pipeline::advance(j, Event::Probed { sample_rate: rate, duration });
    let c: Seq<ArgModel> = pipeline::decode_cmd(s.job.dsp_sr);
    assert(s.action->Decode_cmd == c);
    assert(c[6] == ArgModel::Text("-af"@) && c[8] == ArgModel::Text("-ac"@));
    assert(c[10] == ArgModel::Text("-ar"@) && c[12] == ArgModel::Text("-f"@));
}

/// In the command line, `value` stands directly behind `name`.
pub open spec fn follows(cmd: Seq<ArgModel>, name: Seq<char>, value: Seq<char>) -> bool {
    exists|i: int|
        0 <= i && i + 1 < cmd.len() && #[trigger] cmd[i] == ArgModel::Text(name) && cmd[i + 1]
            == ArgModel::Text(value)
}

/// Without the clean-up the loudness is measured on the input as it is, at its own rate and
/// duration, an unknown duration counting as none: from 3 s on as it stands, below on a padded
/// copy.
pub proof fn the_duration_picks_the_first_measurement(
    j: JobModel,
    rate: Option<u32>,
    secs: Option<int>,
)
    requires
        !j.opts.automixer,
        secs matches Some(n) ==> 0 <= n < 0x100_0000,
    ensures
        ({
            let duration = match secs {
                Some(n) => Some(single::whole(n)),
                None => None,
            };
            let s = pipeline::advance(j, Event::Probed { sample_rate: rate, duration });
            &&& s.action is MeasureStandard <==> secs is Some && secs->0 >= 3
            &&& s.action is MeasurePadded <==> secs is None || secs->0 < 3
            &&& rate matches Some(r) ==> s.job.source_sr == r
            &&& rate is None ==> s.job.source_sr == 44100
            &&& secs matches Some(n) ==> s.job.duration == single::whole(n)
            &&& secs is None ==> s.job.duration == single::whole(0)
            &&& s.job.opts == j.opts && s.job.lufs == j.lufs && s.job.source == j.source
        }),
{
    single::lemma_whole_exact(3);
    single::lemma_whole_exact(0);
    single::lemma_units_order(0, 3);
    if let Some(n) = secs {
        single::lemma_whole_exact(n);
        if n > 3 {
            single::lemma_units_order(3, n);
        } else if n < 3 {
            single::lemma_units_order(n, 3);
        }
    }
}

/// Short audio is padded to 5 s, longer audio by one second.
pub proof fn padding_is_five_seconds_or_one_more(secs: int)
    requires
        0 <= secs < 0xFF_FFFF,
    ensures
        secs <= 4 ==> pipeline::pad_secs(single::whole(secs)) == single::whole(5),
        secs >= 4 ==> pipeline::pad_secs(single::whole(secs)) == single::whole(secs + 1),
{
    exact::lemma_whole_sum(secs, 1);
    single::lemma_whole_exact(secs + 1);
    single::lemma_whole_exact(5);
    if secs + 1 < 5 {
        single::lemma_units_order(secs + 1, 5);
    } else if secs + 1 > 5 {
        single::lemma_units_order(5, secs + 1);
    }
}

/// Whatever the duration, audio is padded to 5 s at least and to one second more than it has at
/// least, and to no more than the larger of these.
pub proof fn padding_is_five_seconds_at_least(duration: Single)
    requires
        !duration.nan(),
    ensures
        single::at_most(single::whole(5), pipeline::pad_secs(duration)),
        !single::sum(duration, single::whole(1)).nan(),
        single::at_most(single::sum(duration, single::whole(1)), pipeline::pad_secs(duration)),
        pipeline::pad_secs(duration) == single::whole(5) || pipeline::pad_secs(duration)
            == single::sum(duration, single::whole(1)),
{
    single::lemma_whole_exact(5);
    single::lemma_whole_exact(1);
    exact::lemma_whole_zero();
    if duration.finite() {
        let v: int = duration.value() + single::whole(1).value();
        if v < 0 {
            single::lemma_rounded_rounds(true, (-v) as nat, 1);
        } else {
            single::lemma_rounded_rounds(false, v as nat, 1);
        }
    }
}

/// Decoding is followed by the stages exactly where it started, could be read, succeeded and gave
/// a sample; otherwise the file is given up, with the reason.
pub proof fn decoding_has_to_succeed(
    j: JobModel,
    started: bool,
    samples: Decoding,
    success: Option<bool>,
    stderr: String,
)
    ensures
        ({
            let s = pipeline::advance(j, Event::Decoded { started, samples, success, stderr });
            &&& s.action is Process <==> started && success == Some(true)
                && samples is Samples && samples->Samples_0 > 0
            &&& s.action is Process || s.action is Fail
            &&& s.action matches ActionModel::Process { stages } ==> stages == pipeline::stages(
                j.opts,
            )
            &&& s.action is Fail ==> s.job.phase == Phase::Ended
            &&& s.action is Process ==> s.job == (JobModel { phase: Phase::Processing, ..j })
            &&& started && samples is Samples && success == Some(false) ==> text::contains(
                s.action->Fail_message,
                stderr@,
            )
            &&& started && samples is OutOfMemory ==> text::contains(
                s.action->Fail_message,
                samples->OutOfMemory_0@,
            )
        }),
{
    if started && samples is Samples && success == Some(false) {
        let m: Seq<char> = "FFmpeg de-esser pass failed: "@;
        text_laws::lemma_found_between(m, stderr@, Seq::empty());
        assert(m + stderr@ + Seq::<char>::empty() =~= m + stderr@);
    }
    if started && samples is OutOfMemory {
        let m: Seq<char> = "reading FFmpeg de-esser output: "@;
        let t: Seq<char> = samples->OutOfMemory_0@;
        text_laws::lemma_found_between(m, t, Seq::empty());
        assert(m + t + Seq::<char>::empty() =~= m + t);
    }
}

/// A file is given up for silence exactly where it is to be trimmed and its peak stays more than
/// 8 dB below the threshold.
pub proof fn silence_is_more_than_eight_decibels_below(o: ProcessingOptions, peak: int)
    requires
        -0x10_0000 < peak < 0x10_0000,
    ensures
        pipeline::all_below_threshold(o, single::whole(peak)) <==> o.trim_silence && peak + 8
            < o.trim_silence_threshold.whole_db(),
{
    let t: int = o.trim_silence_threshold.whole_db();
    exact::lemma_whole_sum(peak, 8);
    single::lemma_whole_exact(peak + 8);
    single::lemma_whole_exact(t);
    if peak + 8 < t {
        single::lemma_units_order(peak + 8, t);
    } else if t < peak + 8 {
        single::lemma_units_order(t, peak + 8);
    }
}

/// So it is for every peak: one that 8 dB more would not bring up to the threshold.
pub proof fn silence_stays_below_the_threshold_even_lifted(o: ProcessingOptions, peak: Single)
    ensures
        pipeline::all_below_threshold(o, peak) <==> o.trim_silence && single::less(
            single::sum(peak, single::whole(8)),
            single::whole(o.trim_silence_threshold.whole_db()),
        ),
{
}

/// Digital silence is given up where it is to be trimmed, and only there.
pub proof fn digital_silence_is_given_up_where_it_is_trimmed(o: ProcessingOptions)
    ensures
        !o.trim_silence ==> !pipeline::all_below_threshold(o, single::infinity(true)),
        o.trim_silence ==> pipeline::all_below_threshold(o, single::infinity(true)),
{
    let t: int = o.trim_silence_threshold.whole_db();
    single::lemma_whole_exact(t);
    single::lemma_whole_exact(8);
    single::lemma_finite_magnitude(single::whole(t));
}

/// Once the stages are done the file is stored at the rate of the stages, or given up: with the
/// message that came, or for silence. What is stored lasts as many seconds as it has samples over
/// the rate.
pub proof fn what_was_processed_is_stored(j: JobModel, secs: nat, peak_db: Single)
    requires
        0 < j.dsp_sr < 0x100_0000,
        secs * j.dsp_sr < 0x100_0000,
        secs < 0x100_0000,
    ensures
        ({
            let len = (secs * j.dsp_sr) as usize;
            let s = pipeline::advance(j, Event::Processed(Ok((len, peak_db))));
            if pipeline::all_below_threshold(j.opts, peak_db) {
                s.job.phase == Phase::Ended && s.action == (ActionModel::Fail {
                    message: pipeline::below_threshold_text(j.opts, peak_db),
                })
            } else {
                &&& s.action == (ActionModel::Store { sample_rate: j.dsp_sr })
                &&& s.job.duration == single::whole(secs as int)
                &&& s.job.phase == Phase::Storing
                &&& s.job.source_sr == j.source_sr && s.job.opts == j.opts && s.job.lufs == j.lufs
            }
        }),
{
    let n: int = (secs * j.dsp_sr) as int;
    let d: int = j.dsp_sr as int;
    exact::lemma_whole_magnitude(n);
    exact::lemma_whole_magnitude(d);
    exact::lemma_whole_magnitude(secs as int);
    lemma_pow2_pos(149);
    let u: nat = pow2(149);
    assert((secs * d * u) * u == (secs * u) * (d * u)) by (nonlinear_arith);
    assert(n == secs * d);
    assert(d * u > 0) by (nonlinear_arith)
        requires
            d > 0,
            u > 0,
    ;
    exact::lemma_quotient_held(
        single::whole(n),
        single::whole(d),
        single::whole(secs as int),
    );
}

/// The duration of what was processed is its samples over the rate of the stages, whatever they are;
/// it picks the first measurement, the standard one from 3 s on.
pub proof fn the_duration_is_samples_over_rate(j: JobModel, len: usize, peak_db: Single)
    requires
        !pipeline::all_below_threshold(j.opts, peak_db),
        j.opts.target_lufs is Some,
    ensures
        ({
            let s = pipeline::advance(j, Event::Processed(Ok((len, peak_db))));
            let m = pipeline::advance(s.job, Event::Stored(Ok(())));
            &&& s.job.duration == single::quotient(
                single::whole(len as int),
                single::whole(j.dsp_sr as int),
            )
            &&& m.job.duration == s.job.duration
            &&& m.action is MeasureStandard <==> single::at_most(
                single::whole(3),
                s.job.duration,
            )
            &&& m.action is MeasurePadded <==> !single::at_most(single::whole(3), s.job.duration)
            &&& m.job.source == Source::Stored
        }),
{
}

/// A message that a stage or the store gave is what the file is given up with.
pub proof fn a_failure_keeps_its_message(j: JobModel, message: String)
    ensures
        pipeline::advance(j, Event::Processed(Err(message))).action == (ActionModel::Fail {
            message: message@,
        }),
        pipeline::advance(j, Event::Stored(Err(message))).action == (ActionModel::Fail {
            message: message@,
        }),
        pipeline::advance(j, Event::Processed(Err(message))).job.phase == Phase::Ended,
        pipeline::advance(j, Event::Stored(Err(message))).job.phase == Phase::Ended,
{
}

/// What is stored is measured where there is a target, and encoded as it is otherwise; from then on
/// it is what is read.
pub proof fn what_is_stored_is_read(j: JobModel)
    ensures
        ({
            let s = pipeline::advance(j, Event::Stored(Ok(())));
            &&& s.job.source == Source::Stored
            &&& j.opts.target_lufs is None <==> s.action is Encode
            &&& s.action matches ActionModel::Encode { cmd, result } ==> result is Skipped
                && cmd[4] == ArgModel::Stored && follows(
                cmd,
                "-ar"@,
                text::decimal(j.source_sr as nat),
            )
            &&& s.job.source_sr == j.source_sr && s.job.duration == j.duration
        }),
{
    let s: pipeline::Step = pipeline::advance(j, Event::Stored(Ok(())));
    if j.opts.target_lufs is None {
        let c: Seq<ArgModel> = s.action->Encode_cmd;
        assert(c[8] == ArgModel::Text("-ar"@));
    }
}

/// A usable measurement of a file of 3 s or more is what it is normalized with; otherwise a padded
/// copy is measured, a failed measurement being logged with its reason.
pub proof fn a_standard_measurement_is_used_or_followed_by_a_padded_one(
    j: JobModel,
    stats: LoudnormStats,
    input_i: Option<Single>,
    reason: String,
)
    requires
        j.phase == Phase::Standard,
    ensures
        ({
            let s = pipeline::advance(j, Event::Measured(Ok((stats, input_i))));
            let good = input_i is Some && ffmpeg::usable(input_i->0) && single::at_most(
                single::whole(3),
                j.duration,
            );
            &&& good <==> s.action is Encode
            &&& good ==> s.action->Encode_result is Standard && s.action->Encode_cmd[7]
                == ArgModel::Text(
                ffmpeg::behind(
                    processing::chain_text(j.opts),
                    ffmpeg::loudnorm_apply(j.lufs, stats),
                ),
            )
            &&& !good ==> s.action == (ActionModel::MeasurePadded {
                pad_secs: pipeline::pad_secs(j.duration),
            }) && s.log is None && s.job == (JobModel { phase: Phase::Padded, ..j })
        }),
        ({
            let s = pipeline::advance(j, Event::Measured(Err(reason)));
            &&& s.action is MeasurePadded
            &&& s.log is Some && text::contains(s.log->0, reason@)
        }),
{
    lemma_reason_is_logged("Standard"@, reason@);
}

proof fn lemma_reason_is_logged(pass: Seq<char>, reason: Seq<char>)
    ensures
        text::contains(pipeline::unavailable_text(pass, reason), reason),
{
    let a: Seq<char> = pass + " loudness measurement unavailable ("@;
    text_laws::lemma_found_between(a, reason, "); falling back to the next strategy."@);
}

/// A usable measurement of the padded copy is what the file is normalized with; otherwise its peak
/// is measured.
pub proof fn a_padded_measurement_is_used_or_followed_by_the_peak(
    j: JobModel,
    stats: LoudnormStats,
    input_i: Option<Single>,
    reason: String,
)
    requires
        j.phase == Phase::Padded,
    ensures
        ({
            let s = pipeline::advance(j, Event::Measured(Ok((stats, input_i))));
            let good = input_i is Some && ffmpeg::usable(input_i->0);
            &&& good <==> s.action is Encode
            &&& good ==> s.action->Encode_result is Padded && s.action->Encode_cmd[7]
                == ArgModel::Text(
                ffmpeg::behind(
                    processing::chain_text(j.opts),
                    ffmpeg::loudnorm_apply(j.lufs, stats),
                ),
            )
            &&& !good ==> s.action is MeasurePeak && s.log is None && s.job == (JobModel {
                phase: Phase::Peak,
                ..j
            })
        }),
        ({
            let s = pipeline::advance(j, Event::Measured(Err(reason)));
            &&& s.action is MeasurePeak
            &&& s.log is Some && text::contains(s.log->0, reason@)
        }),
{
    lemma_reason_is_logged("Padded"@, reason@);
}

/// A measured peak, in whole decibels, is brought to the target by the gain in between, up to
/// 40 dB, and left alone beyond; so it is where no peak was found.
pub proof fn a_measured_peak_is_brought_to_the_target(j: JobModel, peak: int, target: int)
    requires
        -0x40_0000 < peak < 0x40_0000,
        -0x40_0000 < target < 0x40_0000,
        j.opts.target_peak_dbfs == single::whole(target),
    ensures
        ({
            let s = pipeline::advance(j, Event::PeakMeasured { peak: Some(single::whole(peak)) });
            &&& s.action is Encode
            &&& s.action->Encode_result == if target - peak <= 40 {
                NormResult::Peak { gain_db: single::whole(target - peak) }
            } else {
                NormResult::Skipped
            }
        }),
        ({
            let s = pipeline::advance(j, Event::PeakMeasured { peak: None });
            s.action is Encode && s.action->Encode_result is Skipped
        }),
{
    the_gain_in_whole_decibels(j.duration, peak, target);
}

/// The measurements read the source, run it through the filters of the encode with the measuring
/// filter last, and write nothing.
pub proof fn measurements_differ_in_their_last_filter(j: JobModel, pad: Seq<char>)
    ensures
        ({
            let chain = processing::chain_text(j.opts);
            let a = pipeline::measure_standard(j).action->MeasureStandard_cmd;
            let b = pipeline::padded_cmd(j, pad);
            let c = pipeline::measure_peak(j, None).action->MeasurePeak_cmd;
            &&& a[4] == args::read_from(j.source) && b[4] == a[4] && c[4] == a[4]
            &&& follows(a, "-af"@, ffmpeg::behind(chain, ffmpeg::loudnorm_measure(j.lufs)))
            &&& follows(b, "-af"@, ffmpeg::behind(chain, ffmpeg::padded_measure(j.lufs, pad)))
            &&& follows(c, "-af"@, ffmpeg::behind(chain, "volumedetect"@))
            &&& follows(a, "-f"@, "null"@) && follows(b, "-f"@, "null"@) && follows(
                c,
                "-f"@,
                "null"@,
            )
            &&& !a.contains(ArgModel::Output) && !b.contains(ArgModel::Output) && !c.contains(
                ArgModel::Output,
            )
        }),
        text::contains(ffmpeg::padded_measure(j.lufs, pad), "apad=pad_dur="@ + pad),
        text::contains(ffmpeg::padded_measure(j.lufs, pad), ",atrim=end="@ + pad),
        text::contains(ffmpeg::padded_measure(j.lufs, pad), ffmpeg::loudnorm_measure(j.lufs)),
        text::contains(ffmpeg::loudnorm_measure(j.lufs), "loudnorm=I="@ + j.lufs),
{
    let a: Seq<ArgModel> = pipeline::measure_standard(j).action->MeasureStandard_cmd;
    let b: Seq<ArgModel> = pipeline::padded_cmd(j, pad);
    let c: Seq<ArgModel> = pipeline::measure_peak(j, None).action->MeasurePeak_cmd;
    assert(a[6] == ArgModel::Text("-af"@) && a[8] == ArgModel::Text("-f"@));
    assert(b[6] == ArgModel::Text("-af"@) && b[8] == ArgModel::Text("-f"@));
    assert(c[6] == ArgModel::Text("-af"@) && c[8] == ArgModel::Text("-f"@));
    let e: Seq<char> = Seq::empty();
    let m: Seq<char> = ffmpeg::loudnorm_measure(j.lufs);
    let p: Seq<char> = "apad=pad_dur="@ + pad;
    let t: Seq<char> = ",atrim=end="@ + pad;
    let all: Seq<char> = ffmpeg::padded_measure(j.lufs, pad);
    text_laws::lemma_found_between(e, p, t + ","@ + m);
    assert(e + p + (t + ","@ + m) =~= all);
    text_laws::lemma_found_between(p, t, ","@ + m);
    assert(p + t + (","@ + m) =~= all);
    text_laws::lemma_found_between(p + t + ","@, m, e);
    assert(p + t + ","@ + m + e =~= all);
    let i: Seq<char> = "loudnorm=I="@ + j.lufs;
    let rest: Seq<char> = ":TP=-1.5:LRA=1.0:print_format=json"@;
    text_laws::lemma_found_between(e, i, rest);
    assert(e + i + rest =~= m);
}

} // verus!
